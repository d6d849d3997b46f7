//! Bounded selection of the best `(key, id)` pairs.

use vstd::multiset::Multiset;
use vstd::prelude::*;

verus! {

/// A ranked candidate: its sort key and its entry.
pub type Ranked = (u64, u32);

/// Best key first; of equal keys the lower id first.
pub open spec fn in_order(a: Ranked, b: Ranked) -> bool {
    a.0 > b.0 || a.0 == b.0 && a.1 <= b.1
}

pub open spec fn ranked(items: Seq<Ranked>) -> bool {
    forall|i: int, j: int| 0 <= i < j < items.len() ==> in_order(items[i], items[j])
}

/// `items` are the best of `all`: as many as the limit allows, ranked, and no
/// candidate that was left out has a better key than one that was kept.
pub open spec fn best_of(items: Seq<Ranked>, limit: nat, all: Multiset<Ranked>) -> bool {
    let kept = items.to_multiset();
    &&& ranked(items)
    &&& kept.subset_of(all)
    &&& items.len() == (if all.len() < limit {
        all.len()
    } else {
        limit
    })
    &&& forall|x: Ranked, y: Ranked|
        all.count(x) > #[trigger] kept.count(x) && #[trigger] kept.count(y) > 0 ==> x.0 <= y.0
}

/// Bounded max-selection over `(key, id)`.
pub(crate) struct TopK {
    limit: usize,
    items: Vec<Ranked>,
}

impl View for TopK {
    type V = Seq<Ranked>;

    closed spec fn view(&self) -> Seq<Ranked> {
        self.items@
    }
}

impl TopK {
    /// How many candidates are kept.
    pub(crate) closed spec fn cap(&self) -> nat {
        self.limit as nat
    }

    pub(crate) open spec fn holds_best_of(&self, all: Multiset<Ranked>) -> bool {
        self.cap() > 0 && best_of(self@, self.cap(), all)
    }

    pub(crate) fn new(limit: usize) -> (r: TopK)
        ensures
            r.cap() == (if limit == 0 {
                1
            } else {
                limit as nat
            }),
            r.holds_best_of(Multiset::empty()),
    {
        let r = TopK {
            limit: if limit == 0 {
                1
            } else {
                limit
            },
            items: Vec::new(),
        };
        proof {
            broadcast use vstd::seq_lib::group_to_multiset_ensures;

            assert(r.items@.to_multiset() =~= Multiset::empty());
        }
        r
    }

    /// Cheap pre-check: can an entry with this score still make the cut? It can
    /// while there is room, and then where the score is no lower than that of the
    /// worst kept candidate. Where it cannot, pushing it changes nothing.
    pub(crate) fn accepts(&self, score: u32) -> (r: bool)
        ensures
            r == (self@.len() < self.cap() || self@.len() == 0 || score >= self@.last().0 / 0x1_0000_0000_0000),
            !r ==> forall|key: u64| key / 0x1_0000_0000_0000 == score ==> !self.would_keep(key),
    {
        if self.items.len() < self.limit {
            return true;
        }
        let n: usize = self.items.len();
        if n == 0 {
            return true;
        }
        let worst: u64 = self.items[n - 1].0;
        score as u64 >= worst / 0x1_0000_0000_0000
    }

    /// A candidate with this key would be kept.
    pub(crate) closed spec fn would_keep(&self, key: u64) -> bool {
        self.items@.len() < self.limit || self.items@.len() > 0 && key > self.items@.last().0
    }

    /// Leaving out a candidate that would not be kept is no different from
    /// pushing it.
    pub(crate) proof fn lemma_left_out(&self, all: Multiset<Ranked>, key: u64, id: u32)
        requires
            self.holds_best_of(all),
            !self.would_keep(key),
        ensures
            self.holds_best_of(all.insert((key, id))),
    {
        broadcast use vstd::seq_lib::group_to_multiset_ensures;

        let x: Ranked = (key, id);
        let kept = self.items@.to_multiset();
        let more = all.insert(x);
        assert forall|a: Ranked, b: Ranked| more.count(a) > #[trigger] kept.count(a) && #[trigger] kept.count(b)
            > 0 implies a.0 <= b.0 by {
            if a == x {
                assert(self.items@.contains(b));
                let i = choose|i: int| 0 <= i < self.items@.len() && self.items@[i] == b;
                if i < self.items@.len() - 1 {
                    assert(in_order(self.items@[i], self.items@[self.items@.len() - 1]));
                }
            } else {
                assert(all.count(a) > kept.count(a));
            }
        }
    }

    /// Where a candidate stands among the kept ones.
    fn place(&self, key: u64, id: u32) -> (at: usize)
        requires
            ranked(self.items@),
        ensures
            at <= self.items@.len(),
            forall|i: int| 0 <= i < at ==> in_order(#[trigger] self.items@[i], (key, id)),
            forall|i: int| at <= i < self.items@.len() ==> in_order((key, id), #[trigger] self.items@[i]),
    {
        let mut at: usize = self.items.len();
        while at > 0
            invariant
                at <= self.items@.len(),
                ranked(self.items@),
                forall|i: int| at <= i < self.items@.len() ==> in_order((key, id), #[trigger] self.items@[i]),
            decreases at,
        {
            let (k, other) = self.items[at - 1];
            if k > key || (k == key && other <= id) {
                assert forall|i: int| 0 <= i < at implies in_order(#[trigger] self.items@[i], (key, id)) by {
                    if i < at - 1 {
                        assert(in_order(self.items@[i], self.items@[at - 1]));
                    }
                }
                return at;
            }
            at -= 1;
        }
        at
    }

    fn insert(&mut self, key: u64, id: u32)
        requires
            ranked(old(self).items@),
        ensures
            ranked(final(self).items@),
            final(self).limit == old(self).limit,
            final(self).items@.len() == old(self).items@.len() + 1,
            final(self).items@.to_multiset() == old(self).items@.to_multiset().insert((key, id)),
    {
        let ghost before = self.items@;
        let at: usize = self.place(key, id);
        self.items.insert(at, (key, id));
        proof {
            broadcast use vstd::seq_lib::group_to_multiset_ensures;

            vstd::seq_lib::to_multiset_insert(before, at as int, (key, id));
            let items = self.items@;
            assert forall|i: int, j: int| 0 <= i < j < items.len() implies in_order(items[i], items[j]) by {
                let i2: int = if i < at {
                    i
                } else {
                    i - 1
                };
                let j2: int = if j < at {
                    j
                } else {
                    j - 1
                };
                if i != at {
                    assert(items[i] == before[i2]);
                }
                if j != at {
                    assert(items[j] == before[j2]);
                }
                if i != at && j != at {
                    assert(in_order(before[i2], before[j2]));
                }
            }
        }
    }

    /// Offers a candidate: it is kept while there is room, or in place of one of
    /// the worst.
    pub(crate) fn push(&mut self, key: u64, id: u32, Ghost(all): Ghost<Multiset<Ranked>>)
        requires
            old(self).holds_best_of(all),
        ensures
            final(self).cap() == old(self).cap(),
            final(self).holds_best_of(all.insert((key, id))),
    {
        broadcast use vstd::seq_lib::group_to_multiset_ensures;

        let ghost before = self.items@;
        let ghost kept = before.to_multiset();
        let ghost x: Ranked = (key, id);
        let n: usize = self.items.len();
        if n < self.limit {
            self.insert(key, id);
            proof {
                let now = self.items@.to_multiset();
                let more = all.insert(x);
                assert(now =~= kept.insert(x));
                // Nothing was ever left out.
                assert(all.len() == kept.len());
                lemma_same_size(kept, all);
                assert(now =~= more);
            }
            return;
        }
        let worst: u64 = self.items[n - 1].0;
        if key > worst {
            let at: usize = self.first_worst(worst);
            let ghost gone = before[at as int];
            let _ = self.items.remove(at);
            proof {
                vstd::seq_lib::to_multiset_remove(before, at as int);
                assert(self.items@ =~= before.remove(at as int));
                let items = self.items@;
                assert forall|i: int, j: int| 0 <= i < j < items.len() implies in_order(items[i], items[j]) by {
                    let i2: int = if i < at {
                        i
                    } else {
                        i + 1
                    };
                    let j2: int = if j < at {
                        j
                    } else {
                        j + 1
                    };
                    assert(in_order(before[i2], before[j2]));
                }
            }
            self.insert(key, id);
            proof {
                let now = self.items@.to_multiset();
                let more = all.insert(x);
                assert(now =~= kept.remove(gone).insert(x));
                assert(before.contains(gone));
                assert(kept.count(gone) > 0);
                assert forall|a: Ranked| now.count(a) <= more.count(a) by {}
                assert forall|a: Ranked, b: Ranked| more.count(a) > #[trigger] now.count(a) && #[trigger] now.count(
                    b,
                ) > 0 implies a.0 <= b.0 by {
                    assert(a.0 <= worst) by {
                        if a == gone {
                        } else {
                            assert(all.count(a) > kept.count(a));
                            assert(kept.count(gone) > 0);
                        }
                    }
                    if b != x {
                        assert(kept.count(b) > 0);
                        assert(before.contains(b));
                        let i = choose|i: int| 0 <= i < before.len() && before[i] == b;
                        if i < before.len() - 1 {
                            assert(in_order(before[i], before[before.len() - 1]));
                        }
                        assert(b.0 >= worst);
                    }
                }
            }
        } else {
            proof {
                self.lemma_left_out(all, key, id);
            }
        }
    }

    /// The first of the kept candidates with the worst key.
    fn first_worst(&self, worst: u64) -> (at: usize)
        requires
            self.items@.len() > 0,
            self.items@.last().0 == worst,
        ensures
            at < self.items@.len(),
            self.items@[at as int].0 == worst,
            at > 0 ==> self.items@[at - 1].0 != worst,
    {
        let mut at: usize = self.items.len() - 1;
        while at > 0 && self.items[at - 1].0 == worst
            invariant
                at < self.items@.len(),
                self.items@[at as int].0 == worst,
            decreases at,
        {
            at -= 1;
        }
        at
    }

    /// Offers the candidates that another selection kept.
    pub(crate) fn merge(
        &mut self,
        other: &TopK,
        Ghost(all): Ghost<Multiset<Ranked>>,
        Ghost(others): Ghost<Multiset<Ranked>>,
    )
        requires
            old(self).holds_best_of(all),
            other.holds_best_of(others),
            old(self).cap() == other.cap(),
        ensures
            final(self).cap() == old(self).cap(),
            final(self).holds_best_of(all.add(others)),
    {
        let n: usize = other.items.len();
        let mut i: usize = 0;
        proof {
            broadcast use vstd::seq_lib::group_to_multiset_ensures;

            assert(other.items@.subrange(0, 0).to_multiset() =~= Multiset::empty());
            assert(all.add(other.items@.subrange(0, 0).to_multiset()) =~= all);
        }
        while i < n
            invariant
                n == other.items@.len(),
                i <= n,
                self.cap() == old(self).cap(),
                self.holds_best_of(all.add(other.items@.subrange(0, i as int).to_multiset())),
            decreases n - i,
        {
            let (key, id) = other.items[i];
            let ghost so_far = all.add(other.items@.subrange(0, i as int).to_multiset());
            self.push(key, id, Ghost(so_far));
            proof {
                broadcast use vstd::seq_lib::group_to_multiset_ensures;

                let next = other.items@.subrange(0, i + 1);
                assert(next =~= other.items@.subrange(0, i as int).push((key, id)));
                assert(so_far.insert((key, id)) =~= all.add(next.to_multiset()));
            }
            i += 1;
        }
        proof {
            assert(other.items@.subrange(0, n as int) =~= other.items@);
            lemma_best_of_best(self.items@, other.items@, self.cap(), all, others);
        }
    }

    /// The kept candidates, ranked.
    pub(crate) fn into_sorted(self) -> (r: Vec<Ranked>)
        ensures
            r@ == self@,
    {
        self.items
    }
}

/// A multiset within another of the same size is that other.
proof fn lemma_same_size(a: Multiset<Ranked>, b: Multiset<Ranked>)
    requires
        a.subset_of(b),
        a.len() == b.len(),
    ensures
        a == b,
{
    broadcast use vstd::multiset::group_multiset_axioms;

    let rest = b.sub(a);
    assert(b =~= a.add(rest));
    assert(rest.len() == 0);
    assert forall|x: Ranked| rest.count(x) == 0 by {
        if rest.count(x) > 0 {
            assert(rest =~= rest.remove(x).insert(x));
            assert(rest.remove(x).insert(x).len() == rest.remove(x).len() + 1);
        }
    }
    assert(a =~= b);
}

/// The best of some candidates and of the best of others are the best of all.
proof fn lemma_best_of_best(
    items: Seq<Ranked>,
    other: Seq<Ranked>,
    limit: nat,
    all: Multiset<Ranked>,
    others: Multiset<Ranked>,
)
    requires
        limit > 0,
        best_of(other, limit, others),
        best_of(items, limit, all.add(other.to_multiset())),
    ensures
        best_of(items, limit, all.add(others)),
{
    broadcast use vstd::multiset::group_multiset_axioms;
    broadcast use vstd::seq_lib::group_to_multiset_ensures;

    let k = items.to_multiset();
    let b = other.to_multiset();
    let some = all.add(b);
    let full = all.add(others);
    assert(b.subset_of(others));
    assert(others =~= b.add(others.sub(b)));
    assert(others.len() >= b.len());
    if others.len() == b.len() {
        lemma_same_size(b, others);
    }
    assert forall|x: Ranked| k.count(x) <= full.count(x) by {
        assert(k.count(x) <= some.count(x));
        assert(b.count(x) <= others.count(x));
    }
    assert forall|x: Ranked, y: Ranked| full.count(x) > #[trigger] k.count(x) && #[trigger] k.count(y)
        > 0 implies x.0 <= y.0 by {
        if some.count(x) <= k.count(x) && x.0 > y.0 {
            assert(others.count(x) > b.count(x));
            assert(others.len() > b.len());
            assert(b.len() == limit);
            assert(k.len() == limit);
            assert forall|z: Ranked| b.count(z) > 0 implies z.0 >= x.0 by {
                assert(others.count(x) > b.count(x) && b.count(z) > 0);
            }
            assert(b.count(y) == 0);
            if b.subset_of(k) {
                lemma_same_size(b, k);
                assert(false);
            }
            let z = choose|z: Ranked| b.count(z) > k.count(z);
            assert(b.count(z) > k.count(z));
            assert(some.count(z) > k.count(z) && k.count(y) > 0);
        }
    }
}

} // verus!

//! Byte-string searching under ASCII case folding.

use vstd::prelude::*;

use crate::outside::{first_of, first_of_two};

verus! {

/// ASCII lower case of one byte; every other byte stands for itself.
pub open spec fn lower(b: u8) -> u8 {
    if 65 <= b <= 90 {
        (b + 32) as u8
    } else {
        b
    }
}

/// ASCII upper case of one byte; every other byte stands for itself.
pub open spec fn upper(b: u8) -> u8 {
    if 97 <= b <= 122 {
        (b - 32) as u8
    } else {
        b
    }
}

/// No ASCII capital occurs in `s`.
pub open spec fn is_lower(s: Seq<u8>) -> bool {
    forall|i: int| 0 <= i < s.len() ==> lower(#[trigger] s[i]) == s[i]
}

/// Equal up to ASCII case.
pub open spec fn same_ci(a: Seq<u8>, b: Seq<u8>) -> bool {
    &&& a.len() == b.len()
    &&& forall|i: int| 0 <= i < a.len() ==> lower(#[trigger] a[i]) == lower(b[i])
}

/// `needle` stands in `hay` at `at`, up to ASCII case.
pub open spec fn occurs_ci(hay: Seq<u8>, needle: Seq<u8>, at: int) -> bool {
    &&& 0 <= at <= hay.len() - needle.len()
    &&& same_ci(hay.subrange(at, at + needle.len()), needle)
}

/// `needle` stands in `hay` at `at`, byte for byte.
pub open spec fn occurs(hay: Seq<u8>, needle: Seq<u8>, at: int) -> bool {
    &&& 0 <= at <= hay.len() - needle.len()
    &&& hay.subrange(at, at + needle.len()) == needle
}

/// `needle` occurs somewhere in `hay`, up to ASCII case.
pub open spec fn contains_ci(hay: Seq<u8>, needle: Seq<u8>) -> bool {
    exists|at: int| occurs_ci(hay, needle, at)
}

/// `needle` occurs somewhere in `hay`, byte for byte.
pub open spec fn contains(hay: Seq<u8>, needle: Seq<u8>) -> bool {
    exists|at: int| occurs(hay, needle, at)
}

/// The leftmost place where `needle` occurs in `hay`, up to ASCII case.
pub open spec fn is_first_ci(hay: Seq<u8>, needle: Seq<u8>, at: Option<int>) -> bool {
    match at {
        Some(i) => occurs_ci(hay, needle, i) && forall|j: int| 0 <= j < i ==> !occurs_ci(hay, needle, j),
        None => !contains_ci(hay, needle),
    }
}

/// The leftmost place where `needle` occurs in `hay`, byte for byte.
pub open spec fn is_first(hay: Seq<u8>, needle: Seq<u8>, at: Option<int>) -> bool {
    match at {
        Some(i) => occurs(hay, needle, i) && forall|j: int| 0 <= j < i ==> !occurs(hay, needle, j),
        None => !contains(hay, needle),
    }
}

/// The position of the last `b` in `s`, if there is one.
pub open spec fn is_last_of(s: Seq<u8>, b: u8, at: Option<int>) -> bool {
    match at {
        Some(i) => 0 <= i < s.len() && s[i] == b && forall|j: int| i < j < s.len() ==> s[j] != b,
        None => forall|j: int| 0 <= j < s.len() ==> s[j] != b,
    }
}

pub fn to_lower(b: u8) -> (r: u8)
    ensures
        r == lower(b),
{
    if b >= 65 && b <= 90 {
        b + 32
    } else {
        b
    }
}

pub fn to_upper(b: u8) -> (r: u8)
    ensures
        r == upper(b),
{
    if b >= 97 && b <= 122 {
        b - 32
    } else {
        b
    }
}

/// Whether two byte strings are equal.
pub fn eq_bytes(a: &[u8], b: &[u8]) -> (r: bool)
    ensures
        r == (a@ == b@),
{
    if a.len() != b.len() {
        return false;
    }
    let n: usize = a.len();
    let mut i: usize = 0;
    while i < n
        invariant
            n == a@.len(),
            n == b@.len(),
            i <= n,
            forall|j: int| 0 <= j < i ==> a@[j] == b@[j],
        decreases n - i,
    {
        if a[i] != b[i] {
            return false;
        }
        i += 1;
    }
    assert(a@ =~= b@);
    true
}

/// Whether `hay`, from `at` on, holds `needle` up to ASCII case.
pub fn eq_ci_at(hay: &[u8], at: usize, needle: &[u8]) -> (r: bool)
    requires
        at + needle@.len() <= hay@.len(),
    ensures
        r == same_ci(hay@.subrange(at as int, at + needle@.len()), needle@),
{
    let n: usize = needle.len();
    let len: usize = hay.len();
    let mut i: usize = 0;
    while i < n
        invariant
            n == needle@.len(),
            len == hay@.len(),
            at + n <= len,
            i <= n,
            forall|j: int| 0 <= j < i ==> lower(hay@[at + j]) == lower(#[trigger] needle@[j]),
        decreases n - i,
    {
        if to_lower(hay[at + i]) != to_lower(needle[i]) {
            assert(hay@.subrange(at as int, at + n)[i as int] == hay@[at + i]);
            return false;
        }
        i += 1;
    }
    true
}

/// Whether two byte strings are equal up to ASCII case.
pub fn eq_ignore_case(a: &[u8], b: &[u8]) -> (r: bool)
    ensures
        r == same_ci(a@, b@),
{
    if a.len() != b.len() {
        return false;
    }
    assert(a@.subrange(0, b@.len() as int) =~= a@);
    eq_ci_at(a, 0, b)
}

/// Whether `hay` begins with `prefix`, byte for byte.
pub fn starts_with(hay: &[u8], prefix: &[u8]) -> (r: bool)
    ensures
        r == occurs(hay@, prefix@, 0),
{
    if hay.len() < prefix.len() {
        return false;
    }
    let n: usize = prefix.len();
    let mut i: usize = 0;
    while i < n
        invariant
            n == prefix@.len(),
            n <= hay@.len(),
            i <= n,
            forall|j: int| 0 <= j < i ==> hay@[j] == prefix@[j],
        decreases n - i,
    {
        if hay[i] != prefix[i] {
            assert(hay@.subrange(0, n as int)[i as int] == hay@[i as int]);
            return false;
        }
        i += 1;
    }
    assert(hay@.subrange(0, n as int) =~= prefix@);
    true
}

/// A place where the first byte of a lower-case needle fits is where both cases
/// of that byte were looked for.
proof fn lemma_first_byte(c: u8, n: u8)
    requires
        lower(n) == n,
    ensures
        lower(c) == lower(n) <==> (c == n || c == upper(n)),
{
}

/// Case-insensitive substring position, without allocating. `needle` is in lower
/// case, as search terms are.
pub fn find_ci(hay: &[u8], needle: &[u8]) -> (r: Option<usize>)
    requires
        is_lower(needle@),
    ensures
        is_first_ci(hay@, needle@, match r { Some(i) => Some(i as int), None => None }),
{
    if needle.is_empty() {
        assert(hay@.subrange(0, 0) =~= needle@);
        assert(occurs_ci(hay@, needle@, 0));
        return Some(0);
    }
    if needle.len() > hay.len() {
        return None;
    }
    let lo: u8 = needle[0];
    let up: u8 = to_upper(lo);
    let last: usize = hay.len() - needle.len();
    // File names are short; a scalar loop beats the setup cost of a vectorised
    // search there.
    if hay.len() <= 64 {
        let mut at: usize = 0;
        while at <= last
            invariant
                needle@.len() > 0,
                last == hay@.len() - needle@.len(),
                hay@.len() <= 64,
                at <= last + 1,
                is_lower(needle@),
                lo == needle@[0],
                up == upper(lo),
                forall|j: int| 0 <= j < at ==> !occurs_ci(hay@, needle@, j),
            decreases last + 1 - at,
        {
            let c: u8 = hay[at];
            proof {
                lemma_first_byte(c, lo);
                let w = hay@.subrange(at as int, at + needle@.len());
                assert(w[0] == c);
                assert(lower(needle@[0]) == needle@[0]);
                if same_ci(w, needle@) {
                    assert(lower(w[0]) == lower(needle@[0]));
                }
            }
            if (c == lo || c == up) && eq_ci_at(hay, at, needle) {
                assert(occurs_ci(hay@, needle@, at as int));
                return Some(at);
            }
            at += 1;
        }
        return None;
    }
    let len: usize = hay.len();
    let mut start: usize = 0;
    while start <= last
        invariant
            needle@.len() > 0,
            len == hay@.len(),
            last == len - needle@.len(),
            start <= last + 1,
            is_lower(needle@),
            lo == needle@[0],
            up == upper(lo),
            forall|j: int| 0 <= j < start ==> !occurs_ci(hay@, needle@, j),
        decreases last + 1 - start,
    {
        let window: &[u8] = vstd::slice::slice_subrange(hay, start, last + 1);
        let found: Option<usize> = if lo == up {
            first_of(lo, window)
        } else {
            first_of_two(lo, up, window)
        };
        proof {
            let skipped: int = match found { Some(f) => f as int, None => window@.len() as int };
            assert forall|j: int| start <= j < start + skipped implies !occurs_ci(hay@, needle@, j) by {
                assert(window@[j - start] == hay@[j]);
                lemma_first_byte(hay@[j], lo);
                let w = hay@.subrange(j, j + needle@.len());
                assert(lower(needle@[0]) == needle@[0]);
                assert(w[0] == hay@[j]);
                if same_ci(w, needle@) {
                    assert(lower(w[0]) == lower(needle@[0]));
                }
            }
        }
        match found {
            None => {
                return None;
            },
            Some(f) => {
                let at: usize = start + f;
                if eq_ci_at(hay, at, needle) {
                    assert(occurs_ci(hay@, needle@, at as int));
                    return Some(at);
                }
                start = at + 1;
            },
        }
    }
    None
}

/// Substring position, byte for byte.
pub fn find_sub(hay: &[u8], needle: &[u8]) -> (r: Option<usize>)
    ensures
        is_first(hay@, needle@, match r { Some(i) => Some(i as int), None => None }),
{
    if needle.len() > hay.len() {
        return None;
    }
    let last: usize = hay.len() - needle.len();
    let n: usize = needle.len();
    let len: usize = hay.len();
    let mut at: usize = 0;
    while at <= last
        invariant
            n == needle@.len(),
            len == hay@.len(),
            last == len - n,
            at <= last + 1,
            forall|j: int| 0 <= j < at ==> !occurs(hay@, needle@, j),
        decreases last + 1 - at,
    {
        let window: &[u8] = vstd::slice::slice_subrange(hay, at, at + n);
        if eq_bytes(window, needle) {
            assert(occurs(hay@, needle@, at as int));
            return Some(at);
        }
        if at == last {
            assert forall|j: int| !occurs(hay@, needle@, j) by {
                if occurs(hay@, needle@, j) {
                    assert(j <= last);
                }
            }
            return None;
        }
        at += 1;
    }
    None
}

} // verus!

//! Core record types and the byte-signature used to prefilter the scan.

use vstd::prelude::*;

use crate::bytestr;

pub mod bits;
pub mod flags;

verus! {

/// The directory bit of a flag byte.
pub open spec fn has_dir_bit(f: u8) -> bool {
    f & flags::DIR != 0
}

/// The tombstone bit of a flag byte.
pub open spec fn has_dead_bit(f: u8) -> bool {
    f & flags::DEAD != 0
}

/// One indexed filesystem entry.
///
/// The in-memory index stores these fields as separate columns (see
/// [`crate::index::Index`]) so the hot search loop only streams the few bytes it
/// needs. This struct is the logical view used by insert/load APIs.
#[derive(Debug, Clone, Copy, PartialEq, Eq)]
pub struct Entry {
    pub dir: u32,
    pub name_off: u32,
    pub name_len: u16,
    pub flags: u8,
    pub size: u64,
    pub mtime: i64,
}

impl Entry {
    pub fn is_dir(&self) -> (r: bool)
        ensures
            r == has_dir_bit(self.flags),
    {
        self.flags & flags::DIR != 0
    }

    pub fn is_dead(&self) -> (r: bool)
        ensures
            r == has_dead_bit(self.flags),
    {
        self.flags & flags::DEAD != 0
    }
}

/// A search result, with the path materialized.
#[derive(Debug, Clone)]
pub struct Hit {
    pub id: u32,
    pub path: Vec<u8>,
    pub name: String,
    pub size: u64,
    pub mtime: i64,
    pub is_dir: bool,
    pub score: u32,
}

#[derive(Debug, Clone)]
pub struct SearchResults {
    pub hits: Vec<Hit>,
    /// Number of entries that matched, before the top-K cut.
    pub total: usize,
    /// True when `total` exceeded the requested limit.
    pub truncated: bool,
    /// Number of live entries considered.
    pub scanned: usize,
}

impl Default for SearchResults {
    fn default() -> (r: Self)
        ensures
            r.hits@.len() == 0,
            r.total == 0,
            !r.truncated,
            r.scanned == 0,
    {
        SearchResults { hits: Vec::new(), total: 0, truncated: false, scanned: 0 }
    }
}

/// The byte with its case bit set: the two cases of an ASCII letter fold to one
/// value.
pub open spec fn fold(b: u8) -> u8 {
    b | 0x20
}

/// The signature bit, of the low 32, that marks an occurrence of a byte.
pub open spec fn byte_bit(b: u8) -> u8 {
    let c = fold(b);
    if 97 <= c <= 122 {
        (c - 97) as u8
    } else if 48 <= c <= 57 {
        (26 + (c - 48) % 3) as u8
    } else if c == 46 {
        29
    } else if c == 95 || c == 45 || c == 47 || c == 32 {
        30
    } else {
        31
    }
}

/// Two adjacent folded bytes as one number.
pub open spec fn pair_key(a: u8, b: u8) -> int {
    fold(a) * 256 + fold(b)
}

/// The top five bits of the 32-bit product of a pair's key and a multiplier.
pub open spec fn pair_hash(a: u8, b: u8, multiplier: int) -> u8 {
    ((pair_key(a, b) * multiplier) % 0x1_0000_0000 / 0x0800_0000) as u8
}

/// The signature bit, of the high 32, that marks an occurrence of a byte pair.
pub open spec fn bigram_bit(a: u8, b: u8) -> u8 {
    (32 + pair_hash(a, b, 0x9E37_79B1)) as u8
}

/// The bit of the second signature that marks an occurrence of a byte pair.
pub open spec fn bigram_bit2(a: u8, b: u8) -> u8 {
    pair_hash(a, b, 0x85EB_CA6B)
}

/// The signature of a byte string: one bit for each byte and one for each pair
/// of neighbours.
pub open spec fn signature_of(s: Seq<u8>) -> u64
    decreases s.len(),
{
    if s.len() == 0 {
        0
    } else {
        let rest = signature_of(s.drop_last()) | (1u64 << byte_bit(s.last()));
        if s.len() == 1 {
            rest
        } else {
            rest | (1u64 << bigram_bit(s[s.len() - 2], s.last()))
        }
    }
}

/// The second signature of a byte string: one bit for each pair of neighbours.
pub open spec fn signature2_of(s: Seq<u8>) -> u32
    decreases s.len(),
{
    if s.len() <= 1 {
        0
    } else {
        signature2_of(s.drop_last()) | (1u32 << bigram_bit2(s[s.len() - 2], s.last()))
    }
}

proof fn lemma_pair_hash_range(a: u8, b: u8, multiplier: int)
    requires
        0 <= multiplier < 0x1_0000_0000,
    ensures
        0 <= pair_key(a, b) <= 0xFFFF,
        0 <= pair_key(a, b) * multiplier <= 0xFFFF * 0xFFFF_FFFF,
        0 <= (pair_key(a, b) * multiplier) % 0x1_0000_0000 / 0x0800_0000 < 32,
{
    let k = pair_key(a, b);
    assert(0 <= k * multiplier <= 0xFFFF * 0xFFFF_FFFF) by (nonlinear_arith)
        requires
            0 <= k <= 0xFFFF,
            0 <= multiplier < 0x1_0000_0000,
    ;
}

pub(crate) proof fn lemma_bigram_bit_range(a: u8, b: u8)
    ensures
        32 <= bigram_bit(a, b) < 64,
{
    lemma_pair_hash_range(a, b, 0x9E37_79B1);
}

fn bit_of(b: u8) -> (r: u8)
    ensures
        r == byte_bit(b),
        r < 32,
{
    let c: u8 = b | 0x20;
    if c >= 97 && c <= 122 {
        c - 97
    } else if c >= 48 && c <= 57 {
        26 + (c - 48) % 3
    } else if c == 46 {
        29
    } else if c == 95 || c == 45 || c == 47 || c == 32 {
        30
    } else {
        31
    }
}

fn hash_pair(a: u8, b: u8, multiplier: u32) -> (r: u8)
    ensures
        r == pair_hash(a, b, multiplier as int),
        r < 32,
{
    proof {
        lemma_pair_hash_range(a, b, multiplier as int);
    }
    let key: u64 = (a | 0x20) as u64 * 256 + (b | 0x20) as u64;
    let product: u64 = key * multiplier as u64;
    (product % 0x1_0000_0000 / 0x0800_0000) as u8
}

/// 64-bit bloom filter over a name: the low 32 bits mark which bytes occur, the
/// high 32 bits which adjacent byte pairs occur.
///
/// Any substring's signature is a subset of the name's, so a candidate can only
/// contain a query term if `sig & term_sig == term_sig`. The bigram half is what
/// makes short common terms cheap: `ss` rejects most names without ever reading
/// them, where a byte-only filter would let every name containing an `s`
/// through and pay a cache miss for each.
pub fn signature(bytes: &[u8]) -> (sig: u64)
    ensures
        sig == signature_of(bytes@),
{
    let n: usize = bytes.len();
    let mut sig: u64 = 0;
    let mut i: usize = 0;
    while i < n
        invariant
            n == bytes@.len(),
            i <= n,
            sig == signature_of(bytes@.subrange(0, i as int)),
        decreases n - i,
    {
        let b: u8 = bytes[i];
        let bit: u8 = bit_of(b);
        sig = sig | (1u64 << bit);
        if i > 0 {
            let prev: u8 = bytes[i - 1];
            let pair: u8 = 32 + hash_pair(prev, b, 0x9E37_79B1);
            sig = sig | (1u64 << pair);
        }
        proof {
            let next = bytes@.subrange(0, i + 1);
            assert(next.drop_last() =~= bytes@.subrange(0, i as int));
            assert(next.last() == b);
        }
        i += 1;
    }
    assert(bytes@.subrange(0, n as int) =~= bytes@);
    sig
}

/// Second, independent bigram bloom filter.
///
/// Names average ~21 bytes, which nearly saturates 32 bigram buckets on its own;
/// a second set of buckets with a different hash roughly squares the rejection
/// rate for two- and three-character terms, which is where the scan would
/// otherwise spend its time reading names it is about to discard.
pub fn signature2(bytes: &[u8]) -> (sig: u32)
    ensures
        sig == signature2_of(bytes@),
{
    let n: usize = bytes.len();
    let mut sig: u32 = 0;
    let mut i: usize = 0;
    while i < n
        invariant
            n == bytes@.len(),
            i <= n,
            sig == signature2_of(bytes@.subrange(0, i as int)),
        decreases n - i,
    {
        if i > 0 {
            let pair: u8 = hash_pair(bytes[i - 1], bytes[i], 0x85EB_CA6B);
            sig = sig | (1u32 << pair);
        }
        proof {
            let next = bytes@.subrange(0, i + 1);
            assert(next.drop_last() =~= bytes@.subrange(0, i as int));
            assert(next.last() == bytes@[i as int]);
        }
        i += 1;
    }
    assert(bytes@.subrange(0, n as int) =~= bytes@);
    sig
}

/// Every bit of `part` is a bit of `whole`.
pub open spec fn bits_within(part: u64, whole: u64) -> bool {
    whole & part == part
}

/// Every bit of `part` is a bit of `whole`.
pub open spec fn bits_within2(part: u32, whole: u32) -> bool {
    whole & part == part
}

pub(crate) proof fn lemma_bits(a: u64, b: u64, c: u64)
    ensures
        bits_within(0, a),
        bits_within(a, a),
        bits_within(a, a | b),
        bits_within(b, a | b),
        bits_within(a, b) && bits_within(b, c) ==> bits_within(a, c),
        bits_within(a, c) && bits_within(b, c) ==> bits_within(a | b, c),
        bits_within(a, c) ==> bits_within(a & b, c),
{
    assert(a & 0 == 0) by (bit_vector);
    assert(a & a == a) by (bit_vector);
    assert((a | b) & a == a) by (bit_vector);
    assert((a | b) & b == b) by (bit_vector);
    assert(b & a == a && c & b == b ==> c & a == a) by (bit_vector);
    assert(c & a == a && c & b == b ==> c & (a | b) == (a | b)) by (bit_vector);
    assert(c & a == a ==> c & (a & b) == (a & b)) by (bit_vector);
}

pub(crate) proof fn lemma_bits2(a: u32, b: u32, c: u32)
    ensures
        bits_within2(0, a),
        bits_within2(a, a),
        bits_within2(a, a | b),
        bits_within2(b, a | b),
        bits_within2(a, b) && bits_within2(b, c) ==> bits_within2(a, c),
        bits_within2(a, c) && bits_within2(b, c) ==> bits_within2(a | b, c),
        bits_within2(a, c) ==> bits_within2(a & b, c),
{
    assert(a & 0 == 0) by (bit_vector);
    assert(a & a == a) by (bit_vector);
    assert((a | b) & a == a) by (bit_vector);
    assert((a | b) & b == b) by (bit_vector);
    assert(b & a == a && c & b == b ==> c & a == a) by (bit_vector);
    assert(c & a == a && c & b == b ==> c & (a | b) == (a | b)) by (bit_vector);
    assert(c & a == a ==> c & (a & b) == (a & b)) by (bit_vector);
}

/// A prefix's signature is a subset.
proof fn lemma_prefix_subset(s: Seq<u8>, n: int)
    requires
        0 <= n <= s.len(),
    ensures
        bits_within(signature_of(s.subrange(0, n)), signature_of(s)),
        bits_within2(signature2_of(s.subrange(0, n)), signature2_of(s)),
    decreases s.len() - n,
{
    let p = s.subrange(0, n);
    if n == s.len() {
        assert(p =~= s);
        lemma_bits(signature_of(s), 0, 0);
        lemma_bits2(signature2_of(s), 0, 0);
    } else {
        let q = s.subrange(0, n + 1);
        lemma_prefix_subset(s, n + 1);
        assert(q.drop_last() =~= p);
        let byte = 1u64 << byte_bit(q.last());
        lemma_bits(signature_of(p), byte, 0);
        lemma_bits(signature_of(p), signature_of(q), signature_of(s));
        lemma_bits2(signature2_of(p), signature2_of(q), signature2_of(s));
        lemma_bits2(signature2_of(p), 0, 0);
        if n > 0 {
            let pair = 1u64 << bigram_bit(q[n - 1], q.last());
            lemma_bits(signature_of(p) | byte, pair, 0);
            lemma_bits(signature_of(p), signature_of(p) | byte, signature_of(q));
            let pair2 = 1u32 << bigram_bit2(q[n - 1], q.last());
            lemma_bits2(signature2_of(p), pair2, 0);
        }
    }
}

/// The bits that the last byte of a byte string puts into its signature.
proof fn lemma_last_bits(s: Seq<u8>)
    requires
        s.len() > 0,
    ensures
        bits_within(1u64 << byte_bit(s.last()), signature_of(s)),
        s.len() > 1 ==> bits_within(1u64 << bigram_bit(s[s.len() - 2], s.last()), signature_of(s)),
        s.len() > 1 ==> bits_within2(
            1u32 << bigram_bit2(s[s.len() - 2], s.last()),
            signature2_of(s),
        ),
{
    let rest = signature_of(s.drop_last());
    let byte = 1u64 << byte_bit(s.last());
    lemma_bits(rest, byte, 0);
    if s.len() > 1 {
        let pair = 1u64 << bigram_bit(s[s.len() - 2], s.last());
        lemma_bits(rest | byte, pair, 0);
        lemma_bits(byte, rest | byte, signature_of(s));
        lemma_bits2(signature2_of(s.drop_last()), 1u32 << bigram_bit2(s[s.len() - 2], s.last()), 0);
    }
}

/// Any substring's signature is a subset of the name's, in both filters.
pub proof fn law_signature_of_substring(name: Seq<u8>, from: int, to: int)
    requires
        0 <= from <= to <= name.len(),
    ensures
        bits_within(signature_of(name.subrange(from, to)), signature_of(name)),
        bits_within2(signature2_of(name.subrange(from, to)), signature2_of(name)),
    decreases to - from,
{
    let sub = name.subrange(from, to);
    if from == to {
        assert(sub.len() == 0);
        lemma_bits(signature_of(name), 0, 0);
        lemma_bits2(signature2_of(name), 0, 0);
    } else {
        law_signature_of_substring(name, from, to - 1);
        let shorter = name.subrange(from, to - 1);
        assert(sub.drop_last() =~= shorter);
        let prefix = name.subrange(0, to);
        lemma_last_bits(prefix);
        lemma_prefix_subset(name, to);
        let whole = signature_of(name);
        let byte = 1u64 << byte_bit(sub.last());
        assert(prefix.last() == sub.last());
        lemma_bits(byte, signature_of(prefix), whole);
        lemma_bits(signature_of(shorter), byte, whole);
        if sub.len() > 1 {
            assert(prefix[prefix.len() - 2] == sub[sub.len() - 2]);
            let pair = 1u64 << bigram_bit(sub[sub.len() - 2], sub.last());
            lemma_bits(pair, signature_of(prefix), whole);
            lemma_bits(signature_of(shorter) | byte, pair, whole);
            let pair2 = 1u32 << bigram_bit2(sub[sub.len() - 2], sub.last());
            lemma_bits2(pair2, signature2_of(prefix), signature2_of(name));
            lemma_bits2(signature2_of(shorter), pair2, signature2_of(name));
        } else {
            lemma_bits2(signature2_of(name), 0, 0);
        }
    }
}

/// Bytes that are equal up to ASCII case fold alike.
pub(crate) proof fn lemma_fold_ignores_case(a: u8, b: u8)
    requires
        bytestr::lower(a) == bytestr::lower(b),
    ensures
        fold(a) == fold(b),
{
    assert(65 <= a <= 90 ==> (a + 32) as u8 | 0x20 == a | 0x20) by (bit_vector);
    assert(65 <= b <= 90 ==> (b + 32) as u8 | 0x20 == b | 0x20) by (bit_vector);
}

/// The signatures do not depend on ASCII case.
pub proof fn law_signature_ignores_case(a: Seq<u8>, b: Seq<u8>)
    requires
        bytestr::same_ci(a, b),
    ensures
        signature_of(a) == signature_of(b),
        signature2_of(a) == signature2_of(b),
    decreases a.len(),
{
    if a.len() > 0 {
        assert(bytestr::same_ci(a.drop_last(), b.drop_last()));
        law_signature_ignores_case(a.drop_last(), b.drop_last());
        let n = a.len() as int;
        lemma_fold_ignores_case(a[n - 1], b[n - 1]);
        if n > 1 {
            lemma_fold_ignores_case(a[n - 2], b[n - 2]);
        }
    }
}

/// A name that contains a term, up to ASCII case, passes the prefilter for it.
pub proof fn law_prefilter_is_sound(name: Seq<u8>, term: Seq<u8>)
    requires
        bytestr::contains_ci(name, term),
    ensures
        bits_within(signature_of(term), signature_of(name)),
        bits_within2(signature2_of(term), signature2_of(name)),
{
    let at = choose|at: int| bytestr::occurs_ci(name, term, at);
    let sub = name.subrange(at, at + term.len());
    law_signature_of_substring(name, at, at + term.len());
    law_signature_ignores_case(sub, term);
}

} // verus!

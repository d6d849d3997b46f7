//! What the library takes on trust from other crates.

use std::sync::Arc;

use rayon::iter::{IntoParallelIterator, ParallelIterator};
use vstd::prelude::*;

verus! {

/// `memchr::memchr`: the position of the first `needle`, or `None` when the byte
/// does not occur.
#[verifier::external_body]
pub(crate) fn first_of(needle: u8, haystack: &[u8]) -> (r: Option<usize>)
    ensures
        match r {
            Some(i) => i < haystack@.len() && haystack@[i as int] == needle && forall|j: int|
                0 <= j < i ==> haystack@[j] != needle,
            None => forall|j: int| 0 <= j < haystack@.len() ==> haystack@[j] != needle,
        },
{
    memchr::memchr(needle, haystack)
}

/// `memchr::memchr2`: the position of the first byte that is either of the two
/// needles, or `None` when neither occurs.
#[verifier::external_body]
pub(crate) fn first_of_two(needle1: u8, needle2: u8, haystack: &[u8]) -> (r: Option<usize>)
    ensures
        match r {
            Some(i) => i < haystack@.len() && (haystack@[i as int] == needle1 || haystack@[i as int] == needle2)
                && forall|j: int| 0 <= j < i ==> haystack@[j] != needle1 && haystack@[j] != needle2,
            None => forall|j: int|
                0 <= j < haystack@.len() ==> haystack@[j] != needle1 && haystack@[j] != needle2,
        },
{
    memchr::memchr2(needle1, needle2, haystack)
}

/// `memchr::memrchr`: the position of the last `needle`, or `None` when the byte
/// does not occur.
#[verifier::external_body]
pub(crate) fn last_of(needle: u8, haystack: &[u8]) -> (r: Option<usize>)
    ensures
        match r {
            Some(i) => i < haystack@.len() && haystack@[i as int] == needle && forall|j: int|
                i < j < haystack@.len() ==> haystack@[j] != needle,
            None => forall|j: int| 0 <= j < haystack@.len() ==> haystack@[j] != needle,
        },
{
    memchr::memrchr(needle, haystack)
}

/// The bytes are the beginning, and not all, of the encoding of one character.
pub open spec fn is_cut_char(bytes: Seq<u8>) -> bool {
    bytes.len() > 0 && exists|c: char| #[trigger]
        vstd::utf8::encode_utf8(seq![c]).len() > bytes.len() && vstd::utf8::encode_utf8(seq![c]).subrange(
            0,
            bytes.len() as int,
        ) == bytes
}

/// The first `n` bytes are UTF-8, and no more of them are.
pub open spec fn is_valid_up_to(bytes: Seq<u8>, n: int) -> bool {
    &&& 0 <= n <= bytes.len()
    &&& vstd::utf8::valid_utf8(bytes.subrange(0, n))
    &&& forall|m: int| n < m <= bytes.len() ==> !vstd::utf8::valid_utf8(#[trigger] bytes.subrange(0, m))
}

/// `core::str::from_utf8`: the text that the bytes encode. Where they are not
/// UTF-8, the number of leading bytes that are, at most (`valid_up_to`), and the
/// length of what follows them and is wrong, or no length where the bytes only
/// end in the middle of a character (`error_len`).
#[verifier::external_body]
pub(crate) fn str_from_utf8(bytes: &[u8]) -> (r: Result<&str, (usize, Option<usize>)>)
    ensures
        match r {
            Ok(s) => vstd::utf8::valid_utf8(bytes@) && s@ == vstd::utf8::decode_utf8(bytes@),
            Err((up_to, len)) => {
                &&& !vstd::utf8::valid_utf8(bytes@)
                &&& is_valid_up_to(bytes@, up_to as int)
                &&& len is None <==> is_cut_char(bytes@.skip(up_to as int))
            },
        },
{
    match core::str::from_utf8(bytes) {
        Ok(s) => Ok(s),
        Err(e) => Err((e.valid_up_to(), e.error_len())),
    }
}

/// `Vec::capacity`: at least the length.
#[verifier::external_body]
pub(crate) fn vec_capacity<T>(v: &Vec<T>) -> (r: usize)
    ensures
        r >= v@.len(),
{
    v.capacity()
}

/// `Vec::shrink_to_fit`: the elements stay.
#[verifier::external_body]
pub(crate) fn vec_shrink<T>(v: &mut Vec<T>)
    ensures
        final(v)@ == old(v)@,
{
    v.shrink_to_fit()
}

/// `Arc::clone`: another pointer to the same value.
#[verifier::external_body]
pub(crate) fn share<T>(a: &Arc<T>) -> (r: Arc<T>)
    ensures
        *r == **a,
{
    Arc::clone(a)
}

// ---- text ---------------------------------------------------------------

/// The lower case of a text, as `str::to_lowercase` gives it.
pub uninterp spec fn lowercase_of(text: Seq<char>) -> Seq<char>;

/// `str::to_lowercase`: a function of the text.
#[verifier::external_body]
pub(crate) fn str_lowercase(text: &str) -> (r: String)
    ensures
        r@ == lowercase_of(text@),
{
    text.to_lowercase()
}

/// The lower case of one character, as `char::to_lowercase` gives it.
pub uninterp spec fn lowercase_of_char(c: char) -> Seq<char>;

/// `char::to_lowercase`: a function of the character.
#[verifier::external_body]
pub(crate) fn char_lowercase(c: char) -> (r: Vec<char>)
    ensures
        r@ == lowercase_of_char(c),
{
    c.to_lowercase().collect()
}

/// The text that bytes are read as, as `String::from_utf8_lossy` gives it.
pub uninterp spec fn lossy_text_of(bytes: Seq<u8>) -> Seq<char>;

/// `String::from_utf8_lossy`: a function of the bytes, and the text itself where
/// they are UTF-8.
#[verifier::external_body]
pub(crate) fn lossy_text(bytes: &[u8]) -> (r: String)
    ensures
        r@ == lossy_text_of(bytes@),
        vstd::utf8::valid_utf8(bytes@) ==> r@ == vstd::utf8::decode_utf8(bytes@),
{
    String::from_utf8_lossy(bytes).into_owned()
}

/// A text in quotes with escapes, as its `Debug` form gives it.
pub uninterp spec fn debug_text_of(text: Seq<char>) -> Seq<char>;

/// `format!` with the `Debug` form of a text: a function of the text.
#[verifier::external_body]
pub(crate) fn debug_text(text: &str) -> (r: String)
    ensures
        r@ == debug_text_of(text@),
{
    format!("{text:?}")
}

/// `String::from_iter`: the text of these characters.
#[verifier::external_body]
pub(crate) fn string_of(chars: &[char]) -> (r: String)
    ensures
        r@ == chars@,
{
    String::from_iter(chars)
}

// ---- regular expressions --------------------------------------------------

#[verifier::external_type_specification]
#[verifier::external_body]
pub struct ExRegex(regex::bytes::Regex);

/// Whether a compiled expression matches somewhere in a byte string.
pub uninterp spec fn regex_accepts(re: regex::bytes::Regex, hay: Seq<u8>) -> bool;

/// Whether a pattern, compiled without regard to case, matches somewhere in a
/// byte string.
pub uninterp spec fn pattern_accepts(pattern: Seq<char>, hay: Seq<u8>) -> bool;

/// Why a pattern does not compile; `None` where it does.
pub uninterp spec fn pattern_error(pattern: Seq<char>) -> Option<Seq<char>>;

/// `regex::bytes::RegexBuilder::build`, case-insensitive: an expression that
/// matches what the pattern matches, or the text of the error. Both depend on
/// the pattern alone.
#[verifier::external_body]
pub(crate) fn regex_compile(pattern: &str) -> (r: Result<regex::bytes::Regex, String>)
    ensures
        match r {
            Ok(re) => pattern_error(pattern@) is None && forall|hay: Seq<u8>| #[trigger]
                regex_accepts(re, hay) == pattern_accepts(pattern@, hay),
            Err(e) => pattern_error(pattern@) == Some(e@),
        },
{
    match regex::bytes::RegexBuilder::new(pattern).case_insensitive(true).build() {
        Ok(re) => Ok(re),
        Err(e) => Err(e.to_string()),
    }
}

/// `regex::bytes::Regex::is_match`: whether the expression matches somewhere in
/// the bytes, which depends on the two alone.
#[verifier::external_body]
pub(crate) fn regex_is_match(re: &regex::bytes::Regex, hay: &[u8]) -> (r: bool)
    ensures
        r == regex_accepts(*re, hay@),
{
    re.is_match(hay)
}

/// The prefix literals of a pattern read without regard to case; `None` where it
/// does not parse or has no finite set of them.
pub uninterp spec fn prefix_literals(pattern: Seq<char>) -> Option<Seq<Seq<u8>>>;

/// `regex_syntax::Parser::parse`, case-insensitive, and
/// `regex_syntax::hir::literal::Extractor::extract` with `ExtractKind::Prefix`:
/// the literals depend on the pattern alone, and where there are any, every match
/// of the pattern begins with one of them.
#[verifier::external_body]
pub(crate) fn regex_prefix_literals(pattern: &str) -> (r: Option<Vec<Vec<u8>>>)
    ensures
        match r {
            Some(l) => prefix_literals(pattern@) == Some(crate::path::views(l@)),
            None => prefix_literals(pattern@) is None,
        },
        r matches Some(l) ==> l@.len() > 0 ==> forall|hay: Seq<u8>| #[trigger]
            pattern_accepts(pattern@, hay) ==> exists|i: int|
                0 <= i < l@.len() && crate::bytestr::contains(hay, #[trigger] l@[i]@),
{
    let hir = regex_syntax::ParserBuilder::new().case_insensitive(true).build().parse(pattern).ok()?;
    let mut extractor = regex_syntax::hir::literal::Extractor::new();
    extractor.kind(regex_syntax::hir::literal::ExtractKind::Prefix);
    let found = extractor.extract(&hir);
    found.literals().map(|l| l.iter().map(|x| x.as_bytes().to_vec()).collect())
}

// ---- work on many items -----------------------------------------------------

/// `rayon`'s parallel `map` and `collect` over a range: the function's result for
/// each number, in order.
#[verifier::external_body]
pub(crate) fn par_map<T: Send, F: Fn(usize) -> T + Sync + Send>(n: usize, f: F) -> (r: Vec<T>)
    requires
        forall|i: usize| i < n ==> call_requires(f, (i,)),
    ensures
        r@.len() == n,
        forall|i: usize| i < n ==> call_ensures(f, (i,), #[trigger] r@[i as int]),
{
    (0..n).into_par_iter().map(f).collect()
}

/// `slice::sort_unstable` on integers: the same numbers, ascending.
#[verifier::external_body]
pub(crate) fn sort_ids(v: &mut Vec<u32>)
    ensures
        final(v)@.to_multiset() == old(v)@.to_multiset(),
        forall|i: int, j: int| 0 <= i <= j < final(v)@.len() ==> final(v)@[i] <= final(v)@[j],
{
    v.sort_unstable()
}

// ---- media types --------------------------------------------------------

/// The type, the subtype and the essence of the first media type that
/// `mime_guess` has for an extension.
pub uninterp spec fn media_type_of(ext: Seq<char>) -> Option<(Seq<char>, Seq<char>, Seq<char>)>;

/// `mime_guess::from_ext` and the first of its guesses: a function of the
/// extension.
#[verifier::external_body]
pub(crate) fn media_type(ext: &str) -> (r: Option<(String, String, String)>)
    ensures
        match r {
            Some((kind, sub, essence)) => media_type_of(ext@) == Some((kind@, sub@, essence@)),
            None => media_type_of(ext@) is None,
        },
{
    mime_guess::from_ext(ext).first().map(
        |m| (m.type_().to_string(), m.subtype().to_string(), m.essence_str().to_string()),
    )
}

/// `image` knows a format that begins with these bytes.
pub uninterp spec fn begins_an_image(head: Seq<u8>) -> bool;

/// `image::guess_format`, as far as it says whether it knows the format: a
/// function of the bytes.
#[verifier::external_body]
pub(crate) fn has_image_format(head: &[u8]) -> (r: bool)
    ensures
        r == begins_an_image(head@),
{
    image::guess_format(head).is_ok()
}

} // verus!

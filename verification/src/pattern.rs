//! Regular expressions over byte texts.

use vstd::prelude::*;

verus! {

/// The spans of one match: the whole match first, then each capture group in
/// the order of its opening parenthesis, `None` for a group that took no part.
pub type Captures = Vec<Option<(usize, usize)>>;

/// What the leftmost match of `pattern` in `haystack` captures, as `regex`
/// finds it; `None` where nothing matches or the pattern is not a regular
/// expression.
pub uninterp spec fn regex_captures(pattern: Seq<char>, haystack: Seq<u8>) -> Option<
    Seq<Option<(usize, usize)>>,
>;

/// The spans lie inside a text of `len` bytes, and the whole match is there.
pub open spec fn spans_ok(v: Seq<Option<(usize, usize)>>, len: nat) -> bool {
    &&& v.len() >= 1
    &&& v[0] is Some
    &&& forall|i: int|
        0 <= i < v.len() ==> ((#[trigger] v[i]) matches Some(sp) ==> sp.0 <= sp.1 <= len)
}

/// The spans of a match, where there is one.
pub open spec fn captures_view(r: Option<Captures>) -> Option<Seq<Option<(usize, usize)>>> {
    match r {
        Some(v) => Some(v@),
        None => None,
    }
}

/// `regex::bytes::Regex::new` on `pattern`, then `Regex::captures` on
/// `haystack`. The contract names the result and states of it what the
/// crate documents: group 0 is the whole match and is always there, and
/// every span is a pair of byte offsets into the haystack with the start not
/// after the end.
#[verifier::external_body]
pub(crate) fn captures(pattern: &str, haystack: &[u8]) -> (r: Option<Captures>)
    ensures
        captures_view(r) == regex_captures(pattern@, haystack@),
        r matches Some(v) ==> spans_ok(v@, haystack@.len()),
{
    let re = regex::bytes::Regex::new(pattern).ok()?;
    let caps = re.captures(haystack)?;
    Some(caps.iter().map(|m| m.map(|m| (m.start(), m.end()))).collect())
}

/// What the leftmost match of `pattern` in `haystack` that is looked for from
/// the byte offset `start` on captures, as `regex` finds it with the whole
/// haystack in sight; `None` where nothing matches or the pattern is not a
/// regular expression.
pub uninterp spec fn regex_captures_at(
    pattern: Seq<char>,
    haystack: Seq<u8>,
    start: usize,
) -> Option<Seq<Option<(usize, usize)>>>;

/// `regex::bytes::Regex::new` on `pattern`, then `Regex::captures_at` on
/// `haystack` and `start`, which the crate lets be the haystack's length at
/// most. The search sees the bytes before `start`, so an anchor or a word
/// break holds only where it holds in the whole haystack. The contract names
/// the result and states of it what the crate documents: group 0 is the
/// whole match and is always there, and every span is a pair of byte offsets
/// into the whole haystack with the start not after the end.
#[verifier::external_body]
pub(crate) fn captures_at(pattern: &str, haystack: &[u8], start: usize) -> (r: Option<Captures>)
    requires
        start <= haystack@.len(),
    ensures
        captures_view(r) == regex_captures_at(pattern@, haystack@, start),
        r matches Some(v) ==> spans_ok(v@, haystack@.len()),
{
    let re = regex::bytes::Regex::new(pattern).ok()?;
    let caps = re.captures_at(haystack, start)?;
    Some(caps.iter().map(|m| m.map(|m| (m.start(), m.end()))).collect())
}

} // verus!

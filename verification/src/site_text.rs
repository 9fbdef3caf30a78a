//! Texts for the pages of the site.

use crate::text::{all_ascii, ascii_string, ascii_text};
use vstd::prelude::*;
use vstd::string::*;
use vstd::utf8::encode_utf8;

verus! {

/// `String::push`: the text with the character added at its end.
#[verifier::external_body]
fn push_char(s: &mut String, c: char)
    ensures
        final(s)@ == old(s)@.push(c),
{
    s.push(c)
}

/// The character with an ASCII capital letter made small.
pub open spec fn lower_char(c: char) -> char {
    if 'A' <= c && c <= 'Z' {
        ((c as u8) + 32) as char
    } else {
        c
    }
}

/// The character stays in a text that is searched: a small ASCII letter,
/// a digit, or any character beyond ASCII.
pub open spec fn searchable(c: char) -> bool {
    c as u32 > 127 || ('a' <= c && c <= 'z') || ('0' <= c && c <= '9')
}

/// The text as it is searched: in lower case, without the ASCII characters
/// that are neither letters nor digits.
pub open spec fn searchable_of(s: Seq<char>) -> Seq<char>
    decreases s.len(),
{
    if s.len() == 0 {
        Seq::empty()
    } else {
        let r = searchable_of(s.drop_last());
        if searchable(lower_char(s.last())) {
            r.push(lower_char(s.last()))
        } else {
            r
        }
    }
}

fn to_lower_char(c: char) -> (r: char)
    ensures
        r == lower_char(c),
{
    if 'A' <= c && c <= 'Z' {
        ((c as u8) + 32) as char
    } else {
        c
    }
}

/// Makes the text that is searched.
pub fn searchable_text(s: &str) -> (r: String)
    ensures
        r@ == searchable_of(s@),
{
    let mut res = String::new();
    let n = s.unicode_len();
    let mut k: usize = 0;
    assert(s@.take(0) =~= Seq::<char>::empty());
    while k < n
        invariant
            k <= n,
            n == s@.len(),
            res@ == searchable_of(s@.take(k as int)),
        decreases n - k,
    {
        let c = to_lower_char(s.get_char(k));
        assert(s@.take(k as int + 1).drop_last() =~= s@.take(k as int));
        if c as u32 > 127 || ('a' <= c && c <= 'z') || ('0' <= c && c <= '9') {
            push_char(&mut res, c);
        }
        k += 1;
    }
    assert(s@.take(k as int) =~= s@);
    res
}


/// The small hexadecimal digit of a number below 16.
pub open spec fn hex_char(n: u8) -> u8 {
    if n < 10 {
        (0x30 + n) as u8
    } else {
        (0x61 + n - 10) as u8
    }
}

/// The capital hexadecimal digit of a number below 16.
pub open spec fn hex_capital(n: u8) -> u8 {
    if n < 10 {
        (0x30 + n) as u8
    } else {
        (0x41 + n - 10) as u8
    }
}

/// The bytes written in small hexadecimal digits, two for each byte.
pub open spec fn hex_text(bytes: Seq<u8>) -> Seq<u8>
    decreases bytes.len(),
{
    if bytes.len() == 0 {
        Seq::empty()
    } else {
        hex_text(bytes.drop_last()).push(hex_char(bytes.last() / 16)).push(
            hex_char(bytes.last() % 16),
        )
    }
}

proof fn lemma_hex_text(bytes: Seq<u8>)
    ensures
        all_ascii(hex_text(bytes)),
        hex_text(bytes).len() == 2 * bytes.len(),
    decreases bytes.len(),
{
    if bytes.len() > 0 {
        lemma_hex_text(bytes.drop_last());
    }
}

fn hex_digit_of(n: u8) -> (r: u8)
    requires
        n < 16,
    ensures
        r == hex_char(n),
{
    if n < 10 {
        0x30 + n
    } else {
        0x61 + n - 10
    }
}

fn push_hex(out: &mut Vec<u8>, bytes: &[u8])
    ensures
        final(out)@ == old(out)@ + hex_text(bytes@),
{
    let mut k: usize = 0;
    assert(bytes@.take(0) =~= Seq::<u8>::empty());
    assert(out@ =~= old(out)@ + hex_text(bytes@.take(0)));
    while k < bytes.len()
        invariant
            k <= bytes.len(),
            out@ == old(out)@ + hex_text(bytes@.take(k as int)),
        decreases bytes.len() - k,
    {
        let b = bytes[k];
        assert(bytes@.take(k as int + 1).drop_last() =~= bytes@.take(k as int));
        out.push(hex_digit_of(b / 16));
        out.push(hex_digit_of(b % 16));
        assert(out@ =~= old(out)@ + hex_text(bytes@.take(k as int + 1)));
        k += 1;
    }
    assert(bytes@.take(k as int) =~= bytes@);
}

/// Bytes to be written in small hexadecimal digits.
pub struct HexFormatter<'a>(pub &'a [u8]);

impl<'a> HexFormatter<'a> {
    /// The bytes in small hexadecimal digits.
    pub fn to_string(&self) -> (r: String)
        ensures
            r@ == ascii_text(hex_text(self.0@)),
    {
        let mut out: Vec<u8> = Vec::new();
        push_hex(&mut out, self.0);
        proof {
            lemma_hex_text(self.0@);
            assert(out@ =~= hex_text(self.0@));
        }
        ascii_string(out)
    }
}

/// The byte is written as it is in the query of an address: an ASCII
/// character that is visible and none of `#`, `"`, `'`, `<`, `>`.
pub open spec fn query_safe(b: u8) -> bool {
    0x20 < b && b < 0x7f && b != 0x23 && b != 0x22 && b != 0x27 && b != 0x3c && b != 0x3e
}

/// The bytes as they stand in the query of an address: every byte that is
/// not safe there as a percent sign and its two capital hexadecimal digits.
pub open spec fn query_encoded(bytes: Seq<u8>) -> Seq<u8>
    decreases bytes.len(),
{
    if bytes.len() == 0 {
        Seq::empty()
    } else {
        let r = query_encoded(bytes.drop_last());
        let b = bytes.last();
        if query_safe(b) {
            r.push(b)
        } else {
            r.push(0x25).push(hex_capital(b / 16)).push(hex_capital(b % 16))
        }
    }
}

proof fn lemma_query_encoded(bytes: Seq<u8>)
    ensures
        all_ascii(query_encoded(bytes)),
    decreases bytes.len(),
{
    if bytes.len() > 0 {
        lemma_query_encoded(bytes.drop_last());
    }
}

fn hex_capital_of(n: u8) -> (r: u8)
    requires
        n < 16,
    ensures
        r == hex_capital(n),
{
    if n < 10 {
        0x30 + n
    } else {
        0x41 + n - 10
    }
}

fn push_query(out: &mut Vec<u8>, bytes: &[u8])
    ensures
        final(out)@ == old(out)@ + query_encoded(bytes@),
{
    let mut k: usize = 0;
    assert(bytes@.take(0) =~= Seq::<u8>::empty());
    assert(out@ =~= old(out)@ + query_encoded(bytes@.take(0)));
    while k < bytes.len()
        invariant
            k <= bytes.len(),
            out@ == old(out)@ + query_encoded(bytes@.take(k as int)),
        decreases bytes.len() - k,
    {
        let b = bytes[k];
        assert(bytes@.take(k as int + 1).drop_last() =~= bytes@.take(k as int));
        if 0x20 < b && b < 0x7f && b != 0x23 && b != 0x22 && b != 0x27 && b != 0x3c && b != 0x3e {
            out.push(b);
        } else {
            out.push(0x25);
            out.push(hex_capital_of(b / 16));
            out.push(hex_capital_of(b % 16));
        }
        assert(out@ =~= old(out)@ + query_encoded(bytes@.take(k as int + 1)));
        k += 1;
    }
    assert(bytes@.take(k as int) =~= bytes@);
}

/// Writes a text for the query of an address.
pub fn query_encode(input: &str) -> (r: String)
    ensures
        r@ == ascii_text(query_encoded(input.spec_bytes())),
{
    let mut out: Vec<u8> = Vec::new();
    push_query(&mut out, input.as_bytes());
    proof {
        lemma_query_encoded(input.spec_bytes());
        assert(out@ =~= query_encoded(input.spec_bytes()));
    }
    ascii_string(out)
}

/// The trackers that every magnet link names.
pub const TRACKER_1: &'static str = "http://nyaa.tracker.wf:7777/announce";

pub const TRACKER_2: &'static str = "udp://open.stealth.si:80/announce";

pub const TRACKER_3: &'static str = "udp://tracker.opentrackr.org:1337/announce";

pub const TRACKER_4: &'static str = "udp://tracker.coppersurfer.tk:6969/announce";

pub const TRACKER_5: &'static str = "udp://exodus.desync.com:6969/announce";

/// The kind of content of the pages.
pub const TEXT_HTML: &'static str = "text/html; charset=utf-8";

/// The name and the hash of a torrent, to be written as a magnet link.
pub struct MagnetFormatter<'a>(pub &'a str, pub &'a [u8]);

/// A tracker as a parameter of a magnet link.
pub open spec fn tracker_text(tracker: Seq<char>) -> Seq<char> {
    "&tr="@ + ascii_text(query_encoded(encode_utf8(tracker)))
}

/// The magnet link of a torrent: its hash, its name, and the trackers.
pub open spec fn magnet_text(name: Seq<char>, hash: Seq<u8>) -> Seq<char> {
    "magnet:?xt=urn:btih:"@ + ascii_text(hex_text(hash)) + "&dn="@ + ascii_text(
        query_encoded(encode_utf8(name)),
    ) + tracker_text(TRACKER_1@) + tracker_text(TRACKER_2@) + tracker_text(TRACKER_3@)
        + tracker_text(TRACKER_4@) + tracker_text(TRACKER_5@)
}

fn with_tracker(link: String, tracker: &str) -> (r: String)
    ensures
        r@ == link@ + tracker_text(tracker@),
{
    let r = link.concat("&tr=").concat(query_encode(tracker).as_str());
    assert(r@ =~= link@ + tracker_text(tracker@));
    r
}

impl<'a> MagnetFormatter<'a> {
    /// The magnet link.
    pub fn to_string(&self) -> (r: String)
        ensures
            r@ == magnet_text(self.0@, self.1@),
    {
        let hash = HexFormatter(self.1).to_string();
        let r = "magnet:?xt=urn:btih:".to_owned();
        let r = r.concat(hash.as_str());
        let r = r.concat("&dn=");
        let r = r.concat(query_encode(self.0).as_str());
        let r = with_tracker(r, TRACKER_1);
        let r = with_tracker(r, TRACKER_2);
        let r = with_tracker(r, TRACKER_3);
        let r = with_tracker(r, TRACKER_4);
        with_tracker(r, TRACKER_5)
    }
}

/// The page was not found.
#[derive(Copy, Clone, Debug, PartialEq, Eq, Structural)]
pub struct NotFound;

impl NotFound {
    /// What the fault says to a reader.
    pub fn to_string(&self) -> (r: &'static str)
        ensures
            r@ == "Not found"@,
    {
        "Not found"
    }
}

} // verus!

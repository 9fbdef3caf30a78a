//! Taking in the torrent listing: how far to read it, how to read the
//! fields of a row, and in which order new torrents enter the store.

use crate::anilist_shows::{nfc, nfc_of};
use crate::text::{
    bytes_eq, decimal_in, find_byte, first_index, lowered, parse_decimal, str_eq, to_lowercase,
};
use rust_decimal::prelude::ToPrimitive;
use rust_decimal::Decimal;
use vstd::prelude::*;
use vstd::slice::slice_subrange;
use vstd::string::*;
use vstd::utf8::encode_utf8;

verus! {

/// How far behind the newest torrent of the store a torrent of the listing
/// may lie and still count as new: the listing is not strictly in order.
pub const OVERLAP: i64 = 74;

/// The most pages that one scrape reads.
pub const MAX_PAGES: u32 = 100;

/// The address of the listing without the number of the page.
pub const LISTING: &'static str = "https://nyaa.si/?f=0&c=1_2&p=";

/// A torrent as the listing shows it. `torrent_id` is its number in the
/// store once it is there; `timestamp` counts seconds.
pub struct Torrent {
    pub torrent_id: Option<i64>,
    pub title: String,
    pub hash: Vec<u8>,
    pub nyaa_id: i64,
    pub trusted: bool,
    pub size: i64,
    pub timestamp: u64,
}

/// The torrent is so far behind the newest torrent of the store that the
/// store has all that follow it in the listing.
pub open spec fn is_known(nyaa_id: i64, max_nyaa_id: i64) -> bool {
    nyaa_id + OVERLAP <= max_nyaa_id
}

/// The page holds a torrent that the store is sure to have.
pub open spec fn page_is_known(page: Seq<Torrent>, max_nyaa_id: i64) -> bool {
    exists|i: int| 0 <= i < page.len() && is_known(#[trigger] page[i].nyaa_id, max_nyaa_id)
}

/// Tells whether a page reaches what the store has.
pub fn saw_existing(page: &Vec<Torrent>, max_nyaa_id: i64) -> (r: bool)
    ensures
        r == page_is_known(page@, max_nyaa_id),
{
    let mut k: usize = 0;
    while k < page.len()
        invariant
            k <= page.len(),
            forall|i: int| 0 <= i < k ==> !is_known(#[trigger] page@[i].nyaa_id, max_nyaa_id),
        decreases page.len() - k,
    {
        if max_nyaa_id >= i64::MIN + OVERLAP && page[k].nyaa_id <= max_nyaa_id - OVERLAP {
            return true;
        }
        k += 1;
    }
    false
}

/// The page to read after page `page_no`: the next one, unless the page
/// reached what the store has or was the last that a scrape reads.
pub fn next_page(page_no: u32, saw_existing: bool) -> (r: Option<u32>)
    ensures
        r == if saw_existing || page_no >= MAX_PAGES {
            None
        } else {
            Some((page_no + 1) as u32)
        },
{
    if saw_existing || page_no >= MAX_PAGES {
        None
    } else {
        Some(page_no + 1)
    }
}

/// The torrents stand in the order of their numbers in the listing.
pub open spec fn in_order(torrents: Seq<Torrent>) -> bool {
    forall|i: int, j: int|
        0 <= i < j < torrents.len() ==> (#[trigger] torrents[i]).nyaa_id <= (
        #[trigger] torrents[j]).nyaa_id
}

/// `<[T]>::sort_by_key` with the number in the listing as the key: the
/// same torrents, in the order of their numbers.
#[verifier::external_body]
fn sort_by_nyaa_id(torrents: &mut Vec<Torrent>)
    ensures
        in_order(final(torrents)@),
        final(torrents)@.to_multiset() == old(torrents)@.to_multiset(),
{
    torrents.sort_by_key(|t| t.nyaa_id)
}

/// Puts the torrents of a scrape into the order in which they enter the
/// store: by their numbers in the listing, the lowest first.
pub fn order_for_insert(torrents: &mut Vec<Torrent>)
    ensures
        in_order(final(torrents)@),
        final(torrents)@.to_multiset() == old(torrents)@.to_multiset(),
        final(torrents)@.len() == old(torrents)@.len(),
{
    sort_by_nyaa_id(torrents);
    proof {
        old(torrents)@.to_multiset_ensures();
        torrents@.to_multiset_ensures();
    }
}

/// Why a row of the listing cannot be read.
#[derive(Copy, Clone, Debug, PartialEq, Eq, Structural)]
pub enum RowError {
    /// The link of the title has no address.
    NoHref,
    /// The magnet link has no address.
    NoMagnetHref,
    /// The field of the time does not tell the time.
    NoTimestamp,
    /// The link of the title does not start with "/view/".
    NoViewLink,
    /// The number after "/view/" is no number of 64 bits.
    NyaaIdOutOfBounds,
    /// The magnet link is no address.
    InvalidMagnetLink,
    /// The magnet link has no parameter "xt".
    NoTopic,
    /// The topic does not start with "urn:btih:".
    NoBittorrentTopic,
    /// What follows "urn:btih:" is not written in hexadecimal digits.
    HashNotHex,
    /// The size has no space before its unit.
    MissingUnit,
    /// The size does not start with a decimal number.
    InvalidNumber,
    /// The unit of the size is not known.
    InvalidUnit,
    /// The size in bytes does not fit 64 bits.
    SizeOutOfBounds,
    /// The time is no number of seconds.
    InvalidTimestamp,
}

/// The number that a text writes: decimal digits that fit 64 bits with a
/// sign, with or without a plus or minus sign before them.
pub open spec fn signed_number(s: Seq<u8>) -> Option<int> {
    if s.len() > 0 && s[0] == 0x2d {
        match decimal_in(s.subrange(1, s.len() as int), 0x8000_0000_0000_0000) {
            Some(n) => Some(-(n as int)),
            None => None,
        }
    } else if s.len() > 0 && s[0] == 0x2b {
        match decimal_in(s.subrange(1, s.len() as int), 0x7fff_ffff_ffff_ffff) {
            Some(n) => Some(n as int),
            None => None,
        }
    } else {
        match decimal_in(s, 0x7fff_ffff_ffff_ffff) {
            Some(n) => Some(n as int),
            None => None,
        }
    }
}

/// Reads a number of 64 bits with a sign.
pub fn parse_signed(s: &[u8]) -> (r: Option<i64>)
    ensures
        match signed_number(s@) {
            Some(n) => r == Some(n as i64) && i64::MIN <= n <= i64::MAX,
            None => r is None,
        },
{
    if s.len() > 0 && s[0] == 0x2d {
        match parse_decimal(slice_subrange(s, 1, s.len()), 0x8000_0000_0000_0000) {
            Some(n) => {
                if n == 0x8000_0000_0000_0000 {
                    Some(i64::MIN)
                } else {
                    Some(-(n as i64))
                }
            },
            None => None,
        }
    } else if s.len() > 0 && s[0] == 0x2b {
        match parse_decimal(slice_subrange(s, 1, s.len()), 0x7fff_ffff_ffff_ffff) {
            Some(n) => Some(n as i64),
            None => None,
        }
    } else {
        match parse_decimal(s, 0x7fff_ffff_ffff_ffff) {
            Some(n) => Some(n as i64),
            None => None,
        }
    }
}

/// The text starts with the other.
pub open spec fn starts_with(s: Seq<u8>, prefix: Seq<u8>) -> bool {
    prefix.is_prefix_of(s)
}

fn has_prefix(s: &[u8], prefix: &[u8]) -> (r: bool)
    ensures
        r == starts_with(s@, prefix@),
{
    if prefix.len() > s.len() {
        return false;
    }
    bytes_eq(slice_subrange(s, 0, prefix.len()), prefix)
}

/// The number of a torrent in the listing, read from the link of its
/// title: what follows "/view/".
pub open spec fn view_id(href: Seq<u8>) -> Result<i64, RowError> {
    let prefix = encode_utf8("/view/"@);
    if !starts_with(href, prefix) {
        Err(RowError::NoViewLink)
    } else {
        match signed_number(href.subrange(prefix.len() as int, href.len() as int)) {
            Some(n) => Ok(n as i64),
            None => Err(RowError::NyaaIdOutOfBounds),
        }
    }
}

/// Reads the number of a torrent in the listing from the link of its title.
pub fn parse_view_id(href: &str) -> (r: Result<i64, RowError>)
    ensures
        r == view_id(href.spec_bytes()),
{
    let b = href.as_bytes();
    let prefix = "/view/".as_bytes();
    if !has_prefix(b, prefix) {
        return Err(RowError::NoViewLink);
    }
    match parse_signed(slice_subrange(b, prefix.len(), b.len())) {
        Some(n) => Ok(n),
        None => Err(RowError::NyaaIdOutOfBounds),
    }
}

/// The value of a hexadecimal digit, small or capital.
pub open spec fn hex_digit(b: u8) -> Option<u8> {
    if 0x30 <= b && b <= 0x39 {
        Some((b - 0x30) as u8)
    } else if 0x61 <= b && b <= 0x66 {
        Some((b - 0x61 + 10) as u8)
    } else if 0x41 <= b && b <= 0x46 {
        Some((b - 0x41 + 10) as u8)
    } else {
        None
    }
}

/// The bytes that a text writes in hexadecimal digits, two for each byte.
pub open spec fn hex_bytes(s: Seq<u8>) -> Option<Seq<u8>> {
    if s.len() % 2 == 0 && forall|i: int| 0 <= i < s.len() ==> hex_digit(#[trigger] s[i]) is Some {
        Some(
            Seq::new(
                s.len() / 2,
                |i: int| (hex_digit(s[2 * i]).unwrap() * 16 + hex_digit(s[2 * i + 1]).unwrap()) as u8,
            ),
        )
    } else {
        None
    }
}

/// The bytes, where there are any.
pub open spec fn bytes_view(r: Option<Vec<u8>>) -> Option<Seq<u8>> {
    match r {
        Some(v) => Some(v@),
        None => None,
    }
}

/// `hex::decode`: the bytes that the text writes in hexadecimal digits,
/// small or capital; none where the digits are odd in number or one of them
/// is no hexadecimal digit.
#[verifier::external_body]
fn hex_decode(s: &[u8]) -> (r: Option<Vec<u8>>)
    ensures
        bytes_view(r) == hex_bytes(s@),
{
    hex::decode(s).ok()
}

/// One parameter of an address: its name and its value.
pub struct QueryPair {
    pub name: String,
    pub value: String,
}

/// The parameters of an address, as `url` reads them; none where the text
/// is no address.
pub uninterp spec fn query_pairs_of(link: Seq<char>) -> Option<Seq<(Seq<char>, Seq<char>)>>;

/// The parameters, their names and values as characters.
pub open spec fn pairs_view(r: Option<Vec<QueryPair>>) -> Option<Seq<(Seq<char>, Seq<char>)>> {
    match r {
        Some(v) => Some(Seq::new(v@.len(), |i: int| (v@[i].name@, v@[i].value@))),
        None => None,
    }
}

/// `url::Url::parse`, then `Url::query_pairs`: the parameters of the
/// address in their order, names and values decoded.
#[verifier::external_body]
fn query_pairs(link: &str) -> (r: Option<Vec<QueryPair>>)
    ensures
        pairs_view(r) == query_pairs_of(link@),
{
    let url = url::Url::parse(link).ok()?;
    Some(
        url.query_pairs().map(
            |e| QueryPair { name: e.0.into_owned(), value: e.1.into_owned() },
        ).collect(),
    )
}

/// The value of the first parameter "xt".
pub open spec fn topic_of(pairs: Seq<(Seq<char>, Seq<char>)>) -> Option<Seq<char>>
    decreases pairs.len(),
{
    if pairs.len() == 0 {
        None
    } else if pairs[0].0 == "xt"@ {
        Some(pairs[0].1)
    } else {
        topic_of(pairs.drop_first())
    }
}

/// The hash of a torrent, read from the parameters of its magnet link: the
/// topic "xt" without its "urn:btih:", in hexadecimal digits.
pub open spec fn hash_of(pairs: Option<Seq<(Seq<char>, Seq<char>)>>) -> Result<Seq<u8>, RowError> {
    match pairs {
        None => Err(RowError::InvalidMagnetLink),
        Some(p) => match topic_of(p) {
            None => Err(RowError::NoTopic),
            Some(topic) => {
                let t = encode_utf8(topic);
                let prefix = encode_utf8("urn:btih:"@);
                if !starts_with(t, prefix) {
                    Err(RowError::NoBittorrentTopic)
                } else {
                    match hex_bytes(t.subrange(prefix.len() as int, t.len() as int)) {
                        Some(h) => Ok(h),
                        None => Err(RowError::HashNotHex),
                    }
                }
            },
        },
    }
}

proof fn lemma_topic_of(pairs: Seq<(Seq<char>, Seq<char>)>, k: int)
    requires
        0 <= k <= pairs.len(),
        forall|j: int| 0 <= j < k ==> pairs[j].0 != "xt"@,
        k == pairs.len() || pairs[k].0 == "xt"@,
    ensures
        topic_of(pairs) == if k < pairs.len() {
            Some(pairs[k].1)
        } else {
            None::<Seq<char>>
        },
    decreases pairs.len(),
{
    if pairs.len() > 0 && k > 0 {
        let rest = pairs.drop_first();
        assert forall|j: int| 0 <= j < k - 1 implies rest[j].0 != "xt"@ by {
            assert(rest[j] == pairs[j + 1]);
        }
        lemma_topic_of(rest, k - 1);
    }
}

/// Reads the hash of a torrent from the parameters of its magnet link.
pub fn hash_of_pairs(found: &Option<Vec<QueryPair>>) -> (r: Result<Vec<u8>, RowError>)
    ensures
        hash_of(pairs_view(*found)) matches Ok(h) ==> (r matches Ok(v) && v@ == h),
        hash_of(pairs_view(*found)) matches Err(e) ==> r == Err::<Vec<u8>, RowError>(e),
{
    let pairs = match found {
        Some(p) => p,
        None => {
            return Err(RowError::InvalidMagnetLink);
        },
    };
    let ghost view = Seq::new(pairs@.len(), |i: int| (pairs@[i].name@, pairs@[i].value@));
    let mut k: usize = 0;
    while k < pairs.len()
        invariant
            k <= pairs.len(),
            pairs_view(*found) == Some(view),
            view == Seq::new(pairs@.len(), |i: int| (pairs@[i].name@, pairs@[i].value@)),
            forall|j: int| 0 <= j < k ==> view[j].0 != "xt"@,
        decreases pairs.len() - k,
    {
        if str_eq(pairs[k].name.as_str(), "xt") {
            let topic = pairs[k].value.as_str();
            let t = topic.as_bytes();
            let prefix = "urn:btih:".as_bytes();
            proof {
                lemma_topic_of(view, k as int);
                assert(view[k as int].1 == pairs@[k as int].value@);
                assert(topic_of(view) == Some(topic@));
                assert(t@ == encode_utf8(topic@));
            }
            if !has_prefix(t, prefix) {
                return Err(RowError::NoBittorrentTopic);
            }
            let digits = slice_subrange(t, prefix.len(), t.len());
            return match hex_decode(digits) {
                Some(h) => Ok(h),
                None => Err(RowError::HashNotHex),
            };
        }
        k += 1;
    }
    proof {
        lemma_topic_of(view, k as int);
    }
    Err(RowError::NoTopic)
}

/// Reads the hash of a torrent from its magnet link.
pub fn magnet_hash(link: &str) -> (r: Result<Vec<u8>, RowError>)
    ensures
        hash_of(query_pairs_of(link@)) matches Ok(h) ==> (r matches Ok(v) && v@ == h),
        hash_of(query_pairs_of(link@)) matches Err(e) ==> r == Err::<Vec<u8>, RowError>(e),
{
    let pairs = query_pairs(link);
    hash_of_pairs(&pairs)
}

/// The number of bytes that a unit of size stands for.
pub open spec fn unit_bytes(unit: Seq<u8>) -> Option<i64> {
    if unit.len() == 0 || unit == encode_utf8("b"@) {
        Some(1i64)
    } else if unit == encode_utf8("ki"@) || unit == encode_utf8("kib"@) {
        Some(1024i64)
    } else if unit == encode_utf8("mi"@) || unit == encode_utf8("mib"@) {
        Some(1048576i64)
    } else if unit == encode_utf8("gi"@) || unit == encode_utf8("gib"@) {
        Some(1073741824i64)
    } else if unit == encode_utf8("ti"@) || unit == encode_utf8("tib"@) {
        Some(1099511627776i64)
    } else if unit == encode_utf8("k"@) || unit == encode_utf8("kb"@) {
        Some(1000i64)
    } else if unit == encode_utf8("m"@) || unit == encode_utf8("mb"@) {
        Some(1000000i64)
    } else if unit == encode_utf8("g"@) || unit == encode_utf8("gb"@) {
        Some(1000000000i64)
    } else if unit == encode_utf8("t"@) || unit == encode_utf8("tb"@) {
        Some(1000000000000i64)
    } else {
        None
    }
}

fn unit_multiplier(unit: &[u8]) -> (r: Option<i64>)
    ensures
        r == unit_bytes(unit@),
{
    if unit.len() == 0 || bytes_eq(unit, "b".as_bytes()) {
        Some(1)
    } else if bytes_eq(unit, "ki".as_bytes()) || bytes_eq(unit, "kib".as_bytes()) {
        Some(1024)
    } else if bytes_eq(unit, "mi".as_bytes()) || bytes_eq(unit, "mib".as_bytes()) {
        Some(1048576)
    } else if bytes_eq(unit, "gi".as_bytes()) || bytes_eq(unit, "gib".as_bytes()) {
        Some(1073741824)
    } else if bytes_eq(unit, "ti".as_bytes()) || bytes_eq(unit, "tib".as_bytes()) {
        Some(1099511627776)
    } else if bytes_eq(unit, "k".as_bytes()) || bytes_eq(unit, "kb".as_bytes()) {
        Some(1000)
    } else if bytes_eq(unit, "m".as_bytes()) || bytes_eq(unit, "mb".as_bytes()) {
        Some(1000000)
    } else if bytes_eq(unit, "g".as_bytes()) || bytes_eq(unit, "gb".as_bytes()) {
        Some(1000000000)
    } else if bytes_eq(unit, "t".as_bytes()) || bytes_eq(unit, "tb".as_bytes()) {
        Some(1000000000000)
    } else {
        None
    }
}

/// The text without the white space at its ends, as `str::trim` cuts it.
pub uninterp spec fn trimmed(s: Seq<char>) -> Seq<char>;

/// A space, a tab, a line feed or a carriage return: four of the
/// characters that are white space.
pub open spec fn blank(c: char) -> bool {
    c == ' ' || c == '\t' || c == '\n' || c == '\r'
}

/// The text is a part of `s` in one piece, with no blank at either end.
pub open spec fn cut_from(r: Seq<char>, s: Seq<char>) -> bool {
    &&& exists|i: int, j: int| 0 <= i <= j <= s.len() && r == #[trigger] s.subrange(i, j)
    &&& r.len() > 0 ==> !blank(r[0]) && !blank(r.last())
}

/// `str::trim`: the text without leading and trailing white space. The
/// contract names the result and states of it that it is one piece of the
/// text and neither starts nor ends with a blank.
#[verifier::external_body]
fn trim(s: &str) -> (r: &str)
    ensures
        r@ == trimmed(s@),
        cut_from(r@, s@),
{
    s.trim()
}

/// The whole bytes of a decimal number times a number of bytes, as
/// `rust_decimal` reads and multiplies: nothing where the text is no
/// decimal number; no bytes where the product does not fit 64 bits.
pub uninterp spec fn scaled(number: Seq<char>, multiplier: i64) -> Option<Option<i64>>;

/// `Decimal::from_str`, then `Decimal::checked_mul` with the multiplier,
/// then `ToPrimitive::to_i64`.
#[verifier::external_body]
fn scale(number: &str, multiplier: i64) -> (r: Option<Option<i64>>)
    ensures
        r == scaled(number@, multiplier),
{
    let d = match number.parse::<Decimal>() {
        Ok(d) => d,
        Err(_) => return None,
    };
    match d.checked_mul(Decimal::from(multiplier)) {
        Some(p) => Some(p.to_i64()),
        None => Some(None),
    }
}

/// The size that the parts of a size text give: `number` is the text before
/// the first space, `unit` the text from it on, both without white space at
/// their ends.
pub open spec fn size_of(number: Seq<char>, unit: Seq<char>) -> Result<i64, RowError> {
    match unit_bytes(lowered(encode_utf8(unit))) {
        None => if scaled(number, 1) is None {
            Err(RowError::InvalidNumber)
        } else {
            Err(RowError::InvalidUnit)
        },
        Some(m) => match scaled(number, m) {
            None => Err(RowError::InvalidNumber),
            Some(None) => Err(RowError::SizeOutOfBounds),
            Some(Some(n)) => Ok(n),
        },
    }
}

/// Works out a size from what `rust_decimal` makes of its number: times
/// the bytes of its unit where the unit is known, and as it is where not.
pub fn size_of_product(
    multiplier: Option<i64>,
    product: Option<Option<i64>>,
    alone: Option<Option<i64>>,
) -> (r: Result<i64, RowError>)
    ensures
        r == match multiplier {
            None => if alone is None {
                Err::<i64, RowError>(RowError::InvalidNumber)
            } else {
                Err(RowError::InvalidUnit)
            },
            Some(m) => match product {
                None => Err(RowError::InvalidNumber),
                Some(None) => Err(RowError::SizeOutOfBounds),
                Some(Some(n)) => Ok(n),
            },
        },
{
    match multiplier {
        None => if alone.is_none() {
            Err(RowError::InvalidNumber)
        } else {
            Err(RowError::InvalidUnit)
        },
        Some(_) => match product {
            None => Err(RowError::InvalidNumber),
            Some(None) => Err(RowError::SizeOutOfBounds),
            Some(Some(n)) => Ok(n),
        },
    }
}

/// The size in bytes that a text like "1.5 GiB" names: a decimal number, a
/// space, and a unit, the unit in small or capital letters.
pub open spec fn size_in(s: Seq<char>) -> Result<i64, RowError> {
    let b = encode_utf8(s);
    let p = first_index(b, 0x20);
    if p >= b.len() {
        Err(RowError::MissingUnit)
    } else {
        size_of(
            trimmed(vstd::utf8::decode_utf8(b.subrange(0, p))),
            trimmed(vstd::utf8::decode_utf8(b.subrange(p, b.len() as int))),
        )
    }
}

/// Reads a size.
pub fn parse_size(s: &str) -> (r: Result<i64, RowError>)
    ensures
        r == size_in(s@),
{
    let b = s.as_bytes();
    let p = match find_byte(b, 0x20) {
        Some(p) => p,
        None => {
            return Err(RowError::MissingUnit);
        },
    };
    proof {
        vstd::utf8::encode_utf8_valid_utf8(s@);
        assert(vstd::utf8::valid_utf8(b@));
        vstd::utf8::is_char_boundary_iff_is_leading_byte(b@, p as int);
        assert(vstd::utf8::is_leading_byte_width_1(b@[p as int]));
        assert(vstd::utf8::is_char_boundary(b@, p as int));
        vstd::utf8::valid_utf8_split(b@, p as int);
        assert(b@.subrange(p as int, b@.len() as int) =~= b@.subrange(p as int, b@.len() as int));
    }
    let (number, unit) = s.split_at(p);
    proof {
        vstd::utf8::decode_utf8_encode_utf8(b@.subrange(0, p as int));
        vstd::utf8::decode_utf8_encode_utf8(b@.subrange(p as int, b@.len() as int));
        vstd::utf8::encode_utf8_decode_utf8(number@);
        vstd::utf8::encode_utf8_decode_utf8(unit@);
    }
    let number = trim(number);
    let unit = trim(unit);
    let lower = to_lowercase(unit.as_bytes());
    let multiplier = unit_multiplier(lower.as_slice());
    match multiplier {
        Some(m) => size_of_product(multiplier, scale(number, m), None),
        None => size_of_product(multiplier, None, scale(number, 1)),
    }
}

/// The seconds that a text tells: decimal digits, with or without a plus
/// sign before them, that fit 64 bits.
pub open spec fn seconds_of(s: Seq<u8>) -> Option<nat> {
    if s.len() > 0 && s[0] == 0x2b {
        decimal_in(s.subrange(1, s.len() as int), u64::MAX as nat)
    } else {
        decimal_in(s, u64::MAX as nat)
    }
}

fn parse_seconds(s: &[u8]) -> (r: Option<u64>)
    ensures
        seconds_of(s@) matches Some(n) ==> r == Some(n as u64),
        seconds_of(s@) is None ==> r is None,
{
    if s.len() > 0 && s[0] == 0x2b {
        parse_decimal(slice_subrange(s, 1, s.len()), u64::MAX)
    } else {
        parse_decimal(s, u64::MAX)
    }
}

/// What a row of the listing shows of a torrent: the text of its title
/// link and the link's address, the address of its magnet link, its size,
/// the time in its time field, and whether the row is marked as trusted.
pub struct RowFields {
    pub title: String,
    pub href: Option<String>,
    pub magnet: Option<String>,
    pub size: String,
    pub timestamp: Option<String>,
    pub trusted: bool,
}

/// A torrent, its texts as characters and bytes.
pub struct TorrentView {
    pub torrent_id: Option<i64>,
    pub title: Seq<char>,
    pub hash: Seq<u8>,
    pub nyaa_id: i64,
    pub trusted: bool,
    pub size: i64,
    pub timestamp: u64,
}

impl View for Torrent {
    type V = TorrentView;

    open spec fn view(&self) -> TorrentView {
        TorrentView {
            torrent_id: self.torrent_id,
            title: self.title@,
            hash: self.hash@,
            nyaa_id: self.nyaa_id,
            trusted: self.trusted,
            size: self.size,
            timestamp: self.timestamp,
        }
    }
}

/// The torrent that a row of the listing shows: its title in normalization
/// form C, and each field read in the order number, hash, size, time, so
/// that the first field that cannot be read gives the fault.
pub open spec fn torrent_in(f: RowFields) -> Result<TorrentView, RowError> {
    match f.href {
        None => Err(RowError::NoHref),
        Some(href) => match view_id(encode_utf8(href@)) {
            Err(e) => Err(e),
            Ok(nyaa_id) => match f.magnet {
                None => Err(RowError::NoMagnetHref),
                Some(magnet) => match hash_of(query_pairs_of(magnet@)) {
                    Err(e) => Err(e),
                    Ok(hash) => match size_in(f.size@) {
                        Err(e) => Err(e),
                        Ok(size) => match f.timestamp {
                            None => Err(RowError::NoTimestamp),
                            Some(t) => match seconds_of(encode_utf8(t@)) {
                                None => Err(RowError::InvalidTimestamp),
                                Some(timestamp) => Ok(
                                    TorrentView {
                                        torrent_id: None,
                                        title: nfc_of(f.title@),
                                        hash,
                                        nyaa_id,
                                        trusted: f.trusted,
                                        size,
                                        timestamp: timestamp as u64,
                                    },
                                ),
                            },
                        },
                    },
                },
            },
        },
    }
}

/// Reads a row of the listing.
pub fn parse_row(f: &RowFields) -> (r: Result<Torrent, RowError>)
    ensures
        torrent_in(*f) matches Ok(t) ==> (r matches Ok(x) && x@ == t),
        torrent_in(*f) matches Err(e) ==> (r matches Err(x) && x == e),
{
    let title = nfc(f.title.as_str());
    let nyaa_id = match &f.href {
        None => {
            return Err(RowError::NoHref);
        },
        Some(href) => match parse_view_id(href.as_str()) {
            Ok(id) => id,
            Err(e) => {
                return Err(e);
            },
        },
    };
    let hash = match &f.magnet {
        None => {
            return Err(RowError::NoMagnetHref);
        },
        Some(magnet) => match magnet_hash(magnet.as_str()) {
            Ok(h) => h,
            Err(e) => {
                return Err(e);
            },
        },
    };
    let size = match parse_size(f.size.as_str()) {
        Ok(s) => s,
        Err(e) => {
            return Err(e);
        },
    };
    let timestamp = match &f.timestamp {
        None => {
            return Err(RowError::NoTimestamp);
        },
        Some(t) => match parse_seconds(t.as_str().as_bytes()) {
            Some(s) => s,
            None => {
                return Err(RowError::InvalidTimestamp);
            },
        },
    };
    Ok(Torrent { torrent_id: None, title, hash, nyaa_id, trusted: f.trusted, size, timestamp })
}

/// The address of a page of the listing.
pub fn page_url(page_no: u32) -> (r: String)
    ensures
        r@ == LISTING@ + crate::text::ascii_text(crate::text::decimal_bytes(page_no as nat)),
{
    let mut digits: Vec<u8> = Vec::new();
    crate::text::push_decimal(&mut digits, page_no as u64);
    proof {
        crate::text::lemma_decimal_bytes(page_no as nat);
        assert(digits@ =~= crate::text::decimal_bytes(page_no as nat));
    }
    let number = crate::text::ascii_string(digits);
    LISTING.to_owned().concat(number.as_str())
}

} // verus!

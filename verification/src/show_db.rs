//! The catalogue of shows in memory: the shows, their names, and the two
//! indexes over their search keys.

use crate::format::{format_of_code, Format};
use crate::heap::{item_key, item_keyed, key_set, keyed_count, on_the_way, picks, AsciiHeap};
use crate::seqs::{indices, lemma_filter_agree, lemma_filter_push};
use crate::text::lemma_fold_key_fixed;
use crate::pattern::{captures, captures_at, regex_captures_at, captures_view, regex_captures, spans_ok, Captures};
use crate::season::{unpacked, YearSeason};
use crate::small::{SmallFormats, SmallU32s, SmallUsizes};
use crate::strings::{share, StringLists};
use std::sync::Arc;
use crate::text::{
    ascii_string, ascii_text, bytes_eq, decimal_in, fold, fold_key, lemma_fold_key_bytes, lowered,
    parse_decimal, remove_range, to_lowercase, without,
};
use std::collections::HashMap;
use std::ops::Range;
use vstd::hash_map::StringHashMap;
use vstd::prelude::*;
use vstd::utf8::encode_utf8;
use vstd::slice::slice_subrange;
use vstd::string::*;

verus! {

/// A year in brackets.
pub const YEAR: &'static str = r"\((\d{4})\)";

/// A format in brackets.
pub const FORMAT: &'static str = r"\((tv|movie|ova|ona|oad)\)";

/// A season: "2nd season", "season 2", "s2" or "second season", as a word
/// of its own.
pub const SEASON: &'static str = r"(?x)
                    (^|\b)
                    (
                            (?P<season1>\d+)(st|nd|rd|th)\sseason        # 2nd season
                        |   season\s(?P<season2>\d{1,5})                 # season 2
                        |   s(?P<season3>\d+)                            # s2
                        |   (?P<season4>(first|second|third))\sseason    # first season
                    )
                    (\b|$)";

/// The span of group `g`, where the match has such a group and it took part.
pub open spec fn span_of(c: Seq<Option<(usize, usize)>>, g: int) -> Option<(usize, usize)> {
    if 0 <= g < c.len() {
        c[g]
    } else {
        None
    }
}

/// The span of the whole match.
pub open spec fn whole_span(c: Seq<Option<(usize, usize)>>) -> Range<usize> {
    let w = c[0].unwrap();
    Range { start: w.0, end: w.1 }
}

/// The text of group `g`.
pub open spec fn group_text(s: Seq<u8>, c: Seq<Option<(usize, usize)>>, g: int) -> Option<
    Seq<u8>,
> {
    match span_of(c, g) {
        Some(sp) => Some(s.subrange(sp.0 as int, sp.1 as int)),
        None => None,
    }
}

/// The number that group `g` writes in ASCII digits, where it fits 32 bits.
pub open spec fn group_number(s: Seq<u8>, c: Seq<Option<(usize, usize)>>, g: int) -> Option<u32> {
    match group_text(s, c, g) {
        Some(t) => match decimal_in(t, u32::MAX as nat) {
            Some(n) => Some(n as u32),
            None => None,
        },
        None => None,
    }
}

/// The year of a match of `YEAR` in `s`, with the span of the whole match:
/// the four digits, where they are ASCII digits.
pub open spec fn year_in(s: Seq<u8>, caps: Option<Seq<Option<(usize, usize)>>>) -> Option<
    (Range<usize>, u32),
> {
    match caps {
        Some(c) if spans_ok(c, s.len()) => match group_number(s, c, 1) {
            Some(n) => Some((whole_span(c), n)),
            None => None,
        },
        _ => None,
    }
}

/// The format that a word in brackets names.
pub open spec fn format_of_word(w: Seq<u8>) -> Option<Format> {
    if w == encode_utf8("tv"@) {
        Some(Format::Tv)
    } else if w == encode_utf8("movie"@) {
        Some(Format::Movie)
    } else if w == encode_utf8("ova"@) || w == encode_utf8("oad"@) {
        Some(Format::Ova)
    } else if w == encode_utf8("ona"@) {
        Some(Format::Ona)
    } else {
        None
    }
}

/// The number that a word names: first, second or third.
pub open spec fn ordinal_of_word(w: Seq<u8>) -> Option<u32> {
    if w == encode_utf8("first"@) {
        Some(1u32)
    } else if w == encode_utf8("second"@) {
        Some(2u32)
    } else if w == encode_utf8("third"@) {
        Some(3u32)
    } else {
        None
    }
}

/// The format of a match of `FORMAT` in `s`, with the span of the whole
/// match.
pub open spec fn format_in(s: Seq<u8>, caps: Option<Seq<Option<(usize, usize)>>>) -> Option<
    (Range<usize>, Format),
> {
    match caps {
        Some(c) if spans_ok(c, s.len()) => match group_text(s, c, 1) {
            Some(w) => match format_of_word(w) {
                Some(f) => Some((whole_span(c), f)),
                None => None,
            },
            None => None,
        },
        _ => None,
    }
}

/// Tells whether the spans of a match lie inside a text of `len` bytes.
pub fn check_spans(c: &Captures, len: usize) -> (r: bool)
    ensures
        r == spans_ok(c@, len as nat),
{
    if c.len() == 0 || c[0].is_none() {
        return false;
    }
    let mut i: usize = 0;
    while i < c.len()
        invariant
            i <= c.len(),
            forall|j: int|
                0 <= j < i ==> ((#[trigger] c@[j]) matches Some(sp) ==> sp.0 <= sp.1 <= len),
        decreases c.len() - i,
    {
        match c[i] {
            Some(sp) => {
                if !(sp.0 <= sp.1 && sp.1 <= len) {
                    return false;
                }
            },
            None => {},
        }
        i += 1;
    }
    true
}

/// The bytes of group `g` of a match in `s`.
pub fn group<'a>(s: &'a [u8], c: &Captures, g: usize) -> (r: Option<&'a [u8]>)
    requires
        spans_ok(c@, s@.len()),
    ensures
        match group_text(s@, c@, g as int) {
            Some(t) => r matches Some(x) && x@ == t,
            None => r is None,
        },
{
    if g < c.len() {
        match c[g] {
            Some(sp) => Some(slice_subrange(s, sp.0, sp.1)),
            None => None,
        }
    } else {
        None
    }
}

/// The number in group `g` of a match in `s`.
pub fn number(s: &[u8], c: &Captures, g: usize) -> (r: Option<u32>)
    requires
        spans_ok(c@, s@.len()),
    ensures
        r == group_number(s@, c@, g as int),
{
    match group(s, c, g) {
        Some(t) => match parse_decimal(t, u32::MAX as u64) {
            Some(n) => Some(n as u32),
            None => None,
        },
        None => None,
    }
}

/// Reads the year out of a match of `YEAR` in `s`.
pub fn year_of_match(s: &[u8], caps: &Option<Captures>) -> (r: Option<(Range<usize>, u32)>)
    ensures
        r == year_in(s@, captures_view(*caps)),
{
    match caps {
        Some(c) => {
            if !check_spans(c, s.len()) {
                return None;
            }
            match number(s, c, 1) {
                Some(n) => {
                    let whole = c[0].unwrap();
                    Some((whole.0..whole.1, n))
                },
                None => None,
            }
        },
        None => None,
    }
}

/// Finds the first year in brackets.
pub fn find_year(s: &[u8]) -> (r: Option<(Range<usize>, u32)>)
    ensures
        r == year_in(s@, regex_captures(YEAR@, s@)),
        r matches Some(f) ==> f.0.start <= f.0.end <= s@.len(),
{
    let caps = captures(YEAR, s);
    year_of_match(s, &caps)
}


fn word_format(w: &[u8]) -> (r: Option<Format>)
    ensures
        r == format_of_word(w@),
{
    if bytes_eq(w, "tv".as_bytes()) {
        Some(Format::Tv)
    } else if bytes_eq(w, "movie".as_bytes()) {
        Some(Format::Movie)
    } else if bytes_eq(w, "ova".as_bytes()) || bytes_eq(w, "oad".as_bytes()) {
        Some(Format::Ova)
    } else if bytes_eq(w, "ona".as_bytes()) {
        Some(Format::Ona)
    } else {
        None
    }
}

fn word_ordinal(w: &[u8]) -> (r: Option<u32>)
    ensures
        r == ordinal_of_word(w@),
{
    if bytes_eq(w, "first".as_bytes()) {
        Some(1)
    } else if bytes_eq(w, "second".as_bytes()) {
        Some(2)
    } else if bytes_eq(w, "third".as_bytes()) {
        Some(3)
    } else {
        None
    }
}

/// Reads the format out of a match of `FORMAT` in `s`.
pub fn format_of_match(s: &[u8], caps: &Option<Captures>) -> (r: Option<(Range<usize>, Format)>)
    ensures
        r == format_in(s@, captures_view(*caps)),
{
    match caps {
        Some(c) => {
            if !check_spans(c, s.len()) {
                return None;
            }
            match group(s, c, 1) {
                Some(w) => match word_format(w) {
                    Some(f) => {
                        let whole = c[0].unwrap();
                        Some((whole.0..whole.1, f))
                    },
                    None => None,
                },
                None => None,
            }
        },
        None => None,
    }
}

/// Finds the first format in brackets.
pub fn find_format(s: &[u8]) -> (r: Option<(Range<usize>, Format)>)
    ensures
        r == format_in(s@, regex_captures(FORMAT@, s@)),
        r matches Some(f) ==> f.0.start <= f.0.end <= s@.len(),
{
    let caps = captures(FORMAT, s);
    format_of_match(s, &caps)
}

/// The number of the season that a match of `SEASON` names: the digits of
/// "2nd season", "season 2" or "s2", or the word of "second season".
pub open spec fn season_number(t: Seq<u8>, c: Seq<Option<(usize, usize)>>) -> Option<u32> {
    if span_of(c, 3) is Some {
        group_number(t, c, 3)
    } else if span_of(c, 5) is Some {
        group_number(t, c, 5)
    } else if span_of(c, 6) is Some {
        group_number(t, c, 6)
    } else {
        match group_text(t, c, 7) {
            Some(w) => ordinal_of_word(w),
            None => None,
        }
    }
}

/// The season of a match of `SEASON` in the text, with the span of the
/// whole match.
pub open spec fn season_in(s: Seq<u8>, c: Seq<Option<(usize, usize)>>) -> Option<
    (Range<usize>, u32),
> {
    if spans_ok(c, s.len()) {
        match season_number(s, c) {
            Some(n) => Some((whole_span(c), n)),
            None => None,
        }
    } else {
        None
    }
}

/// Reads the season out of a match of `SEASON` in the text.
pub fn season_of_match(s: &[u8], c: &Captures) -> (r: Option<(Range<usize>, u32)>)
    ensures
        r == season_in(s@, c@),
        r matches Some(f) ==> f.0.start <= f.0.end <= s@.len(),
{
    if !check_spans(c, s.len()) {
        return None;
    }
    let n = if c.len() > 3 && c[3].is_some() {
        number(s, c, 3)
    } else if c.len() > 5 && c[5].is_some() {
        number(s, c, 5)
    } else if c.len() > 6 && c[6].is_some() {
        number(s, c, 6)
    } else {
        match group(s, c, 7) {
            Some(w) => word_ordinal(w),
            None => None,
        }
    };
    match n {
        Some(n) => {
            let whole = c[0].unwrap();
            Some((whole.0..whole.1, n))
        },
        None => None,
    }
}

/// Where the search goes on after a match that was looked for from `from`
/// on: at the end of the match, so that no two matches overlap, and one byte
/// further where that would be no step ahead.
pub open spec fn search_after(from: int, c: Seq<Option<(usize, usize)>>) -> int {
    let end = whole_span(c).end as int;
    if end > from {
        end
    } else {
        from + 1
    }
}

/// The last of the matches of `SEASON` that follow one another in the text
/// from `from` on, each looked for in the whole text from where the one
/// before it ends; `found` where there is none.
pub open spec fn last_season(
    s: Seq<u8>,
    from: int,
    found: Option<Seq<Option<(usize, usize)>>>,
) -> Option<Seq<Option<(usize, usize)>>>
    decreases s.len() + 1 - from,
{
    if 0 <= from <= s.len() && from <= usize::MAX {
        let here = regex_captures_at(SEASON@, s, from as usize);
        if here is Some && spans_ok(here.unwrap(), s.len()) {
            last_season(s, search_after(from, here.unwrap()), here)
        } else {
            found
        }
    } else {
        found
    }
}

/// The last season that the text names, with its span: that of the last of
/// the matches of `SEASON` that do not overlap.
pub open spec fn season_of(s: Seq<u8>) -> Option<(Range<usize>, u32)> {
    match last_season(s, 0, None) {
        Some(c) => season_in(s, c),
        None => None,
    }
}

/// Finds the last season that the text names.
pub fn find_season(s: &[u8]) -> (r: Option<(Range<usize>, u32)>)
    ensures
        r == season_of(s@),
        r matches Some(f) ==> f.0.start <= f.0.end <= s@.len(),
{
    let mut found: Option<Captures> = None;
    let mut from: usize = 0;
    loop
        invariant
            from <= s.len(),
            last_season(s@, 0, None) == last_season(s@, from as int, captures_view(found)),
        ensures
            last_season(s@, 0, None) == captures_view(found),
        decreases s.len() - from,
    {
        match captures_at(SEASON, s, from) {
            Some(c) => {
                let end = c[0].unwrap().1;
                let ghost after = search_after(from as int, c@);
                found = Some(c);
                if end > from {
                    from = end;
                } else if from < s.len() {
                    from = from + 1;
                } else {
                    assert(last_season(s@, after, captures_view(found)) == captures_view(found));
                    break;
                }
            },
            None => {
                break;
            },
        }
    }
    match found {
        Some(c) => season_of_match(s, &c),
        None => None,
    }
}

/// The search key of a text.
pub fn search_name(s: &str) -> (r: String)
    ensures
        encode_utf8(r@) == fold_key(s.spec_bytes()),
        r@ == ascii_text(fold_key(s.spec_bytes())),
{
    let key = fold(s.as_bytes());
    proof {
        lemma_fold_key_bytes(s.spec_bytes());
        assert forall|i: int| 0 <= i < key@.len() implies (#[trigger] key@[i]) < 0x80 by {
            assert(crate::text::is_key_byte(key@[i]));
        }
    }
    ascii_string(key)
}


/// A show of the catalogue. `names` is the number of its list of names.
pub struct Show {
    pub show_id: i64,
    pub names: usize,
    pub seasons: SmallU32s,
    pub years: SmallU32s,
    pub formats: SmallFormats,
}

/// A show, its lists as sequences.
pub struct ShowView {
    pub show_id: i64,
    pub names: usize,
    pub seasons: Seq<u32>,
    pub years: Seq<u32>,
    pub formats: Seq<Format>,
}

impl View for Show {
    type V = ShowView;

    open spec fn view(&self) -> ShowView {
        ShowView {
            show_id: self.show_id,
            names: self.names,
            seasons: self.seasons@,
            years: self.years@,
            formats: self.formats@,
        }
    }
}

/// A show as the store keeps it.
pub struct ShowRow {
    pub show_id: i64,
    pub show_format: i32,
    pub season: Option<i32>,
}

/// A name of a show as the store keeps it.
pub struct NameRow {
    pub show_id: i64,
    pub name: String,
}

/// Why the catalogue cannot be built from what the store holds.
#[derive(Copy, Clone, Debug, PartialEq, Eq, Structural)]
pub enum DbError {
    /// The show in this row has a format number that names no format.
    InvalidFormat { row: usize },
    /// The show in this row has a season number that names no season.
    InvalidSeason { row: usize },
    /// The name in this row belongs to a show that is not there.
    UnknownShow { row: usize },
    /// The names need more nodes or payloads than the index can count.
    TooLarge,
}

/// The list with `x` at its end, where it does not hold `x` yet.
pub open spec fn with_new<X>(s: Seq<X>, x: Option<X>) -> Seq<X> {
    match x {
        Some(x) if !s.contains(x) => s.push(x),
        _ => s,
    }
}

/// The text without the span that was found in it.
pub open spec fn stripped<X>(s: Seq<u8>, found: Option<(Range<usize>, X)>) -> Seq<u8> {
    match found {
        Some(f) => without(s, f.0.start as int, f.0.end as int),
        None => s,
    }
}

/// What was found, without its span.
pub open spec fn value_of<X>(found: Option<(Range<usize>, X)>) -> Option<X> {
    match found {
        Some(f) => Some(f.1),
        None => None,
    }
}

/// What a name tells: the name in lower case without its first year, then
/// without its first format, then without its last season, and these three.
pub open spec fn name_parts(name: Seq<u8>) -> (Seq<u8>, Option<u32>, Option<Format>, Option<u32>) {
    let l0 = lowered(name);
    let year = year_in(l0, regex_captures(YEAR@, l0));
    let l1 = stripped(l0, year);
    let format = format_in(l1, regex_captures(FORMAT@, l1));
    let l2 = stripped(l1, format);
    let season = season_of(l2);
    let l3 = stripped(l2, season);
    (l3, value_of(year), value_of(format), value_of(season))
}

/// The search key of a name of a show.
pub open spec fn name_key(name: Seq<u8>) -> Seq<u8> {
    fold_key(name_parts(name).0)
}

/// The show after one of its names was read: with the year, the format and
/// the season of the name, each where the show did not have it yet.
pub open spec fn absorbed(show: ShowView, name: Seq<u8>) -> ShowView {
    let parts = name_parts(name);
    ShowView {
        years: with_new(show.years, parts.1),
        formats: with_new(show.formats, parts.2),
        seasons: with_new(show.seasons, parts.3),
        ..show
    }
}

fn holds_number(s: &[u32], x: u32) -> (r: bool)
    ensures
        r == s@.contains(x),
{
    let mut k: usize = 0;
    while k < s.len()
        invariant
            k <= s.len(),
            forall|j: int| 0 <= j < k ==> s@[j] != x,
        decreases s.len() - k,
    {
        if s[k] == x {
            return true;
        }
        k += 1;
    }
    false
}

fn holds_format(s: &[Format], x: Format) -> (r: bool)
    ensures
        r == s@.contains(x),
{
    let mut k: usize = 0;
    while k < s.len()
        invariant
            k <= s.len(),
            forall|j: int| 0 <= j < k ==> s@[j] != x,
        decreases s.len() - k,
    {
        if s[k] == x {
            return true;
        }
        k += 1;
    }
    false
}

/// Reads one name of a show: notes its year, format and season with the
/// show and returns its search key.
pub fn absorb_name(show: &mut Show, name: &[u8]) -> (key: Vec<u8>)
    ensures
        final(show)@ == absorbed(old(show)@, name@),
        key@ == name_key(name@),
{
    let mut text = to_lowercase(name);
    match find_year(text.as_slice()) {
        Some(f) => {
            if !holds_number(show.years.as_slice(), f.1) {
                show.years.push(f.1);
            }
            remove_range(&mut text, f.0.start, f.0.end);
        },
        None => {},
    }
    match find_format(text.as_slice()) {
        Some(f) => {
            if !holds_format(show.formats.as_slice(), f.1) {
                show.formats.push(f.1);
            }
            remove_range(&mut text, f.0.start, f.0.end);
        },
        None => {},
    }
    match find_season(text.as_slice()) {
        Some(f) => {
            if !holds_number(show.seasons.as_slice(), f.1) {
                show.seasons.push(f.1);
            }
            remove_range(&mut text, f.0.start, f.0.end);
        },
        None => {},
    }
    fold(text.as_slice())
}

/// The show that a row of the store describes.
pub open spec fn row_show(row: ShowRow) -> Option<ShowView> {
    match format_of_code(row.show_format) {
        None => None,
        Some(f) => match row.season {
            None => Some(
                ShowView {
                    show_id: row.show_id,
                    names: 0,
                    seasons: Seq::empty(),
                    years: Seq::empty(),
                    formats: seq![f],
                },
            ),
            Some(s) => match unpacked(s as int) {
                Ok(ys) => Some(
                    ShowView {
                        show_id: row.show_id,
                        names: 0,
                        seasons: Seq::empty(),
                        years: seq![ys.year as u32],
                        formats: seq![f],
                    },
                ),
                Err(_) => None,
            },
        },
    }
}

/// Why a row of the store describes no show.
pub open spec fn row_error(row: ShowRow, at: usize) -> DbError {
    if format_of_code(row.show_format) is None {
        DbError::InvalidFormat { row: at }
    } else {
        DbError::InvalidSeason { row: at }
    }
}

/// Reads one row of the store.
pub fn show_of_row(row: &ShowRow, at: usize) -> (r: Result<Show, DbError>)
    ensures
        match row_show(*row) {
            Some(v) => r matches Ok(show) && show@ == v,
            None => r == Err::<Show, DbError>(row_error(*row, at)),
        },
{
    let format = match Format::from_db(row.show_format) {
        Ok(f) => f,
        Err(_) => {
            return Err(DbError::InvalidFormat { row: at });
        },
    };
    let mut show = Show {
        show_id: row.show_id,
        names: 0,
        seasons: SmallU32s::new(),
        years: SmallU32s::new(),
        formats: SmallFormats::new(),
    };
    show.formats.push(format);
    match row.season {
        Some(s) => match YearSeason::from_db(s) {
            Ok(ys) => {
                show.years.push(ys.year as u32);
            },
            Err(_) => {
                return Err(DbError::InvalidSeason { row: at });
            },
        },
        None => {},
    }
    assert(show@.formats =~= seq![format]);
    assert(show@.seasons =~= Seq::<u32>::empty());
    Ok(show)
}

/// The place of the show with the number `id`: the last row that has it.
pub open spec fn show_index(rows: Seq<ShowRow>, id: i64) -> Option<int>
    decreases rows.len(),
{
    if rows.len() == 0 {
        None
    } else if rows.last().show_id == id {
        Some(rows.len() - 1)
    } else {
        show_index(rows.drop_last(), id)
    }
}

/// The place of a show is the place of a row with its number.
pub proof fn lemma_show_index(rows: Seq<ShowRow>, id: i64)
    ensures
        show_index(rows, id) matches Some(i) ==> 0 <= i < rows.len() && rows[i].show_id == id,
    decreases rows.len(),
{
    if rows.len() > 0 && rows.last().show_id != id {
        lemma_show_index(rows.drop_last(), id);
    }
}


/// Why the rows of the store describe no shows: what is wrong with the
/// first row that is wrong.
pub open spec fn rows_error(rows: Seq<ShowRow>) -> Option<DbError>
    decreases rows.len(),
{
    if rows.len() == 0 {
        None
    } else {
        match rows_error(rows.drop_last()) {
            Some(e) => Some(e),
            None => if row_show(rows.last()) is None {
                Some(row_error(rows.last(), (rows.len() - 1) as usize))
            } else {
                None
            },
        }
    }
}

/// The shows that the rows of the store describe, before their names are
/// read.
pub open spec fn rows_shows(rows: Seq<ShowRow>) -> Seq<ShowView> {
    Seq::new(rows.len(), |i: int| row_show(rows[i]).unwrap())
}

/// The views of the shows.
pub open spec fn show_views(shows: Seq<Show>) -> Seq<ShowView> {
    Seq::new(shows.len(), |i: int| shows[i]@)
}

/// The map leads from the number of every show to its place.
pub open spec fn index_ok(index: Map<i64, usize>, rows: Seq<ShowRow>) -> bool {
    forall|id: i64|
        match #[trigger] show_index(rows, id) {
            Some(i) => index.contains_key(id) && index[id] == i,
            None => !index.contains_key(id),
        }
}

/// Reads the shows of the store.
pub fn load_shows(rows: &Vec<ShowRow>) -> (r: Result<(Vec<Show>, HashMap<i64, usize>), DbError>)
    ensures
        match rows_error(rows@) {
            Some(e) => r == Err::<(Vec<Show>, HashMap<i64, usize>), DbError>(e),
            None => r matches Ok(x) && show_views(x.0@) == rows_shows(rows@) && index_ok(
                x.1@,
                rows@,
            ),
        },
{
    broadcast use vstd::std_specs::hash::group_hash_axioms;

    let mut shows: Vec<Show> = Vec::new();
    let mut index: HashMap<i64, usize> = HashMap::new();
    let mut k: usize = 0;
    assert(rows@.take(0) =~= Seq::<ShowRow>::empty());
    while k < rows.len()
        invariant
            k <= rows.len(),
            rows_error(rows@.take(k as int)) is None,
            shows@.len() == k,
            forall|i: int| 0 <= i < k ==> Some((#[trigger] shows@[i])@) == row_show(rows@[i]),
            index_ok(index@, rows@.take(k as int)),
        decreases rows.len() - k,
    {
        proof {
            assert(rows@.take(k as int + 1).drop_last() =~= rows@.take(k as int));
        }
        let show = match show_of_row(&rows[k], k) {
            Ok(show) => show,
            Err(e) => {
                proof {
                    lemma_rows_error_stays(rows@, k as int + 1);
                }
                return Err(e);
            },
        };
        let ghost before = index@;
        index.insert(rows[k].show_id, k);
        proof {
            assert forall|id: i64|
                match #[trigger] show_index(rows@.take(k as int + 1), id) {
                    Some(i) => index@.contains_key(id) && index@[id] == i,
                    None => !index@.contains_key(id),
                } by {
                if id != rows@[k as int].show_id {
                    assert(show_index(rows@.take(k as int + 1), id) == show_index(
                        rows@.take(k as int),
                        id,
                    ));
                }
            }
        }
        let ghost seen = shows@;
        let ghost added = show@;
        assert(row_show(rows@[k as int]) == Some(added));
        shows.push(show);
        assert forall|i: int| 0 <= i < k + 1 implies Some((#[trigger] shows@[i])@) == row_show(
            rows@[i],
        ) by {
            if i < k {
                assert(shows@[i] == seen[i]);
            }
        }
        k += 1;
    }
    assert(rows@.take(k as int) =~= rows@);
    assert(show_views(shows@) =~= rows_shows(rows@));
    Ok((shows, index))
}

/// An error among the first rows is the error of all rows.
proof fn lemma_rows_error_stays(rows: Seq<ShowRow>, k: int)
    requires
        0 <= k <= rows.len(),
        rows_error(rows.take(k)) is Some,
    ensures
        rows_error(rows) == rows_error(rows.take(k)),
    decreases rows.len() - k,
{
    if k == rows.len() {
        assert(rows.take(k) =~= rows);
    } else {
        assert(rows.take(k + 1).drop_last() =~= rows.take(k));
        lemma_rows_error_stays(rows, k + 1);
    }
}


/// The bytes of the name in a row.
pub open spec fn row_name(row: NameRow) -> Seq<u8> {
    encode_utf8(row.name@)
}

/// The first `k` names begin a new list with name `k`: name `k` is not the
/// first, and belongs to another show than the name before it.
pub open spec fn new_list_at(names: Seq<NameRow>, k: int) -> bool {
    k > 0 && names[k].show_id != names[k - 1].show_id
}

/// The lists of names after the first `k` rows: names that follow each
/// other and belong to one show make one list.
pub open spec fn lists_of(names: Seq<NameRow>, k: int) -> Seq<Seq<Seq<u8>>>
    decreases k,
{
    if k <= 0 {
        seq![Seq::<Seq<u8>>::empty()]
    } else {
        let g = lists_of(names, k - 1);
        let g1 = if new_list_at(names, k - 1) {
            g.push(Seq::<Seq<u8>>::empty())
        } else {
            g
        };
        g1.update(g1.len() - 1, g1.last().push(row_name(names[k - 1])))
    }
}

/// All lists of names: those of the rows and, where there are rows, an
/// empty list after them.
pub open spec fn all_lists(names: Seq<NameRow>) -> Seq<Seq<Seq<u8>>> {
    if names.len() == 0 {
        lists_of(names, 0)
    } else {
        lists_of(names, names.len() as int).push(Seq::<Seq<u8>>::empty())
    }
}

/// The first name row whose show is not among the shows.
pub open spec fn names_error(rows: Seq<ShowRow>, names: Seq<NameRow>) -> Option<DbError>
    decreases names.len(),
{
    if names.len() == 0 {
        None
    } else {
        match names_error(rows, names.drop_last()) {
            Some(e) => Some(e),
            None => if show_index(rows, names.last().show_id) is None {
                Some(DbError::UnknownShow { row: (names.len() - 1) as usize })
            } else {
                None
            },
        }
    }
}

/// The shows after the first `k` names were read: each name is noted with
/// its show, and the show points to the list that the name stands in.
pub open spec fn shows_after(rows: Seq<ShowRow>, names: Seq<NameRow>, k: int) -> Seq<ShowView>
    decreases k,
{
    if k <= 0 {
        rows_shows(rows)
    } else {
        let before = shows_after(rows, names, k - 1);
        match show_index(rows, names[k - 1].show_id) {
            Some(i) => before.update(
                i,
                ShowView {
                    names: (lists_of(names, k).len() - 1) as usize,
                    ..absorbed(before[i], row_name(names[k - 1]))
                },
            ),
            None => before,
        }
    }
}

/// What the name in row `j` adds to the indexes: its search key and the
/// place of its show.
pub open spec fn entry_ok(
    rows: Seq<ShowRow>,
    names: Seq<NameRow>,
    entries: Seq<(String, usize)>,
    j: int,
) -> bool {
    &&& encode_utf8(entries[j].0@) == name_key(row_name(names[j]))
    &&& entries[j].0@ == ascii_text(name_key(row_name(names[j])))
    &&& Some(entries[j].1 as int) == show_index(rows, names[j].show_id)
}

proof fn lemma_names_error_stays(rows: Seq<ShowRow>, names: Seq<NameRow>, k: int)
    requires
        0 <= k <= names.len(),
        names_error(rows, names.take(k)) is Some,
    ensures
        names_error(rows, names) == names_error(rows, names.take(k)),
    decreases names.len() - k,
{
    if k == names.len() {
        assert(names.take(k) =~= names);
    } else {
        assert(names.take(k + 1).drop_last() =~= names.take(k));
        lemma_names_error_stays(rows, names, k + 1);
    }
}

proof fn lemma_lists_len(names: Seq<NameRow>, k: int)
    ensures
        lists_of(names, k).len() >= 1,
    decreases k,
{
    if k > 0 {
        lemma_lists_len(names, k - 1);
    }
}

/// Reads the names of the shows: notes what each name tells with its show,
/// puts the names into lists, and collects the search keys.
pub fn load_names(
    shows: &mut Vec<Show>,
    index: &HashMap<i64, usize>,
    Ghost(rows): Ghost<Seq<ShowRow>>,
    names: &Vec<NameRow>,
) -> (r: Result<(StringLists, Vec<(String, usize)>), DbError>)
    requires
        show_views(old(shows)@) == rows_shows(rows),
        index_ok(index@, rows),
    ensures
        final(shows)@.len() == old(shows)@.len(),
        match names_error(rows, names@) {
            Some(e) => r == Err::<(StringLists, Vec<(String, usize)>), DbError>(e),
            None => r matches Ok(x) && x.0.wf() && x.0@ == all_lists(names@) && show_views(
                final(shows)@,
            ) == shows_after(rows, names@, names@.len() as int) && x.1@.len() == names@.len()
                && forall|j: int| 0 <= j < names@.len() ==> #[trigger] entry_ok(rows, names@, x.1@, j),
        },
{
    broadcast use vstd::std_specs::hash::group_hash_axioms;

    let mut lists = StringLists::new();
    let mut entries: Vec<(String, usize)> = Vec::new();
    let mut k: usize = 0;
    assert(names@.take(0) =~= Seq::<NameRow>::empty());
    assert(show_views(shows@) == rows_shows(rows));
    assert(show_views(shows@).len() == shows@.len());
    assert(rows_shows(rows).len() == rows.len());
    while k < names.len()
        invariant
            k <= names.len(),
            index_ok(index@, rows),
            shows@.len() == rows.len(),
            shows@.len() == old(shows)@.len(),
            names_error(rows, names@.take(k as int)) is None,
            lists.wf(),
            lists@ == lists_of(names@, k as int),
            show_views(shows@) == shows_after(rows, names@, k as int),
            entries@.len() == k,
            forall|j: int| 0 <= j < k ==> #[trigger] entry_ok(rows, names@, entries@, j),
        decreases names.len() - k,
    {
        proof {
            assert(names@.take(k as int + 1).drop_last() =~= names@.take(k as int));
            lemma_lists_len(names@, k as int);
        }
        let row = &names[k];
        let idx = match index.get(&row.show_id) {
            Some(idx) => *idx,
            None => {
                proof {
                    lemma_names_error_stays(rows, names@, k as int + 1);
                }
                return Err(DbError::UnknownShow { row: k });
            },
        };
        proof {
            lemma_show_index(rows, row.show_id);
        }
        if k > 0 && names[k - 1].show_id != row.show_id {
            lists.finish_list();
        }
        lists.push_str(row.name.as_str());
        let ghost before = show_views(shows@);
        let ghost seen = entries@;
        shows[idx].names = lists.len() - 1;
        let key = absorb_name(&mut shows[idx], row.name.as_str().as_bytes());
        proof {
            lemma_fold_key_bytes(name_parts(row_name(names@[k as int])).0);
            assert forall|i: int| 0 <= i < key@.len() implies (#[trigger] key@[i]) < 0x80 by {
                assert(crate::text::is_key_byte(key@[i]));
            }
        }
        entries.push((ascii_string(key), idx));
        proof {
            assert(show_views(shows@) =~= shows_after(rows, names@, k as int + 1)) by {
                let want = shows_after(rows, names@, k as int + 1);
                assert forall|i: int| 0 <= i < shows@.len() implies show_views(shows@)[i]
                    == want[i] by {
                    if i != idx {
                        assert(show_views(shows@)[i] == before[i]);
                    }
                }
            }
            assert forall|j: int| 0 <= j < k + 1 implies #[trigger] entry_ok(
                rows,
                names@,
                entries@,
                j,
            ) by {
                if j < k {
                    assert(entry_ok(rows, names@, seen, j));
                    assert(entries@[j] == seen[j]);
                }
            }
        }
        k += 1;
    }
    assert(names@.take(k as int) =~= names@);
    if names.len() > 0 {
        lists.finish_list();
    }
    lists.shrink_to_fit();
    Ok((lists, entries))
}


/// The entries with the search key `k`.
pub open spec fn key_is(entries: Seq<(String, usize)>, k: Seq<char>) -> spec_fn(usize) -> bool {
    |i: usize| entries[i as int].0@ == k
}

/// The shows of the first `j` entries with the search key `k`, in the
/// entries' order.
pub open spec fn shows_upto(entries: Seq<(String, usize)>, k: Seq<char>, j: int) -> Seq<usize> {
    picks(entries, indices(entries.len()).take(j).filter(key_is(entries, k)))
}

/// The shows with the search key `k`, in the entries' order.
pub open spec fn shows_for(entries: Seq<(String, usize)>, k: Seq<char>) -> Seq<usize> {
    shows_upto(entries, k, entries.len() as int)
}

/// The map leads from every search key that is not empty to its shows.
pub open spec fn map_ok(map: Map<Seq<char>, SmallUsizes>, entries: Seq<(String, usize)>) -> bool {
    &&& forall|k: Seq<char>| #[trigger]
        map.contains_key(k) <==> k.len() > 0 && shows_for(entries, k).len() > 0
    &&& forall|k: Seq<char>| #[trigger] map.contains_key(k) ==> map[k]@ == shows_for(entries, k)
}

proof fn lemma_shows_upto_step(entries: Seq<(String, usize)>, k: Seq<char>, j: int)
    requires
        0 <= j < entries.len() <= usize::MAX,
    ensures
        shows_upto(entries, k, j + 1) == if entries[j].0@ == k {
            shows_upto(entries, k, j).push(entries[j].1)
        } else {
            shows_upto(entries, k, j)
        },
{
    let all = indices(entries.len());
    assert(all.take(j + 1) =~= all.take(j).push(j as usize));
    lemma_filter_push(all.take(j), j as usize, key_is(entries, k));
    if entries[j].0@ == k {
        assert(shows_upto(entries, k, j + 1) =~= shows_upto(entries, k, j).push(entries[j].1));
    }
}

fn small_of(list: &Vec<usize>) -> (r: SmallUsizes)
    ensures
        r@ == list@,
{
    let mut r = SmallUsizes::new();
    let mut i: usize = 0;
    while i < list.len()
        invariant
            i <= list.len(),
            r@ == list@.take(i as int),
        decreases list.len() - i,
    {
        r.push(list[i]);
        assert(r@ =~= list@.take(i as int + 1));
        i += 1;
    }
    assert(list@.take(i as int) =~= list@);
    r
}

/// Builds the map from search keys to shows.
pub fn build_map(entries: &Vec<(String, usize)>) -> (map: StringHashMap<SmallUsizes>)
    ensures
        map_ok(map@, entries@),
{
    let ghost all = indices(entries@.len());
    let mut ids: StringHashMap<usize> = StringHashMap::new();
    let mut keys: Vec<String> = Vec::new();
    let mut groups: Vec<Vec<usize>> = Vec::new();
    let mut j: usize = 0;
    assert(all.take(0) =~= Seq::<usize>::empty());
    while j < entries.len()
        invariant
            j <= entries.len(),
            all == indices(entries@.len()),
            keys@.len() == groups@.len(),
            forall|g: int|
                0 <= g < keys@.len() ==> ids@.contains_key((#[trigger] keys@[g])@) && ids@[keys@[g]@]
                    == g && keys@[g]@.len() > 0,
            forall|k: Seq<char>| #[trigger]
                ids@.contains_key(k) ==> ids@[k] < keys@.len() && keys@[ids@[k] as int]@ == k,
            forall|g: int|
                0 <= g < groups@.len() ==> (#[trigger] groups@[g])@ == shows_upto(
                    entries@,
                    keys@[g]@,
                    j as int,
                ) && groups@[g]@.len() > 0,
            forall|k: Seq<char>|
                !ids@.contains_key(k) && k.len() > 0 ==> (#[trigger] shows_upto(
                    entries@,
                    k,
                    j as int,
                )).len() == 0,
        decreases entries.len() - j,
    {
        let ghost ids0 = ids@;
        let ghost keys0 = keys@;
        let ghost groups0 = groups@;
        let ghost key = entries@[j as int].0@;
        proof {
            assert forall|k: Seq<char>|
                #[trigger] shows_upto(entries@, k, j as int + 1) == if entries@[j as int].0@ == k {
                    shows_upto(entries@, k, j as int).push(entries@[j as int].1)
                } else {
                    shows_upto(entries@, k, j as int)
                } by {
                lemma_shows_upto_step(entries@, k, j as int);
            }
        }
        let e = &entries[j];
        if e.0.as_str().is_empty() {
        } else {
            match ids.get(e.0.as_str()) {
                Some(g) => {
                    let g = *g;
                    groups[g].push(e.1);
                    proof {
                        assert forall|x: int| 0 <= x < groups@.len() implies (
                        #[trigger] groups@[x])@ == shows_upto(entries@, keys@[x]@, j as int + 1)
                            && groups@[x]@.len() > 0 by {
                            assert(groups0[x]@ == shows_upto(entries@, keys0[x]@, j as int));
                            if x != g {
                                assert(ids0[keys0[x]@] == x);
                            }
                        }
                    }
                },
                None => {
                    let g = keys.len();
                    ids.insert(e.0.clone(), g);
                    keys.push(e.0.clone());
                    let mut first: Vec<usize> = Vec::new();
                    first.push(e.1);
                    groups.push(first);
                    proof {
                        assert(shows_upto(entries@, key, j as int).len() == 0);
                        assert(shows_upto(entries@, key, j as int + 1) =~= seq![e.1]);
                        assert forall|x: int| 0 <= x < groups@.len() implies (
                        #[trigger] groups@[x])@ == shows_upto(entries@, keys@[x]@, j as int + 1)
                            && groups@[x]@.len() > 0 by {
                            if x < g {
                                assert(groups0[x]@ == shows_upto(entries@, keys0[x]@, j as int));
                                assert(ids0.contains_key(keys0[x]@));
                            }
                        }
                        assert forall|x: int| 0 <= x < keys@.len() implies ids@.contains_key(
                            (#[trigger] keys@[x])@,
                        ) && ids@[keys@[x]@] == x && keys@[x]@.len() > 0 by {
                            if x < g {
                                assert(ids0.contains_key(keys0[x]@));
                            }
                        }
                        assert forall|k: Seq<char>| #[trigger] ids@.contains_key(k) implies ids@[k]
                            < keys@.len() && keys@[ids@[k] as int]@ == k by {
                            if k != key {
                                assert(ids0.contains_key(k));
                            }
                        }
                    }
                },
            }
        }
        j += 1;
    }
    let mut map: StringHashMap<SmallUsizes> = StringHashMap::new();
    let mut g: usize = 0;
    while g < keys.len()
        invariant
            g <= keys.len(),
            keys@.len() == groups@.len(),
            forall|x: int|
                0 <= x < keys@.len() ==> ids@.contains_key((#[trigger] keys@[x])@) && ids@[keys@[x]@]
                    == x && keys@[x]@.len() > 0,
            forall|k: Seq<char>| #[trigger]
                ids@.contains_key(k) ==> ids@[k] < keys@.len() && keys@[ids@[k] as int]@ == k,
            forall|x: int|
                0 <= x < groups@.len() ==> (#[trigger] groups@[x])@ == shows_for(
                    entries@,
                    keys@[x]@,
                ) && groups@[x]@.len() > 0,
            forall|k: Seq<char>| #[trigger]
                map@.contains_key(k) <==> ids@.contains_key(k) && ids@[k] < g,
            forall|k: Seq<char>| #[trigger] map@.contains_key(k) ==> map@[k]@ == shows_for(entries@, k),
        decreases keys.len() - g,
    {
        let small = small_of(&groups[g]);
        let ghost map0 = map@;
        map.insert(keys[g].clone(), small);
        proof {
            let key = keys@[g as int]@;
            assert forall|k: Seq<char>| #[trigger]
                map@.contains_key(k) <==> ids@.contains_key(k) && ids@[k] < g + 1 by {
                if k != key {
                    assert(map0.contains_key(k) <==> ids@.contains_key(k) && ids@[k] < g);
                }
            }
            assert forall|k: Seq<char>| #[trigger] map@.contains_key(k) implies map@[k]@
                == shows_for(entries@, k) by {
                if k != key {
                    assert(map0.contains_key(k));
                }
            }
        }
        g += 1;
    }
    proof {
        assert forall|k: Seq<char>| #[trigger]
            map@.contains_key(k) <==> k.len() > 0 && shows_for(entries@, k).len() > 0 by {
            if map@.contains_key(k) {
                assert(ids@.contains_key(k));
                assert(groups@[ids@[k] as int]@.len() > 0);
            }
            if k.len() > 0 && shows_for(entries@, k).len() > 0 {
                assert(ids@.contains_key(k));
            }
        }
    }
    map
}


/// The catalogue in memory.
pub struct ShowDb {
    pub shows: Vec<Show>,
    pub names: StringLists,
    pub map: StringHashMap<SmallUsizes>,
    pub heap: AsciiHeap<usize>,
    /// The search key and the show of every name, in the order of the names.
    pub entries: Ghost<Seq<(String, usize)>>,
}

/// `k` is a prefix of the search key of some name.
pub open spec fn key_on_the_way(names: Seq<NameRow>, k: Seq<u8>) -> bool {
    exists|j: int| 0 <= j < names.len() && k.is_prefix_of(#[trigger] name_key(row_name(names[j])))
}

/// The keys of the nodes that the names need.
pub open spec fn names_key_set(names: Seq<NameRow>) -> Set<Seq<u8>> {
    Set::new(|k: Seq<u8>| k.len() > 0 && key_on_the_way(names, k))
}

/// The names that have a search key.
pub open spec fn name_keyed(names: Seq<NameRow>) -> spec_fn(usize) -> bool {
    |i: usize| name_key(row_name(names[i as int])).len() > 0
}

/// The names need more nodes or payloads than 32 bits can count.
pub open spec fn too_large(names: Seq<NameRow>) -> bool {
    1 + names_key_set(names).len() > u32::MAX || indices(names.len()).filter(
        name_keyed(names),
    ).len() > u32::MAX
}

/// Why the catalogue cannot be built: the first fault among the shows, else
/// the first among the names, else the size of the index.
pub open spec fn build_error(rows: Seq<ShowRow>, names: Seq<NameRow>) -> Option<DbError> {
    match rows_error(rows) {
        Some(e) => Some(e),
        None => match names_error(rows, names) {
            Some(e) => Some(e),
            None => if too_large(names) {
                Some(DbError::TooLarge)
            } else {
                None
            },
        },
    }
}

impl ShowDb {
    /// The invariant: both indexes lead to shows that are there.
    pub open spec fn wf(&self) -> bool {
        &&& self.names.wf()
        &&& self.heap.wf()
        &&& forall|s: int|
            0 <= s < self.heap.all_payloads().len() ==> (#[trigger] self.heap.all_payloads()[s])
                < self.shows@.len()
        &&& forall|k: Seq<char>, i: int|
            self.map@.contains_key(k) && 0 <= i < self.map@[k]@.len() ==> (
            #[trigger] self.map@[k]@[i]) < self.shows@.len()
        &&& forall|k: Seq<char>| #[trigger] self.map@.contains_key(k) ==> self.map@[k]@.len() > 0
    }

    /// The catalogue holds what the rows of the store say: the shows with
    /// what their names tell, the names in their lists, and every search
    /// key in both indexes.
    pub open spec fn holds(&self, rows: Seq<ShowRow>, names: Seq<NameRow>) -> bool {
        &&& show_views(self.shows@) == shows_after(rows, names, names.len() as int)
        &&& self.names@ == all_lists(names)
        &&& self.entries@.len() == names.len()
        &&& forall|j: int| 0 <= j < names.len() ==> #[trigger] entry_ok(rows, names, self.entries@, j)
        &&& map_ok(self.map@, self.entries@)
        &&& self.heap.represents(self.entries@)
    }

    /// Builds the catalogue from the rows of the store.
    pub fn build(rows: &Vec<ShowRow>, names: &Vec<NameRow>) -> (r: Result<ShowDb, DbError>)
        ensures
            match build_error(rows@, names@) {
                Some(e) => r == Err::<ShowDb, DbError>(e),
                None => r matches Ok(db) && db.wf() && db.holds(rows@, names@),
            },
    {
        let (mut shows, index) = match load_shows(rows) {
            Ok(x) => x,
            Err(e) => {
                return Err(e);
            },
        };
        let (lists, entries) = match load_names(&mut shows, &index, Ghost(rows@), names) {
            Ok(x) => x,
            Err(e) => {
                return Err(e);
            },
        };
        let count = entries.len();
        proof {
            lemma_same_sizes(rows@, names@, entries@);
        }
        let map = build_map(&entries);
        let ghost given = entries@;
        let heap = match AsciiHeap::try_new(entries) {
            Some(heap) => heap,
            None => {
                return Err(DbError::TooLarge);
            },
        };
        let db = ShowDb { shows, names: lists, map, heap, entries: Ghost(given) };
        proof {
            assert(given.len() == count);
            assert(show_views(db.shows@).len() == db.shows@.len());
            assert(rows_shows(rows@).len() == rows@.len());
            lemma_shows_after_len(rows@, names@, names@.len() as int);
            assert forall|s: int| 0 <= s < db.heap.all_payloads().len() implies (
            #[trigger] db.heap.all_payloads()[s]) < db.shows@.len() by {
                let o = db.heap.lemma_payload_origin(given, s);
                assert(entry_ok(rows@, names@, given, o.0));
                lemma_show_index(rows@, names@[o.0].show_id);
            }
            assert forall|k: Seq<char>, i: int|
                db.map@.contains_key(k) && 0 <= i < db.map@[k]@.len() implies (
            #[trigger] db.map@[k]@[i]) < db.shows@.len() by {
                let sel = indices(given.len()).filter(key_is(given, k));
                assert(indices(given.len()).take(given.len() as int) =~= indices(
                    given.len(),
                ));
                lemma_index_filter(given.len(), key_is(given, k));
                let j = sel[i] as int;
                assert(db.map@[k]@[i] == given[j].1);
                assert(entry_ok(rows@, names@, given, j));
                lemma_show_index(rows@, names@[j].show_id);
            }
        }
        Ok(db)
    }
}

/// What a filter of the indices keeps are indices.
pub proof fn lemma_index_filter(n: nat, pred: spec_fn(usize) -> bool)
    requires
        n <= usize::MAX,
    ensures
        forall|x: int|
            0 <= x < indices(n).filter(pred).len() ==> (#[trigger] indices(n).filter(pred)[x]) < n
                && pred(indices(n).filter(pred)[x]),
{
    let all = indices(n);
    let f = all.filter(pred);
    assert forall|x: int| 0 <= x < f.len() implies (#[trigger] f[x]) < n && pred(f[x]) by {
        all.lemma_filter_pred(pred, x);
        assert(f.contains(f[x]));
        all.lemma_filter_contains_rev(pred, f[x]);
        let u = choose|u: int| 0 <= u < all.len() && all[u] == f[x];
        assert(all[u] == u);
    }
}

proof fn lemma_shows_after_len(rows: Seq<ShowRow>, names: Seq<NameRow>, k: int)
    ensures
        shows_after(rows, names, k).len() == rows.len(),
    decreases k,
{
    if k > 0 {
        lemma_shows_after_len(rows, names, k - 1);
        lemma_show_index(rows, names[k - 1].show_id);
    }
}

/// The index needs for the entries what it needs for the names.
proof fn lemma_same_sizes(rows: Seq<ShowRow>, names: Seq<NameRow>, entries: Seq<(String, usize)>)
    requires
        names.len() <= usize::MAX,
        entries.len() == names.len(),
        forall|j: int| 0 <= j < names.len() ==> #[trigger] entry_ok(rows, names, entries, j),
    ensures
        key_set(entries) == names_key_set(names),
        keyed_count(entries) == indices(names.len()).filter(name_keyed(names)).len(),
        forall|j: int|
            0 <= j < names.len() ==> #[trigger] item_key(entries[j]) == name_key(
                row_name(names[j]),
            ),
{
    assert forall|j: int| 0 <= j < names.len() implies #[trigger] item_key(entries[j]) == name_key(
        row_name(names[j]),
    ) by {
        assert(entry_ok(rows, names, entries, j));
        lemma_fold_key_bytes(name_parts(row_name(names[j])).0);
        lemma_fold_key_fixed(name_key(row_name(names[j])));
    }
    assert forall|k: Seq<u8>| key_set(entries).contains(k) <==> names_key_set(names).contains(
        k,
    ) by {
        if key_set(entries).contains(k) {
            let i = choose|i: int|
                0 <= i < entries.len() && k.is_prefix_of(#[trigger] item_key(entries[i]));
            assert(k.is_prefix_of(name_key(row_name(names[i]))));
        }
        if names_key_set(names).contains(k) {
            let j = choose|j: int|
                0 <= j < names.len() && k.is_prefix_of(#[trigger] name_key(row_name(names[j])));
            assert(k.is_prefix_of(item_key(entries[j])));
        }
    }
    assert(key_set(entries) =~= names_key_set(names));
    let all = indices(names.len());
    assert forall|i: int| 0 <= i < all.len() implies item_keyed(entries)(#[trigger] all[i])
        == name_keyed(names)(all[i]) by {
        assert(all[i] == i);
        assert(item_key(entries[i]) == name_key(row_name(names[i])));
    }
    lemma_filter_agree(all, item_keyed(entries), name_keyed(names));
}


/// Every name with a search key is in both indexes: the map leads from
/// the key to a list that holds the show of the name, and the tree has a
/// node with the key whose payloads hold the show.
pub proof fn lemma_every_name_is_indexed(db: &ShowDb, rows: Seq<ShowRow>, names: Seq<NameRow>, j: int)
    requires
        db.wf(),
        db.holds(rows, names),
        names.len() <= usize::MAX,
        0 <= j < names.len(),
        name_key(row_name(names[j])).len() > 0,
    ensures
        show_index(rows, names[j].show_id) is Some,
        db.map@.contains_key(ascii_text(name_key(row_name(names[j])))),
        db.map@[ascii_text(name_key(row_name(names[j])))]@.contains(
            show_index(rows, names[j].show_id).unwrap() as usize,
        ),
        exists|c: int|
            0 <= c < db.heap.len() && #[trigger] db.heap.key(c) == name_key(row_name(names[j]))
                && db.heap.node_payloads(c).contains(
                show_index(rows, names[j].show_id).unwrap() as usize,
            ),
{
    let entries = db.entries@;
    let key = name_key(row_name(names[j]));
    let chars = ascii_text(key);
    assert(entry_ok(rows, names, entries, j));
    lemma_same_sizes(rows, names, entries);
    // the tree
    assert(key.is_prefix_of(item_key(entries[j]))) by {
        assert(key =~= key.subrange(0, key.len() as int));
    }
    assert(on_the_way(entries, key));
    assert(db.heap.has_key(key));
    let c = choose|c: int| 0 <= c < db.heap.len() && #[trigger] db.heap.key(c) == key;
    assert(db.heap.finds(key, c)) by {
        assert(key.is_prefix_of(key));
        assert forall|x: int|
            0 <= x < db.heap.len() && (#[trigger] db.heap.key(x)).is_prefix_of(
                key,
            ) implies db.heap.key(x).len() <= db.heap.key(c).len() by {}
    }
    db.heap.lemma_item_is_found(entries, j, c);
    // the map
    let all = indices(entries.len());
    assert(all.take(entries.len() as int) =~= all);
    assert(all[j] == j as usize);
    assert(key_is(entries, chars)(all[j]));
    all.lemma_filter_contains(key_is(entries, chars), j);
    let sel = all.filter(key_is(entries, chars));
    let u = choose|u: int| 0 <= u < sel.len() && sel[u] == all[j];
    assert(shows_for(entries, chars)[u] == entries[j].1);
    assert(shows_for(entries, chars).contains(entries[j].1));
    assert(chars.len() == key.len());
    assert(db.map@.contains_key(chars));
    assert(db.map@[chars]@ == shows_for(entries, chars));
    assert(Some(entries[j].1 as int) == show_index(rows, names[j].show_id));
}


/// Keeps the catalogue that is in use. Readers get a handle to the whole
/// catalogue as it is at that time; a refresh puts a new catalogue in the
/// place of the old one, which those who hold it keep.
pub struct ShowDbHolder {
    show_db: Option<Arc<ShowDb>>,
}

impl ShowDbHolder {
    /// The catalogue that is in use.
    pub closed spec fn current(&self) -> Option<ShowDb> {
        match self.show_db {
            Some(db) => Some(*db),
            None => None,
        }
    }

    /// A holder without a catalogue.
    pub fn new() -> (r: Self)
        ensures
            r.current() is None,
    {
        ShowDbHolder { show_db: None }
    }

    /// A handle to the catalogue in use, where there is one.
    pub fn get(&self) -> (r: Option<Arc<ShowDb>>)
        ensures
            match self.current() {
                Some(db) => r matches Some(x) && *x == db,
                None => r is None,
            },
    {
        match &self.show_db {
            Some(db) => Some(share(db)),
            None => None,
        }
    }

    /// Puts a new catalogue in the place of the one in use and returns a
    /// handle to it.
    pub fn refresh(&mut self, new: ShowDb) -> (r: Arc<ShowDb>)
        ensures
            final(self).current() == Some(new),
            *r == new,
    {
        let db = Arc::new(new);
        let r = share(&db);
        self.show_db = Some(db);
        r
    }
}


/// What a show holds is in order: it has a format, and none of its
/// seasons, years and formats stands twice.
pub open spec fn show_ok(show: ShowView) -> bool {
    &&& show.formats.len() > 0
    &&& show.seasons.no_duplicates()
    &&& show.years.no_duplicates()
    &&& show.formats.no_duplicates()
}

proof fn lemma_with_new<X>(s: Seq<X>, x: Option<X>)
    requires
        s.no_duplicates(),
    ensures
        with_new(s, x).no_duplicates(),
        with_new(s, x).len() >= s.len(),
{
    match x {
        Some(v) => {
            if !s.contains(v) {
                let r = s.push(v);
                assert forall|i: int, j: int|
                    0 <= i < r.len() && 0 <= j < r.len() && i != j implies r[i] != r[j] by {
                    if i < s.len() && j < s.len() {
                        assert(s[i] != s[j]);
                    } else if i < s.len() {
                        assert(s.contains(s[i]));
                    } else {
                        assert(s.contains(s[j]));
                    }
                }
            }
        },
        None => {},
    }
}

/// Every show of the catalogue has a format, and none of its seasons,
/// years and formats stands twice, however many names were read.
pub proof fn lemma_shows_in_order(rows: Seq<ShowRow>, names: Seq<NameRow>, k: int, i: int)
    requires
        rows_error(rows) is None,
        0 <= i < rows.len(),
    ensures
        shows_after(rows, names, k).len() == rows.len(),
        show_ok(shows_after(rows, names, k)[i]),
    decreases k,
{
    lemma_shows_after_len(rows, names, k);
    if k <= 0 {
        lemma_rows_fine(rows, i);
        let v = row_show(rows[i]).unwrap();
        assert(v.seasons =~= Seq::<u32>::empty());
        assert(v.formats.len() == 1);
        assert(v.years.len() <= 1);
    } else {
        lemma_shows_in_order(rows, names, k - 1, i);
        lemma_shows_after_len(rows, names, k - 1);
        let before = shows_after(rows, names, k - 1);
        let parts = name_parts(row_name(names[k - 1]));
        lemma_with_new(before[i].years, parts.1);
        lemma_with_new(before[i].formats, parts.2);
        lemma_with_new(before[i].seasons, parts.3);
        lemma_show_index(rows, names[k - 1].show_id);
    }
}

proof fn lemma_rows_fine(rows: Seq<ShowRow>, i: int)
    requires
        rows_error(rows) is None,
        0 <= i < rows.len(),
    ensures
        row_show(rows[i]) is Some,
    decreases rows.len(),
{
    if i < rows.len() - 1 {
        lemma_rows_fine(rows.drop_last(), i);
    }
}

} // verus!

//! Resolving a title to a show of the catalogue.

use crate::show_db::{Show, ShowDb, ShowView};
use crate::text::{
    ascii_string, ascii_text, decimal_bytes, find_byte, first_index, fold, fold_key,
    is_key_byte, lemma_decimal_bytes, lemma_fold_key_bytes, lemma_fold_key_fixed, push_decimal,
};
use crate::title_analyzer::{
    blocks_ok, blocks_text, blocks_to_string, episode_of, extract_title_metadata, find_episode,
    find_name_range, find_separator, metadata_of, name_range_of, normalize_title, normalized,
    parse_blocks, blocks_of, separator_of, truncate_blocks, truncated, Block, TitleMetadata,
};
use vstd::prelude::*;
use vstd::slice::slice_subrange;
use vstd::string::*;

verus! {

/// Why a title resolves to no show.
#[derive(Copy, Clone, Debug, PartialEq, Eq, Structural)]
pub enum MatchError {
    /// The title has no block that names a show.
    EmptyNameRange,
    /// Nothing stands before the episode.
    EmptyPreEpisodeRange,
    /// No show has the search key, and the shows whose keys start with it
    /// are not exactly one; `found` counts them up to ten.
    NoPerfectMatch { found: usize },
    /// Several shows have the search key, and season and year do not leave
    /// exactly one; `found` counts those that are left.
    MultiplePerfectMatches { found: usize },
}

/// A number in decimal digits.
pub open spec fn number_text(n: usize) -> Seq<char> {
    ascii_text(decimal_bytes(n as nat))
}

/// What a fault says to a reader.
pub open spec fn error_text(e: MatchError) -> Seq<char> {
    match e {
        MatchError::EmptyNameRange => "name range is empty"@,
        MatchError::EmptyPreEpisodeRange => "pre episode range is empty"@,
        MatchError::NoPerfectMatch { found } => "found no perfect match. trie search returned "@
            + number_text(found) + "+ results"@,
        MatchError::MultiplePerfectMatches { found } => "found "@ + number_text(found)
            + " perfect matches"@,
    }
}

fn number_string(n: usize) -> (r: String)
    ensures
        r@ == number_text(n),
{
    let mut digits: Vec<u8> = Vec::new();
    push_decimal(&mut digits, n as u64);
    proof {
        lemma_decimal_bytes(n as nat);
        assert(digits@ =~= decimal_bytes(n as nat));
    }
    ascii_string(digits)
}

impl MatchError {
    /// What the fault says to a reader.
    pub fn message(&self) -> (r: String)
        ensures
            r@ == error_text(*self),
    {
        match self {
            MatchError::EmptyNameRange => "name range is empty".to_owned(),
            MatchError::EmptyPreEpisodeRange => "pre episode range is empty".to_owned(),
            MatchError::NoPerfectMatch { found } => {
                let r = "found no perfect match. trie search returned ".to_owned();
                let r = r.concat(number_string(*found).as_str());
                r.concat("+ results")
            },
            MatchError::MultiplePerfectMatches { found } => {
                let r = "found ".to_owned();
                let r = r.concat(number_string(*found).as_str());
                r.concat(" perfect matches")
            },
        }
    }
}

/// The most shows that a search by prefix looks at.
pub const PREFIX_LIMIT: usize = 10;

/// The list without repetitions: of every value its first occurrence.
pub open spec fn distinct(s: Seq<usize>) -> Seq<usize>
    decreases s.len(),
{
    if s.len() == 0 {
        Seq::empty()
    } else {
        let r = distinct(s.drop_last());
        if r.contains(s.last()) {
            r
        } else {
            r.push(s.last())
        }
    }
}

/// The show is of the season that the title names; a title that names no
/// season is of the shows that have none.
pub open spec fn season_matches(show: ShowView, season: Option<u32>) -> bool {
    match season {
        None => show.seasons.len() == 0,
        Some(s) => show.seasons.contains(s),
    }
}

/// The show is of the year that the title names.
pub open spec fn year_matches(show: ShowView, year: Option<u32>) -> bool {
    match year {
        None => false,
        Some(y) => show.years.contains(y),
    }
}

/// The shows of season and year.
pub open spec fn both_pred(shows: Seq<Show>, season: Option<u32>, year: Option<u32>) -> spec_fn(
    usize,
) -> bool {
    |i: usize| season_matches(shows[i as int]@, season) && year_matches(shows[i as int]@, year)
}

/// The shows of the season but not of the year.
pub open spec fn season_pred(shows: Seq<Show>, season: Option<u32>, year: Option<u32>) -> spec_fn(
    usize,
) -> bool {
    |i: usize| season_matches(shows[i as int]@, season) && !year_matches(shows[i as int]@, year)
}

/// The shows of the year.
pub open spec fn year_pred(shows: Seq<Show>, year: Option<u32>) -> spec_fn(usize) -> bool {
    |i: usize| year_matches(shows[i as int]@, year)
}

/// The shows among `found` that season and year leave: those of both where
/// there are any; else the one of the season alone, else the one of the
/// year alone, where there is exactly one; else those of the season where
/// there are any; else all.
pub open spec fn narrowed(
    shows: Seq<Show>,
    found: Seq<usize>,
    season: Option<u32>,
    year: Option<u32>,
) -> Seq<usize> {
    let both = found.filter(both_pred(shows, season, year));
    let by_season = found.filter(season_pred(shows, season, year));
    let by_year = found.filter(year_pred(shows, year));
    if both.len() > 0 {
        both
    } else if by_season.len() == 1 {
        by_season
    } else if by_year.len() == 1 {
        by_year
    } else if by_season.len() == 0 {
        found
    } else {
        by_season
    }
}

/// The show that several shows with one search key come down to.
pub open spec fn tie_broken(
    shows: Seq<Show>,
    found: Seq<usize>,
    season: Option<u32>,
    year: Option<u32>,
) -> Result<usize, MatchError> {
    if found.len() == 1 {
        Ok(found[0])
    } else {
        let left = narrowed(shows, found, season, year);
        if left.len() == 1 {
            Ok(left[0])
        } else {
            Err(MatchError::MultiplePerfectMatches { found: left.len() as usize })
        }
    }
}

/// The show that a search by prefix comes down to: the only one below the
/// node where the search for the key ends.
pub open spec fn prefix_result(below: Seq<usize>) -> Result<usize, MatchError> {
    let d = distinct(below);
    if d.len() == 1 {
        Ok(d[0])
    } else if d.len() < PREFIX_LIMIT {
        Err(MatchError::NoPerfectMatch { found: d.len() as usize })
    } else {
        Err(MatchError::NoPerfectMatch { found: PREFIX_LIMIT })
    }
}

/// The place of the show that the text before the episode names.
pub open spec fn search_result(db: &ShowDb, pre: Seq<u8>, season: Option<u32>, year: Option<u32>) -> Result<
    usize,
    MatchError,
> {
    let key = fold_key(pre);
    if db.map@.contains_key(ascii_text(key)) {
        tie_broken(db.shows@, distinct(db.map@[ascii_text(key)]@), season, year)
    } else {
        let node = choose|n: int| db.heap.finds(key, n);
        prefix_result(db.heap.subtree_payloads(node))
    }
}

/// The distinct values of a list begin with the distinct values of its
/// beginning.
proof fn lemma_distinct_grows(s: Seq<usize>, k: int)
    requires
        0 <= k <= s.len(),
    ensures
        distinct(s.take(k)).is_prefix_of(distinct(s)),
    decreases s.len() - k,
{
    if k == s.len() {
        assert(s.take(k) =~= s);
        assert(distinct(s) =~= distinct(s).subrange(0, distinct(s).len() as int));
    } else {
        lemma_distinct_grows(s, k + 1);
        assert(s.take(k + 1).drop_last() =~= s.take(k));
        let a = distinct(s.take(k));
        let b = distinct(s.take(k + 1));
        assert(a =~= b.subrange(0, a.len() as int));
        assert(a =~= distinct(s).subrange(0, a.len() as int));
    }
}

fn holds(list: &Vec<usize>, x: usize) -> (r: bool)
    ensures
        r == list@.contains(x),
{
    let mut k: usize = 0;
    while k < list.len()
        invariant
            k <= list.len(),
            forall|j: int| 0 <= j < k ==> list@[j] != x,
        decreases list.len() - k,
    {
        if list[k] == x {
            return true;
        }
        k += 1;
    }
    false
}

fn holds_number(s: &[u32], x: u32) -> (r: bool)
    ensures
        r == s@.contains(x),
{
    let mut k: usize = 0;
    while k < s.len()
        invariant
            k <= s.len(),
            forall|j: int| 0 <= j < k ==> s@[j] != x,
        decreases s.len() - k,
    {
        if s[k] == x {
            return true;
        }
        k += 1;
    }
    false
}

/// Leaves out repetitions.
pub fn unique(list: &[usize]) -> (r: Vec<usize>)
    ensures
        r@ == distinct(list@),
{
    let mut r: Vec<usize> = Vec::new();
    let mut k: usize = 0;
    assert(list@.take(0) =~= Seq::<usize>::empty());
    while k < list.len()
        invariant
            k <= list.len(),
            r@ == distinct(list@.take(k as int)),
        decreases list.len() - k,
    {
        assert(list@.take(k as int + 1).drop_last() =~= list@.take(k as int));
        if !holds(&r, list[k]) {
            r.push(list[k]);
        }
        k += 1;
    }
    assert(list@.take(k as int) =~= list@);
    r
}

fn of_season(show: &Show, season: Option<u32>) -> (r: bool)
    ensures
        r == season_matches(show@, season),
{
    match season {
        None => show.seasons.as_slice().len() == 0,
        Some(s) => holds_number(show.seasons.as_slice(), s),
    }
}

fn of_year(show: &Show, year: Option<u32>) -> (r: bool)
    ensures
        r == year_matches(show@, year),
{
    match year {
        None => false,
        Some(y) => holds_number(show.years.as_slice(), y),
    }
}

/// Chooses among several shows with one search key by season and year.
pub fn break_tie(shows: &Vec<Show>, found: &Vec<usize>, season: Option<u32>, year: Option<u32>) -> (r:
    Result<usize, MatchError>)
    requires
        forall|i: int| 0 <= i < found@.len() ==> (#[trigger] found@[i]) < shows@.len(),
    ensures
        r == tie_broken(shows@, found@, season, year),
{
    if found.len() == 1 {
        return Ok(found[0]);
    }
    let mut total_shows: Vec<usize> = Vec::new();
    let mut season_shows: Vec<usize> = Vec::new();
    let mut year_shows: Vec<usize> = Vec::new();
    let mut k: usize = 0;
    assert(found@.take(0) =~= Seq::<usize>::empty());
    while k < found.len()
        invariant
            k <= found.len(),
            forall|i: int| 0 <= i < found@.len() ==> (#[trigger] found@[i]) < shows@.len(),
            total_shows@ == found@.take(k as int).filter(both_pred(shows@, season, year)),
            season_shows@ == found@.take(k as int).filter(season_pred(shows@, season, year)),
            year_shows@ == found@.take(k as int).filter(year_pred(shows@, year)),
        decreases found.len() - k,
    {
        let i = found[k];
        proof {
            let seen = found@.take(k as int);
            assert(found@.take(k as int + 1) =~= seen.push(i));
            crate::seqs::lemma_filter_push(seen, i, both_pred(shows@, season, year));
            crate::seqs::lemma_filter_push(seen, i, season_pred(shows@, season, year));
            crate::seqs::lemma_filter_push(seen, i, year_pred(shows@, year));
        }
        let show = &shows[i];
        let season_matches = of_season(show, season);
        let year_matches = of_year(show, year);
        if season_matches {
            if year_matches {
                total_shows.push(i);
            } else {
                season_shows.push(i);
            }
        }
        if year_matches {
            year_shows.push(i);
        }
        k += 1;
    }
    assert(found@.take(k as int) =~= found@);
    let left = if total_shows.len() > 0 {
        &total_shows
    } else if season_shows.len() == 1 {
        &season_shows
    } else if year_shows.len() == 1 {
        &year_shows
    } else if season_shows.len() == 0 {
        found
    } else {
        &season_shows
    };
    if left.len() == 1 {
        Ok(left[0])
    } else {
        Err(MatchError::MultiplePerfectMatches { found: left.len() })
    }
}


/// Distinct values of a list are values of the list.
proof fn lemma_distinct_bound(s: Seq<usize>, n: int)
    requires
        forall|j: int| 0 <= j < s.len() ==> (#[trigger] s[j]) < n,
    ensures
        forall|i: int| 0 <= i < distinct(s).len() ==> (#[trigger] distinct(s)[i]) < n,
    decreases s.len(),
{
    if s.len() > 0 {
        let t = s.drop_last();
        assert forall|j: int| 0 <= j < t.len() implies (#[trigger] t[j]) < n by {
            assert(t[j] == s[j]);
        }
        lemma_distinct_bound(t, n);
        assert(s[s.len() - 1] < n);
        assert forall|i: int| 0 <= i < distinct(s).len() implies (#[trigger] distinct(s)[i]) < n by {
            if i < distinct(t).len() {
                assert(distinct(s)[i] == distinct(t)[i]);
            }
        }
    }
}

/// Looks for the only show below the node where the search for the key
/// ends.
pub fn search_prefix(db: &ShowDb, key: &str) -> (r: Result<usize, MatchError>)
    requires
        db.wf(),
    ensures
        r == prefix_result(
            db.heap.subtree_payloads(choose|n: int| db.heap.finds(fold_key(key.spec_bytes()), n)),
        ),
        r matches Ok(i) ==> i < db.shows@.len(),
{
    let idx = db.heap.find(key);
    let ghost below = db.heap.subtree_payloads(idx as int);
    proof {
        let q = fold_key(key.spec_bytes());
        let other = choose|n: int| db.heap.finds(q, n);
        db.heap.lemma_find_is_unique(q, idx as int, other);
        assert(db.heap.key(idx as int).is_prefix_of(db.heap.key(idx as int))) by {
            let k = db.heap.key(idx as int);
            assert(k =~= k.subrange(0, k.len() as int));
        }
        db.heap.lemma_subtree_holds(idx as int, idx as int);
        assert forall|j: int| 0 <= j < below.len() implies (#[trigger] below[j])
            < db.shows@.len() by {
            assert(below[j] == db.heap.all_payloads()[db.heap.own_start(idx as int) + j]);
        }
    }
    let mut it = db.heap.iter(idx);
    let mut r: Vec<usize> = Vec::new();
    let ghost mut t: int = 0;
    assert(below.take(0) =~= Seq::<usize>::empty());
    assert(below.subrange(0, below.len() as int) =~= below);
    loop
        invariant
            it.wf(),
            0 <= t <= below.len(),
            it.remaining() == below.subrange(t, below.len() as int),
            r@ == distinct(below.take(t)),
            r@.len() <= PREFIX_LIMIT,
        ensures
            t == below.len() || r@.len() == PREFIX_LIMIT,
        decreases below.len() - t,
    {
        if r.len() >= PREFIX_LIMIT {
            break ;
        }
        match it.next() {
            Some(v) => {
                proof {
                    assert(below.take(t + 1).drop_last() =~= below.take(t));
                    assert(below.subrange(t, below.len() as int).drop_first() =~= below.subrange(
                        t + 1,
                        below.len() as int,
                    ));
                    t = t + 1;
                }
                if !holds(&r, *v) {
                    r.push(*v);
                }
            },
            None => {
                break ;
            },
        }
    }
    proof {
        lemma_distinct_grows(below, t);
        lemma_distinct_bound(below, db.shows@.len() as int);
        if t == below.len() {
            assert(below.take(t) =~= below);
        }
        if r@.len() > 0 {
            assert(distinct(below)[0] == distinct(below).subrange(0, r@.len() as int)[0]);
        }
    }
    if r.len() == 1 {
        Ok(r[0])
    } else {
        Err(MatchError::NoPerfectMatch { found: r.len() })
    }
}

/// Finds the show that the text before the episode names: the one with
/// its search key, chosen by season and year where there are several; else
/// the only one whose search key starts with it.
pub fn search(db: &ShowDb, pre_episode_title: &[u8], metadata: TitleMetadata) -> (r: Result<
    usize,
    MatchError,
>)
    requires
        db.wf(),
    ensures
        r == search_result(db, pre_episode_title@, metadata.0, metadata.1),
        r matches Ok(i) ==> i < db.shows@.len(),
{
    let key = fold(pre_episode_title);
    proof {
        lemma_fold_key_bytes(pre_episode_title@);
        lemma_fold_key_fixed(key@);
        assert forall|i: int| 0 <= i < key@.len() implies (#[trigger] key@[i]) < 0x80 by {
            assert(is_key_byte(key@[i]));
        }
    }
    let name = ascii_string(key);
    match db.map.get(name.as_str()) {
        None => search_prefix(db, name.as_str()),
        Some(list) => {
            let found = unique(list.as_slice());
            proof {
                lemma_distinct_bound(list@, db.shows@.len() as int);
            }
            let r = break_tie(&db.shows, &found, metadata.0, metadata.1);
            proof {
                if found@.len() != 1 {
                    let left = narrowed(db.shows@, found@, metadata.0, metadata.1);
                    lemma_narrowed_bound(db.shows@, found@, metadata.0, metadata.1, db.shows@.len() as int);
                }
            }
            r
        },
    }
}

/// What season and year leave are some of the shows found.
proof fn lemma_narrowed_bound(
    shows: Seq<Show>,
    found: Seq<usize>,
    season: Option<u32>,
    year: Option<u32>,
    n: int,
)
    requires
        forall|j: int| 0 <= j < found.len() ==> (#[trigger] found[j]) < n,
    ensures
        forall|i: int|
            0 <= i < narrowed(shows, found, season, year).len() ==> (#[trigger] narrowed(
                shows,
                found,
                season,
                year,
            )[i]) < n,
{
    let left = narrowed(shows, found, season, year);
    assert forall|i: int| 0 <= i < left.len() implies (#[trigger] left[i]) < n by {
        assert(left.contains(left[i]));
        if left != found {
            if left == found.filter(both_pred(shows, season, year)) {
                found.lemma_filter_contains_rev(both_pred(shows, season, year), left[i]);
            } else if left == found.filter(season_pred(shows, season, year)) {
                found.lemma_filter_contains_rev(season_pred(shows, season, year), left[i]);
            } else {
                found.lemma_filter_contains_rev(year_pred(shows, year), left[i]);
            }
            let j = choose|j: int| 0 <= j < found.len() && found[j] == left[i];
        }
    }
}

/// What one try to resolve a range of blocks gives: the show that the text
/// of the blocks names; else the show that its part before the first bar
/// names; else, where the last of several blocks is bracketed, the show
/// that the text without this block names.
pub open spec fn attempt(db: &ShowDb, title: Seq<u8>, range: Seq<Block>, season: Option<u32>) -> Result<
    usize,
    MatchError,
> {
    if range.len() == 0 {
        Err(MatchError::EmptyPreEpisodeRange)
    } else {
        let (pre, meta) = metadata_of(title, blocks_text(title, range));
        let season1 = if season is Some {
            season
        } else {
            meta.0
        };
        let first = search_result(db, pre, season1, meta.1);
        let bar = first_index(pre, 0x7c);
        let second = search_result(db, pre.take(bar), season1, meta.1);
        if first is Ok {
            first
        } else if bar < pre.len() && second is Ok {
            second
        } else if range.len() > 1 && range.last().delimiter is Some {
            let (pre2, meta2) = metadata_of(title, blocks_text(title, range.drop_last()));
            search_result(db, pre2, season1, meta.1)
        } else {
            first
        }
    }
}

/// The show that a title resolves to.
pub open spec fn resolved(db: &ShowDb, title: Seq<u8>) -> Result<usize, MatchError> {
    let n = normalized(title, separator_of(title));
    let name = name_range_of(n, blocks_of(n));
    if name.len() == 0 {
        Err(MatchError::EmptyNameRange)
    } else {
        let ep = episode_of(n, name, name.len() as int);
        let res = attempt(db, n, truncated(n, name, ep.0), ep.1);
        if res is Err && ep.2 {
            attempt(db, n, name, ep.1)
        } else {
            res
        }
    }
}

/// Tries to resolve the blocks before the episode to a show.
pub fn handle_pre_episode_range(
    db: &ShowDb,
    normalized_title: &[u8],
    pre_episode_range: &Vec<Block>,
    season: Option<u32>,
) -> (r: Result<usize, MatchError>)
    requires
        db.wf(),
        blocks_ok(pre_episode_range@, normalized_title@.len()),
    ensures
        r == attempt(db, normalized_title@, pre_episode_range@, season),
        r matches Ok(i) ==> i < db.shows@.len(),
{
    if pre_episode_range.len() == 0 {
        return Err(MatchError::EmptyPreEpisodeRange);
    }
    let mut pre_episode_title = blocks_to_string(normalized_title, pre_episode_range);
    let mut metadata = extract_title_metadata(normalized_title, &mut pre_episode_title);
    if season.is_some() {
        metadata.0 = season;
    }
    let res = search(db, pre_episode_title.as_slice(), metadata);
    if res.is_ok() {
        return res;
    }
    match find_byte(pre_episode_title.as_slice(), 0x7c) {
        Some(pos) => {
            let second = search(db, slice_subrange(pre_episode_title.as_slice(), 0, pos), metadata);
            if second.is_ok() {
                return second;
            }
        },
        None => {},
    }
    let n = pre_episode_range.len();
    if n > 1 && pre_episode_range[n - 1].delimiter.is_some() {
        let mut shorter: Vec<Block> = Vec::new();
        let mut i: usize = 0;
        while i < n - 1
            invariant
                i <= n - 1,
                n == pre_episode_range@.len(),
                shorter@ == pre_episode_range@.take(i as int),
            decreases n - 1 - i,
        {
            shorter.push(pre_episode_range[i]);
            assert(shorter@ =~= pre_episode_range@.take(i as int + 1));
            i += 1;
        }
        assert(shorter@ =~= pre_episode_range@.drop_last());
        let mut pre_episode_title = blocks_to_string(normalized_title, &shorter);
        extract_title_metadata(normalized_title, &mut pre_episode_title);
        return search(db, pre_episode_title.as_slice(), metadata);
    }
    res
}

/// Finds the show of the catalogue that a torrent title names.
pub fn find_show(db: &ShowDb, title: &str) -> (r: Result<usize, MatchError>)
    requires
        db.wf(),
    ensures
        r == resolved(db, title.spec_bytes()),
        r matches Ok(i) ==> i < db.shows@.len(),
{
    let bytes = title.as_bytes();
    let normalized_title = normalize_title(bytes, find_separator(bytes));
    let blocks = parse_blocks(normalized_title.as_slice());
    let name_range = find_name_range(normalized_title.as_slice(), &blocks);
    if name_range.len() == 0 {
        return Err(MatchError::EmptyNameRange);
    }
    let (ep, season, plain_digits) = find_episode(normalized_title.as_slice(), &name_range);
    let pre_episode_range = truncate_blocks(normalized_title.as_slice(), &name_range, ep);
    let res = handle_pre_episode_range(db, normalized_title.as_slice(), &pre_episode_range, season);
    if res.is_err() && plain_digits {
        return handle_pre_episode_range(db, normalized_title.as_slice(), &name_range, season);
    }
    res
}


/// Every value of a list is among its distinct values.
pub proof fn lemma_distinct_holds(s: Seq<usize>, i: int)
    requires
        0 <= i < s.len(),
    ensures
        distinct(s).contains(s[i]),
    decreases s.len(),
{
    let t = s.drop_last();
    let d = distinct(t);
    if i < s.len() - 1 {
        lemma_distinct_holds(t, i);
        assert(t[i] == s[i]);
        let j = choose|j: int| 0 <= j < d.len() && d[j] == s[i];
        assert(distinct(s)[j] == s[i]);
    } else if d.contains(s.last()) {
    } else {
        assert(distinct(s)[d.len() as int] == s[i]);
    }
}

/// A list that holds one value only has this one distinct value.
pub proof fn lemma_distinct_one(s: Seq<usize>, x: usize)
    requires
        s.len() > 0,
        forall|i: int| 0 <= i < s.len() ==> s[i] == x,
    ensures
        distinct(s) == seq![x],
    decreases s.len(),
{
    let t = s.drop_last();
    assert(s[s.len() - 1] == x);
    if t.len() == 0 {
        assert(distinct(t) =~= Seq::<usize>::empty());
        assert(distinct(s) =~= seq![x]);
    } else {
        assert forall|i: int| 0 <= i < t.len() implies t[i] == x by {
            assert(t[i] == s[i]);
        }
        lemma_distinct_one(t, x);
        assert(distinct(t)[0] == x);
        assert(distinct(t).contains(x));
    }
}

/// A search by prefix finds a show if and only if this show, and no other,
/// stands below the node where the search ends, at whatever places.
pub proof fn lemma_prefix_result(below: Seq<usize>, x: usize)
    ensures
        prefix_result(below) == Ok::<usize, MatchError>(x) <==> below.len() > 0 && forall|i: int|
            0 <= i < below.len() ==> below[i] == x,
{
    if below.len() > 0 && forall|i: int| 0 <= i < below.len() ==> below[i] == x {
        lemma_distinct_one(below, x);
    }
    if prefix_result(below) == Ok::<usize, MatchError>(x) {
        let d = distinct(below);
        assert(d.len() == 1 && d[0] == x);
        assert forall|i: int| 0 <= i < below.len() implies below[i] == x by {
            lemma_distinct_holds(below, i);
            let j = choose|j: int| 0 <= j < d.len() && d[j] == below[i];
        }
        if below.len() == 0 {
            assert(false);
        }
    }
}

} // verus!

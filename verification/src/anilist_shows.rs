//! Bringing the shows of the store in line with the catalogue: what has to
//! change in the store for one entry of the catalogue.

use crate::format::{catalogue_format, format_code, Format};
use crate::season::{catalogue_season, packed, Season, YearSeason};
use crate::show_name_type::ShowNameType;
use crate::text::str_eq;
use unicode_normalization::UnicodeNormalization;
use vstd::prelude::*;
use vstd::string::*;

verus! {

/// The text in Unicode normalization form C, as `unicode_normalization`
/// composes it.
pub uninterp spec fn nfc_of(s: Seq<char>) -> Seq<char>;

/// `UnicodeNormalization::nfc` on a text, collected into a text again.
#[verifier::external_body]
pub(crate) fn nfc(s: &str) -> (r: String)
    ensures
        r@ == nfc_of(s@),
{
    s.nfc().collect()
}

/// An entry of the catalogue.
pub struct Media {
    pub id: i64,
    pub romaji: String,
    pub english: Option<String>,
    pub season_year: Option<u16>,
    pub season: Option<String>,
    pub format: String,
}

/// A name of a show in the store.
pub struct Name {
    pub show_name_id: i64,
    pub name: String,
    pub show_name_type: i32,
}

/// A show in the store with its names.
pub struct ExistingShow {
    pub show_id: i64,
    pub anilist_id: i64,
    pub format: Format,
    pub season: Option<YearSeason>,
    pub names: Vec<Name>,
}

/// A name that the catalogue gives a show: its kind and its text.
pub struct NewName {
    pub show_name_type: i32,
    pub name: String,
}

/// A change to make in the store.
pub enum Change {
    UpdateFormat { show_id: i64, show_format: i32 },
    UpdateSeason { show_id: i64, season: Option<i32> },
    UpdateName { show_name_id: i64, name: String },
    InsertName { show_id: i64, show_name_type: i32, name: String },
    InsertShow { anilist_id: i64, show_format: i32, season: Option<i32>, names: Vec<NewName> },
}

/// Why an entry of the catalogue is passed over.
#[derive(Copy, Clone, Debug, PartialEq, Eq, Structural)]
pub enum Skip {
    UnknownFormat,
    UnknownSeason,
}

/// A name of the catalogue, its text as characters.
pub struct NewNameView {
    pub show_name_type: i32,
    pub name: Seq<char>,
}

/// A change, its texts as characters.
pub enum ChangeView {
    UpdateFormat { show_id: i64, show_format: i32 },
    UpdateSeason { show_id: i64, season: Option<i32> },
    UpdateName { show_name_id: i64, name: Seq<char> },
    InsertName { show_id: i64, show_name_type: i32, name: Seq<char> },
    InsertShow { anilist_id: i64, show_format: i32, season: Option<i32>, names: Seq<NewNameView> },
}

impl View for NewName {
    type V = NewNameView;

    open spec fn view(&self) -> NewNameView {
        NewNameView { show_name_type: self.show_name_type, name: self.name@ }
    }
}

/// The names, their texts as characters.
pub open spec fn new_names_view(names: Seq<NewName>) -> Seq<NewNameView> {
    Seq::new(names.len(), |i: int| names[i]@)
}

impl View for Change {
    type V = ChangeView;

    open spec fn view(&self) -> ChangeView {
        match *self {
            Change::UpdateFormat { show_id, show_format } => ChangeView::UpdateFormat {
                show_id,
                show_format,
            },
            Change::UpdateSeason { show_id, season } => ChangeView::UpdateSeason { show_id, season },
            Change::UpdateName { show_name_id, name } => ChangeView::UpdateName {
                show_name_id,
                name: name@,
            },
            Change::InsertName { show_id, show_name_type, name } => ChangeView::InsertName {
                show_id,
                show_name_type,
                name: name@,
            },
            Change::InsertShow { anilist_id, show_format, season, names } => ChangeView::InsertShow {
                anilist_id,
                show_format,
                season,
                names: new_names_view(names@),
            },
        }
    }
}

/// The changes, their texts as characters.
pub open spec fn changes_view(changes: Seq<Change>) -> Seq<ChangeView> {
    Seq::new(changes.len(), |i: int| changes[i]@)
}

/// The year and season of an entry: both where the catalogue gives both.
pub open spec fn media_season(x: Media) -> Result<Option<YearSeason>, Skip> {
    match (x.season_year, x.season) {
        (Some(year), Some(s)) => match catalogue_season(s@) {
            Some(season) => Ok(Some(YearSeason { year, season })),
            None => Err(Skip::UnknownSeason),
        },
        _ => Ok(None),
    }
}

/// The names of an entry in normalization form C: the English name, where
/// there is one that differs from the romaji name, then the romaji name.
pub open spec fn media_names(x: Media) -> Seq<NewNameView> {
    let romaji = NewNameView { show_name_type: ShowNameType::ROMAJI, name: nfc_of(x.romaji@) };
    match x.english {
        Some(e) if nfc_of(e@) != nfc_of(x.romaji@) => seq![
            NewNameView { show_name_type: ShowNameType::ENGLISH, name: nfc_of(e@) },
            romaji,
        ],
        _ => seq![romaji],
    }
}

/// The place of the first name of the kind among the names of the show.
pub open spec fn name_of_type(names: Seq<Name>, kind: i32) -> Option<int>
    decreases names.len(),
{
    if names.len() == 0 {
        None
    } else if names[0].show_name_type == kind {
        Some(0)
    } else {
        match name_of_type(names.drop_first(), kind) {
            Some(i) => Some(i + 1),
            None => None,
        }
    }
}

/// What a name of the catalogue changes in a show of the store: nothing
/// where the show has the name, its text where the show has another name of
/// the kind, a new name where it has none.
pub open spec fn name_change(show: ExistingShow, n: NewNameView) -> Seq<ChangeView> {
    match name_of_type(show.names@, n.show_name_type) {
        Some(i) => if show.names@[i].name@ != n.name {
            seq![ChangeView::UpdateName { show_name_id: show.names@[i].show_name_id, name: n.name }]
        } else {
            Seq::empty()
        },
        None => seq![
            ChangeView::InsertName {
                show_id: show.show_id,
                show_name_type: n.show_name_type,
                name: n.name,
            },
        ],
    }
}

/// The changes of the first `k` names.
pub open spec fn name_changes(show: ExistingShow, names: Seq<NewNameView>, k: int) -> Seq<ChangeView>
    decreases k,
{
    if k <= 0 {
        Seq::empty()
    } else {
        name_changes(show, names, k - 1) + name_change(show, names[k - 1])
    }
}

/// The number under which the store keeps the year and season, where there is
/// one.
pub open spec fn season_code_of(s: Option<YearSeason>) -> Option<i32> {
    match s {
        Some(ys) => Some(packed(ys) as i32),
        None => None,
    }
}

/// What an entry of the catalogue changes in the store. A show that the
/// store has gets its format, its season and its names set right, each
/// where it differs; a show that the store lacks is added with its names.
/// An entry whose format or season is unknown is passed over.
pub open spec fn planned(x: Media, existing: Option<ExistingShow>) -> Result<Seq<ChangeView>, Skip> {
    match catalogue_format(x.format@) {
        None => Err(Skip::UnknownFormat),
        Some(format) => match media_season(x) {
            Err(e) => Err(e),
            Ok(season) => {
                let names = media_names(x);
                match existing {
                    Some(show) => Ok(
                        (if show.format != format {
                            seq![
                                ChangeView::UpdateFormat {
                                    show_id: show.show_id,
                                    show_format: format_code(format),
                                },
                            ]
                        } else {
                            Seq::empty()
                        }) + (if show.season != season {
                            seq![
                                ChangeView::UpdateSeason {
                                    show_id: show.show_id,
                                    season: season_code_of(season),
                                },
                            ]
                        } else {
                            Seq::empty()
                        }) + name_changes(show, names, names.len() as int),
                    ),
                    None => Ok(
                        seq![
                            ChangeView::InsertShow {
                                anilist_id: x.id,
                                show_format: format_code(format),
                                season: season_code_of(season),
                                names,
                            },
                        ],
                    ),
                }
            },
        },
    }
}

fn same_season(a: Option<YearSeason>, b: Option<YearSeason>) -> (r: bool)
    ensures
        r == (a == b),
{
    match (a, b) {
        (None, None) => true,
        (Some(x), Some(y)) => x.year == y.year && x.season == y.season,
        _ => false,
    }
}

fn season_code(s: Option<YearSeason>) -> (r: Option<i32>)
    ensures
        r == season_code_of(s),
{
    match s {
        Some(ys) => Some(ys.to_db()),
        None => None,
    }
}

fn find_name(names: &Vec<Name>, kind: i32) -> (r: Option<usize>)
    ensures
        r matches Some(i) ==> i < names@.len() && name_of_type(names@, kind) == Some(i as int),
        r is None ==> name_of_type(names@, kind) is None,
{
    let mut k: usize = 0;
    while k < names.len()
        invariant
            k <= names.len(),
            forall|j: int| 0 <= j < k ==> names@[j].show_name_type != kind,
        decreases names.len() - k,
    {
        if names[k].show_name_type == kind {
            proof {
                lemma_name_of_type(names@, kind, k as int);
            }
            return Some(k);
        }
        k += 1;
    }
    proof {
        lemma_name_of_type(names@, kind, k as int);
    }
    None
}

proof fn lemma_name_of_type(names: Seq<Name>, kind: i32, k: int)
    requires
        0 <= k <= names.len(),
        forall|j: int| 0 <= j < k ==> names[j].show_name_type != kind,
        k == names.len() || names[k].show_name_type == kind,
    ensures
        name_of_type(names, kind) == if k < names.len() {
            Some(k)
        } else {
            None::<int>
        },
    decreases names.len(),
{
    if names.len() > 0 && k > 0 {
        let rest = names.drop_first();
        assert forall|j: int| 0 <= j < k - 1 implies rest[j].show_name_type != kind by {
            assert(rest[j] == names[j + 1]);
        }
        lemma_name_of_type(rest, kind, k - 1);
    }
}

proof fn lemma_push_view(changes: Seq<Change>, c: Change)
    ensures
        changes_view(changes.push(c)) == changes_view(changes) + seq![c@],
{
    assert(changes_view(changes.push(c)) =~= changes_view(changes) + seq![c@]);
}

/// Works out what one name of the catalogue changes in a show of the store.
fn plan_name(show: &ExistingShow, n: &NewName, changes: &mut Vec<Change>)
    ensures
        changes_view(final(changes)@) == changes_view(old(changes)@) + name_change(*show, n@),
{
    let ghost before = changes_view(changes@);
    let ghost seen = changes@;
    match find_name(&show.names, n.show_name_type) {
        Some(i) => {
            let have = &show.names[i];
            assert(name_of_type(show.names@, n.show_name_type) == Some(i as int));
            assert(n@.show_name_type == n.show_name_type);
            assert(have.name@ == show.names@[i as int].name@);
            if !str_eq(n.name.as_str(), have.name.as_str()) {
                let c = Change::UpdateName {
                    show_name_id: have.show_name_id,
                    name: n.name.clone(),
                };
                assert(seq![c@] =~= name_change(*show, n@));
                changes.push(c);
                proof {
                    lemma_push_view(seen, changes@[seen.len() as int]);
                    assert(changes@ =~= seen.push(changes@[seen.len() as int]));
                }
            } else {
                assert(name_change(*show, n@) =~= Seq::<ChangeView>::empty());
                assert(changes_view(changes@) =~= before + name_change(*show, n@));
            }
        },
        None => {
            let c = Change::InsertName {
                show_id: show.show_id,
                show_name_type: n.show_name_type,
                name: n.name.clone(),
            };
            assert(seq![c@] =~= name_change(*show, n@));
            changes.push(c);
            proof {
                lemma_push_view(seen, changes@[seen.len() as int]);
                assert(changes@ =~= seen.push(changes@[seen.len() as int]));
            }
        },
    }
}

/// Works out what one entry of the catalogue changes in the store.
/// `existing` is the show of the store with the entry's number, where the
/// store has one.
pub fn plan_media(x: &Media, existing: Option<&ExistingShow>) -> (r: Result<Vec<Change>, Skip>)
    ensures
        match planned(
            *x,
            match existing {
                Some(show) => Some(*show),
                None => None,
            },
        ) {
            Ok(c) => r matches Ok(v) && changes_view(v@) == c,
            Err(e) => r matches Err(f) && f == e,
        },
{
    let format = match Format::from_anilist(x.format.as_str()) {
        Ok(f) => f,
        Err(_) => {
            return Err(Skip::UnknownFormat);
        },
    };
    let season = match (&x.season_year, &x.season) {
        (Some(year), Some(s)) => match Season::from_anilist_str(s.as_str()) {
            Ok(season) => Some(YearSeason { year: *year, season }),
            Err(_) => {
                return Err(Skip::UnknownSeason);
            },
        },
        _ => None,
    };
    let romaji = nfc(x.romaji.as_str());
    let mut names: Vec<NewName> = Vec::new();
    match &x.english {
        Some(e) => {
            let name = nfc(e.as_str());
            if !str_eq(name.as_str(), romaji.as_str()) {
                names.push(NewName { show_name_type: ShowNameType::ENGLISH, name });
            }
        },
        None => {},
    }
    names.push(NewName { show_name_type: ShowNameType::ROMAJI, name: romaji });
    assert(new_names_view(names@) =~= media_names(*x));
    let mut changes: Vec<Change> = Vec::new();
    match existing {
        Some(show) => {
            if show.format != format {
                changes.push(
                    Change::UpdateFormat { show_id: show.show_id, show_format: format.to_db() },
                );
            }
            if !same_season(show.season, season) {
                changes.push(
                    Change::UpdateSeason { show_id: show.show_id, season: season_code(season) },
                );
            }
            let ghost head = changes_view(changes@);
            let mut k: usize = 0;
            assert(changes_view(changes@) =~= head + name_changes(*show, new_names_view(names@), 0));
            while k < names.len()
                invariant
                    k <= names.len(),
                    changes_view(changes@) == head + name_changes(
                        *show,
                        new_names_view(names@),
                        k as int,
                    ),
                decreases names.len() - k,
            {
                let ghost seen = changes_view(changes@);
                plan_name(show, &names[k], &mut changes);
                assert(changes_view(changes@) =~= head + name_changes(
                    *show,
                    new_names_view(names@),
                    k as int + 1,
                ));
                k += 1;
            }
            assert(changes_view(changes@) =~= planned(*x, Some(*show))->Ok_0);
        },
        None => {
            changes.push(
                Change::InsertShow {
                    anilist_id: x.id,
                    show_format: format.to_db(),
                    season: season_code(season),
                    names,
                },
            );
            assert(changes_view(changes@) =~= planned(*x, None)->Ok_0);
        },
    }
    Ok(changes)
}

} // verus!

use magnets::matcher::{break_tie, find_show, search, unique, MatchError};
use magnets::show_db::{DbError, NameRow, ShowDb, ShowRow};

fn show(show_id: i64, show_format: i32, season: Option<i32>) -> ShowRow {
    ShowRow { show_id, show_format, season }
}

fn name(show_id: i64, name: &str) -> NameRow {
    NameRow { show_id, name: name.to_string() }
}

fn catalogue() -> ShowDb {
    let shows = vec![
        show(10, 1, Some(201404)),
        show(11, 1, Some(201603)),
        show(12, 1, Some(201901)),
        show(13, 1, Some(199504)),
        show(14, 3, Some(199703)),
        show(15, 1, Some(201404)),
        show(16, 1, Some(201102)),
        show(17, 1, None),
    ];
    let names = vec![
        name(10, "Shigatsu wa Kimi no Uso"),
        name(10, "Your Lie in April"),
        name(11, "Mob Psycho 100"),
        name(12, "Mob Psycho 100 II"),
        name(12, "Mob Psycho 100 Season 2"),
        name(13, "Shinseiki Evangelion"),
        name(14, "Shinseiki Evangelion"),
        name(15, "Fate/stay night: Unlimited Blade Works"),
        name(16, "Nichijou"),
        name(17, "Title With"),
    ];
    ShowDb::build(&shows, &names).unwrap()
}

fn id(db: &ShowDb, r: Result<usize, MatchError>) -> Result<i64, MatchError> {
    r.map(|i| db.shows[i].show_id)
}

#[test]
fn shigatsu_resolves_to_its_show() {
    let db = catalogue();
    let r = find_show(&db, "[HorribleSubs] Shigatsu wa Kimi no Uso - 01 [720p].mkv");
    assert_eq!(id(&db, r), Ok(10));
}

#[test]
fn mob_psycho_season_two_resolves_by_season() {
    let db = catalogue();
    let r = find_show(&db, "Mob Psycho 100 S2 - 03.mkv");
    assert_eq!(id(&db, r), Ok(12));
}

#[test]
fn mob_psycho_without_episode_word_uses_the_whole_name() {
    let db = catalogue();
    // the episode pattern takes "100" for an episode; the name range rescues it
    let r = find_show(&db, "Mob Psycho 100");
    assert_eq!(id(&db, r), Ok(11));
}

#[test]
fn evangelion_resolves_by_year() {
    let db = catalogue();
    let r = find_show(&db, "[Group] Shinseiki Evangelion (1995) - 26 END.mkv");
    assert_eq!(id(&db, r), Ok(13));
    let r = find_show(&db, "[Group] Shinseiki Evangelion (1997) - 01.mkv");
    assert_eq!(id(&db, r), Ok(14));
}

#[test]
fn evangelion_without_year_is_ambiguous() {
    let db = catalogue();
    let r = find_show(&db, "[Group] Shinseiki Evangelion - 26.mkv");
    assert_eq!(r, Err(MatchError::MultiplePerfectMatches { found: 2 }));
}

#[test]
fn fate_with_dots_resolves() {
    let db = catalogue();
    let r = find_show(&db, "Fate.Stay.Night.Unlimited.Blade.Works.S02E03.1080p.mkv");
    assert_eq!(id(&db, r), Ok(15));
}

#[test]
fn title_before_the_bar_is_tried() {
    let db = catalogue();
    let r = find_show(&db, "Title With | Alt Title - 05.mkv");
    assert_eq!(id(&db, r), Ok(17));
}

#[test]
fn nichijou_first_season_resolves() {
    let db = catalogue();
    let r = find_show(&db, "Nichijou 1st Season - 12 [BD 1080p].mkv");
    assert_eq!(id(&db, r), Ok(16));
}

#[test]
fn prefix_of_one_show_resolves_to_it() {
    let db = catalogue();
    let r = find_show(&db, "[Group] Nichi - 03.mkv");
    assert_eq!(id(&db, r), Ok(16));
}

#[test]
fn prefix_of_several_shows_does_not_resolve() {
    let db = catalogue();
    let r = find_show(&db, "[Group] Mob - 03.mkv");
    assert_eq!(r, Err(MatchError::NoPerfectMatch { found: 2 }));
    let r = find_show(&db, "[Group] Unknown Thing - 03.mkv");
    assert_eq!(r, Err(MatchError::NoPerfectMatch { found: 8 }));
}

#[test]
fn title_of_brackets_only_has_no_name() {
    let db = catalogue();
    assert_eq!(find_show(&db, "[Group][720p]"), Err(MatchError::EmptyNameRange));
    assert_eq!(find_show(&db, ""), Err(MatchError::EmptyNameRange));
}

#[test]
fn title_that_is_only_an_episode_has_nothing_before_it() {
    let db = catalogue();
    assert_eq!(find_show(&db, "[Group] - 01 [720p]"), Err(MatchError::EmptyPreEpisodeRange));
}

#[test]
fn round_trip_of_every_romaji() {
    let db = catalogue();
    for (romaji, want) in [("Shigatsu wa Kimi no Uso", 10), ("Nichijou", 16), ("Title With", 17)] {
        let title = format!("[Group] {} - 01 [720p].mkv", romaji);
        assert_eq!(id(&db, find_show(&db, &title)), Ok(want));
    }
}

#[test]
fn search_looks_up_the_key_of_the_text() {
    let db = catalogue();
    assert_eq!(id(&db, search(&db, b" nichijou ", (None, None, None))), Ok(16));
    assert_eq!(id(&db, search(&db, b"YOUR lie in april", (None, None, None))), Ok(10));
}

#[test]
fn unique_keeps_first_occurrences() {
    assert_eq!(unique(&[3, 1, 3, 2, 1]), vec![3, 1, 2]);
    assert_eq!(unique(&[]), Vec::<usize>::new());
}

#[test]
fn tie_break_prefers_season_and_year() {
    let db = catalogue();
    // shows 3 and 4 are the two Evangelions (1995 and 1997), neither has a season
    assert_eq!(break_tie(&db.shows, &vec![3, 4], None, Some(1997)), Ok(4));
    assert_eq!(break_tie(&db.shows, &vec![3, 4], None, Some(1995)), Ok(3));
    assert_eq!(
        break_tie(&db.shows, &vec![3, 4], None, None),
        Err(MatchError::MultiplePerfectMatches { found: 2 })
    );
    assert_eq!(
        break_tie(&db.shows, &vec![3, 4], Some(2), None),
        Err(MatchError::MultiplePerfectMatches { found: 2 })
    );
    assert_eq!(break_tie(&db.shows, &vec![3, 4], Some(2), Some(1995)), Ok(3));
    assert_eq!(break_tie(&db.shows, &vec![4], Some(9), Some(1)), Ok(4));
}

#[test]
fn build_reads_metadata_from_names() {
    let shows = vec![show(1, 1, None), show(2, 5, Some(202002))];
    let names = vec![
        name(1, "Some Show (2019) (TV) 2nd Season"),
        name(1, "Some Show (2019) Season 2"),
        name(2, "Other (Movie)"),
    ];
    let db = ShowDb::build(&shows, &names).unwrap();
    assert_eq!(db.shows[0].years.items(), &[2019]);
    assert_eq!(db.shows[0].seasons.items(), &[2]);
    assert_eq!(db.shows[0].formats.items().len(), 1);
    assert_eq!(db.shows[1].years.items(), &[2020]);
    assert_eq!(db.shows[1].formats.items().len(), 2);
    assert_eq!(db.shows[0].names, 0);
    assert_eq!(db.shows[1].names, 1);
    assert_eq!(db.names.list_len(0), 2);
    assert_eq!(db.names.get(0, 1), b"Some Show (2019) Season 2");
    assert_eq!(db.names.iter(1), vec![&b"Other (Movie)"[..]]);
    assert_eq!(db.map.get("someshow").unwrap().items(), &[0, 0]);
    assert_eq!(db.map.get("other").unwrap().items(), &[1]);
    assert!(db.map.get("").is_none());
    assert_eq!(db.heap.find("someshow"), db.heap.find("someshowx"));
}

#[test]
fn build_reports_the_first_fault() {
    let bad_format = vec![show(1, 1, None), show(2, 9, None), show(3, 1, Some(5))];
    assert!(matches!(ShowDb::build(&bad_format, &vec![]), Err(DbError::InvalidFormat { row: 1 })));
    let bad_season = vec![show(1, 1, Some(202005)), show(2, 9, None)];
    assert!(matches!(ShowDb::build(&bad_season, &vec![]), Err(DbError::InvalidSeason { row: 0 })));
    let shows = vec![show(1, 1, None)];
    let names = vec![name(1, "a"), name(7, "b")];
    assert!(matches!(ShowDb::build(&shows, &names), Err(DbError::UnknownShow { row: 1 })));
}

#[test]
fn later_row_of_a_show_id_wins() {
    let shows = vec![show(1, 1, None), show(1, 3, None)];
    let names = vec![name(1, "Twice")];
    let db = ShowDb::build(&shows, &names).unwrap();
    assert_eq!(db.map.get("twice").unwrap().items(), &[1]);
}

#[test]
fn every_name_is_in_both_indexes() {
    let db = catalogue();
    let names = [
        ("shigatsuwakiminouso", 10),
        ("yourlieinapril", 10),
        ("mobpsycho100", 11),
        ("mobpsycho100ii", 12),
        ("shinseikievangelion", 13),
        ("shinseikievangelion", 14),
        ("fatestaynightunlimitedbladeworks", 15),
        ("nichijou", 16),
        ("titlewith", 17),
    ];
    for (key, show_id) in names {
        let in_map = db.map.get(key).unwrap().items();
        assert!(in_map.iter().any(|i| db.shows[*i].show_id == show_id));
        let node = db.heap.find(key);
        let own = db.heap.node(node).payloads();
        let mut it = db.heap.iter(node);
        let mut below = vec![];
        while let Some(i) = it.next() {
            below.push(*i);
        }
        assert!(below[..own.len()].iter().any(|i| db.shows[*i].show_id == show_id));
    }
    // "Mob Psycho 100 Season 2" loses its season and shares the key of the first show
    assert_eq!(db.map.get("mobpsycho100").unwrap().items().len(), 2);
}

#[test]
fn faults_say_what_went_wrong() {
    assert_eq!(MatchError::EmptyNameRange.message(), "name range is empty");
    assert_eq!(MatchError::EmptyPreEpisodeRange.message(), "pre episode range is empty");
    assert_eq!(
        MatchError::NoPerfectMatch { found: 10 }.message(),
        "found no perfect match. trie search returned 10+ results"
    );
    assert_eq!(
        MatchError::MultiplePerfectMatches { found: 2 }.message(),
        "found 2 perfect matches"
    );
}

#[test]
fn prefix_search_looks_at_ten_shows_at_most() {
    let shows: Vec<ShowRow> = (0..12).map(|i| show(i, 1, None)).collect();
    let names: Vec<NameRow> = (0..12).map(|i| name(i, &format!("Xyz {}", (b'a' + i as u8) as char))).collect();
    let db = ShowDb::build(&shows, &names).unwrap();
    assert_eq!(
        magnets::matcher::search_prefix(&db, "xyz"),
        Err(MatchError::NoPerfectMatch { found: 10 })
    );
    assert_eq!(find_show(&db, "[G] Xyz - 01.mkv"), Err(MatchError::NoPerfectMatch { found: 10 }));
    assert_eq!(id(&db, find_show(&db, "[G] Xyz C - 01.mkv")), Ok(2));
    // one show under the node, named twice, is found wherever it stands
    let names = vec![name(3, "Only One"), name(3, "Only One (TV)"), name(5, "Other")];
    let db = ShowDb::build(&shows, &names).unwrap();
    assert_eq!(id(&db, magnets::matcher::search_prefix(&db, "onl")), Ok(3));
}

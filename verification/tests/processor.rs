use magnets::anilist_client::{classify, retry_delay, Outcome};
use magnets::anilist_shows::{plan_media, Change, ExistingShow, Media, Name, Skip};
use magnets::db_state::{handle_str, RematchMode, StateKey};
use magnets::format::Format;
use magnets::nyaa::{
    magnet_hash, next_page, order_for_insert, page_url, parse_row, parse_signed, parse_size,
    parse_view_id, saw_existing, RowError, RowFields, Torrent,
};
use magnets::scheduled::{time_until, Action, Event, Phase, Scheduled};
use magnets::season::{Season, YearSeason};
use magnets::sleeper::Sleeper;

#[test]
fn answer_with_retry_after_is_a_failure() {
    assert_eq!(classify(Some("30"), true), Outcome::RetryAfter(40));
    assert_eq!(classify(Some("+5"), false), Outcome::RetryAfter(15));
    assert_eq!(classify(Some("soon"), true), Outcome::Failed);
    assert_eq!(classify(Some(""), true), Outcome::Failed);
    assert_eq!(classify(Some("18446744073709551615"), true), Outcome::RetryAfter(u64::MAX));
    assert_eq!(classify(Some("18446744073709551616"), true), Outcome::Failed);
}

#[test]
fn answer_without_retry_after_is_good_with_data() {
    assert_eq!(classify(None, true), Outcome::Data);
    assert_eq!(classify(None, false), Outcome::Failed);
}

#[test]
fn delays_after_answers() {
    assert_eq!(retry_delay(Outcome::Data), 0);
    assert_eq!(retry_delay(Outcome::RetryAfter(40)), 40);
    assert_eq!(retry_delay(Outcome::Failed), 60);
}

#[test]
fn sleeper_keeps_the_gap_from_the_start_of_the_last_request() {
    let mut s = Sleeper::new(1_000);
    // 400 ms after the last start: wait the remaining 600 ms
    assert_eq!(s.sleep(1_000, 1_400), 600);
    // the wait ended at 2 000; 3 000 ms later nothing is left to wait
    assert_eq!(s.sleep(1_000, 5_000), 0);
    // the request started at 5 000
    assert_eq!(s.sleep(1_000, 5_001), 999);
    s.set_now(10_000);
    assert_eq!(s.sleep(1_000, 10_000), 1_000);
    let mut s = Sleeper::new(u64::MAX - 1);
    assert_eq!(s.sleep(10, u64::MAX - 1), 1);
}

#[test]
fn scheduler_follows_its_rule() {
    let (mut s, first) = Scheduled::new(3600);
    assert_eq!(first, Action::ReadLastRun);
    assert_eq!(s.step(Event::LastRun { at: 1_000 }), Action::WaitUntil { due: 4_600 });
    assert_eq!(s.phase, Phase::Waiting { due: 4_600 });
    assert_eq!(s.step(Event::Notified), Action::ReadLastRun);
    assert_eq!(s.step(Event::LastRun { at: 0 }), Action::WaitUntil { due: 3_600 });
    assert_eq!(s.step(Event::Due), Action::Run);
    assert_eq!(s.step(Event::WorkDone), Action::WriteNow);
    assert_eq!(s.step(Event::Written), Action::ReadLastRun);
    assert_eq!(s.step(Event::StoreFailed), Action::Sleep { seconds: 300 });
    assert_eq!(s.step(Event::Rested), Action::ReadLastRun);
    assert_eq!(s.step(Event::LastRun { at: u64::MAX }), Action::WaitUntil { due: u64::MAX });
    assert_eq!(s.step(Event::Due), Action::Run);
    assert_eq!(s.step(Event::WorkFailed), Action::Sleep { seconds: 300 });
    assert_eq!(s.step(Event::Rested), Action::ReadLastRun);
}

#[test]
fn scheduler_rests_a_period_when_the_time_cannot_be_written() {
    let (mut s, _) = Scheduled::new(3600);
    s.step(Event::LastRun { at: 0 });
    s.step(Event::Due);
    s.step(Event::WorkDone);
    assert_eq!(s.step(Event::StoreFailed), Action::Sleep { seconds: 3600 });
    assert_eq!(s.phase, Phase::Resting);
}

#[test]
fn scheduler_passes_over_events_out_of_place() {
    let (mut s, _) = Scheduled::new(60);
    assert_eq!(s.step(Event::Due), Action::Nothing);
    assert_eq!(s.step(Event::WorkDone), Action::Nothing);
    assert_eq!(s.phase, Phase::Reading);
    assert_eq!(time_until(10, 4), 6);
    assert_eq!(time_until(4, 10), 0);
}

#[test]
fn state_rows_and_their_names() {
    assert_eq!(StateKey::MaxNyaaSiId.name(), "max_nyaa_si_id");
    assert_eq!(StateKey::InitialSetup.name(), "initial_setup");
    assert_eq!(handle_str("max_nyaa_si_id"), Some(StateKey::MaxNyaaSiId));
    assert_eq!(handle_str("rematch_unmatched"), Some(StateKey::RematchUnmatched));
    assert_eq!(handle_str("last_shows_update"), Some(StateKey::LastShowsUpdate));
    assert_eq!(handle_str("last_schedule_update"), Some(StateKey::LastScheduleUpdate));
    assert_eq!(handle_str("initial_setup"), None);
    assert_eq!(handle_str("else"), None);
}

#[test]
fn rematch_modes() {
    assert_eq!(RematchMode::from_db(0), RematchMode::Idle);
    assert_eq!(RematchMode::from_db(1), RematchMode::Unmatched);
    assert_eq!(RematchMode::from_db(2), RematchMode::All);
    assert_eq!(RematchMode::from_db(3), RematchMode::Idle);
    assert_eq!(RematchMode::from_db(-1), RematchMode::Idle);
    assert!(RematchMode::All.drops_links());
    assert!(!RematchMode::Unmatched.drops_links());
}

fn torrent(nyaa_id: i64) -> Torrent {
    Torrent {
        torrent_id: None,
        title: format!("t{}", nyaa_id),
        hash: vec![],
        nyaa_id,
        trusted: false,
        size: 0,
        timestamp: 0,
    }
}

#[test]
fn scrape_stops_at_what_the_store_has() {
    let page = vec![torrent(1000), torrent(990), torrent(926)];
    assert!(saw_existing(&page, 1000));
    assert!(!saw_existing(&page, 999));
    assert!(!saw_existing(&vec![], 999));
    assert!(!saw_existing(&vec![torrent(i64::MAX)], i64::MAX));
    assert!(!saw_existing(&vec![torrent(0)], i64::MIN));
    assert_eq!(next_page(1, false), Some(2));
    assert_eq!(next_page(1, true), None);
    assert_eq!(next_page(99, false), Some(100));
    assert_eq!(next_page(100, false), None);
}

#[test]
fn torrents_enter_the_store_by_number() {
    let mut ts = vec![torrent(5), torrent(3), torrent(9), torrent(3)];
    order_for_insert(&mut ts);
    let ids: Vec<i64> = ts.iter().map(|t| t.nyaa_id).collect();
    assert_eq!(ids, vec![3, 3, 5, 9]);
}

#[test]
fn sizes_with_units() {
    assert_eq!(parse_size("1 B"), Ok(1));
    assert_eq!(parse_size("1.5 KiB"), Ok(1536));
    assert_eq!(parse_size("2 MiB"), Ok(2 * 1024 * 1024));
    assert_eq!(parse_size("1.5 GiB"), Ok(1610612736));
    assert_eq!(parse_size("1 TiB"), Ok(1099511627776));
    assert_eq!(parse_size("3 kB"), Ok(3000));
    assert_eq!(parse_size("3 MB"), Ok(3_000_000));
    assert_eq!(parse_size("3 gb"), Ok(3_000_000_000));
    assert_eq!(parse_size("3 T"), Ok(3_000_000_000_000));
    assert_eq!(parse_size("12 "), Ok(12));
    assert_eq!(parse_size("0.4 B"), Ok(0));
    assert_eq!(parse_size("12"), Err(RowError::MissingUnit));
    assert_eq!(parse_size("x GiB"), Err(RowError::InvalidNumber));
    assert_eq!(parse_size("x parsecs"), Err(RowError::InvalidNumber));
    assert_eq!(parse_size("1 parsec"), Err(RowError::InvalidUnit));
    assert_eq!(parse_size("9999999999 TiB"), Err(RowError::SizeOutOfBounds));
}

#[test]
fn numbers_of_torrents_in_links() {
    assert_eq!(parse_view_id("/view/1234567"), Ok(1234567));
    assert_eq!(parse_view_id("/view/-5"), Ok(-5));
    assert_eq!(parse_view_id("/view/"), Err(RowError::NyaaIdOutOfBounds));
    assert_eq!(parse_view_id("/view/12a"), Err(RowError::NyaaIdOutOfBounds));
    assert_eq!(parse_view_id("/view/9223372036854775808"), Err(RowError::NyaaIdOutOfBounds));
    assert_eq!(parse_view_id("/download/1"), Err(RowError::NoViewLink));
    assert_eq!(parse_signed(b"-9223372036854775808"), Some(i64::MIN));
    assert_eq!(parse_signed(b"9223372036854775807"), Some(i64::MAX));
    assert_eq!(parse_signed(b"+0"), Some(0));
    assert_eq!(parse_signed(b"-"), None);
}

#[test]
fn hash_of_a_magnet_link() {
    let link = "magnet:?dn=x&xt=urn:btih:00ff10AB&tr=udp%3A%2F%2Fa";
    assert_eq!(magnet_hash(link), Ok(vec![0x00, 0xff, 0x10, 0xab]));
    assert_eq!(magnet_hash("magnet:?dn=x"), Err(RowError::NoTopic));
    assert_eq!(magnet_hash("magnet:?xt=urn:sha1:00"), Err(RowError::NoBittorrentTopic));
    assert_eq!(magnet_hash("magnet:?xt=urn:btih:0"), Err(RowError::HashNotHex));
    assert_eq!(magnet_hash("magnet:?xt=urn:btih:zz"), Err(RowError::HashNotHex));
    assert_eq!(magnet_hash("not a link"), Err(RowError::InvalidMagnetLink));
}

fn fields() -> RowFields {
    RowFields {
        title: "Cafe\u{301} - 01".to_string(),
        href: Some("/view/77".to_string()),
        magnet: Some("magnet:?xt=urn:btih:abcd".to_string()),
        size: "1.0 KiB".to_string(),
        timestamp: Some("1600000000".to_string()),
        trusted: true,
    }
}

#[test]
fn row_of_the_listing_becomes_a_torrent() {
    let t = parse_row(&fields()).ok().unwrap();
    assert_eq!(t.title, "Caf\u{e9} - 01");
    assert_eq!(t.nyaa_id, 77);
    assert_eq!(t.hash, vec![0xab, 0xcd]);
    assert_eq!(t.size, 1024);
    assert_eq!(t.timestamp, 1600000000);
    assert!(t.trusted);
    assert_eq!(t.torrent_id, None);
}

#[test]
fn first_unreadable_field_of_a_row_gives_the_fault() {
    let mut f = fields();
    f.href = None;
    f.size = "?".to_string();
    assert_eq!(parse_row(&f).err(), Some(RowError::NoHref));
    let mut f = fields();
    f.magnet = None;
    f.timestamp = None;
    assert_eq!(parse_row(&f).err(), Some(RowError::NoMagnetHref));
    let mut f = fields();
    f.timestamp = None;
    assert_eq!(parse_row(&f).err(), Some(RowError::NoTimestamp));
    let mut f = fields();
    f.timestamp = Some("-1".to_string());
    assert_eq!(parse_row(&f).err(), Some(RowError::InvalidTimestamp));
    let mut f = fields();
    f.size = "1".to_string();
    assert_eq!(parse_row(&f).err(), Some(RowError::MissingUnit));
}

#[test]
fn pages_of_the_listing() {
    assert_eq!(page_url(1), "https://nyaa.si/?f=0&c=1_2&p=1");
    assert_eq!(page_url(100), "https://nyaa.si/?f=0&c=1_2&p=100");
}

fn media() -> Media {
    Media {
        id: 500,
        romaji: "Shigatsu wa Kimi no Uso".to_string(),
        english: Some("Your Lie in April".to_string()),
        season_year: Some(2014),
        season: Some("FALL".to_string()),
        format: "TV".to_string(),
    }
}

fn existing() -> ExistingShow {
    ExistingShow {
        show_id: 7,
        anilist_id: 500,
        format: Format::Tv,
        season: Some(YearSeason { year: 2014, season: Season::Fall }),
        names: vec![
            Name { show_name_id: 70, name: "Shigatsu wa Kimi no Uso".to_string(), show_name_type: 1 },
            Name { show_name_id: 71, name: "Your Lie in April".to_string(), show_name_type: 2 },
        ],
    }
}

fn describe(c: &Change) -> String {
    match c {
        Change::UpdateFormat { show_id, show_format } => format!("format {} {}", show_id, show_format),
        Change::UpdateSeason { show_id, season } => format!("season {} {:?}", show_id, season),
        Change::UpdateName { show_name_id, name } => format!("rename {} {}", show_name_id, name),
        Change::InsertName { show_id, show_name_type, name } => {
            format!("name {} {} {}", show_id, show_name_type, name)
        }
        Change::InsertShow { anilist_id, show_format, season, names } => format!(
            "show {} {} {:?} {}",
            anilist_id,
            show_format,
            season,
            names
                .iter()
                .map(|n| format!("{}:{}", n.show_name_type, n.name))
                .collect::<Vec<_>>()
                .join("|")
        ),
    }
}

fn plan(x: &Media, e: Option<&ExistingShow>) -> Result<Vec<String>, Skip> {
    plan_media(x, e).map(|v| v.iter().map(describe).collect())
}

#[test]
fn new_entry_of_the_catalogue_is_added() {
    assert_eq!(
        plan(&media(), None),
        Ok(vec![
            "show 500 1 Some(201404) 2:Your Lie in April|1:Shigatsu wa Kimi no Uso".to_string()
        ])
    );
    let mut x = media();
    x.english = Some(x.romaji.clone());
    x.season = None;
    assert_eq!(plan(&x, None), Ok(vec!["show 500 1 None 1:Shigatsu wa Kimi no Uso".to_string()]));
}

#[test]
fn entry_that_the_store_has_changes_nothing() {
    assert_eq!(plan(&media(), Some(&existing())), Ok(vec![]));
}

#[test]
fn entry_that_differs_is_set_right() {
    let mut x = media();
    x.format = "MOVIE".to_string();
    x.season_year = Some(2015);
    x.season = Some("WINTER".to_string());
    x.english = Some("Your Lie in April!".to_string());
    let mut e = existing();
    e.names.remove(0);
    assert_eq!(
        plan(&x, Some(&e)),
        Ok(vec![
            "format 7 3".to_string(),
            "season 7 Some(201501)".to_string(),
            "rename 71 Your Lie in April!".to_string(),
            "name 7 1 Shigatsu wa Kimi no Uso".to_string(),
        ])
    );
}

#[test]
fn entry_with_unknown_format_or_season_is_passed_over() {
    let mut x = media();
    x.format = "MUSIC".to_string();
    assert_eq!(plan(&x, None), Err(Skip::UnknownFormat));
    let mut x = media();
    x.season = Some("MONSOON".to_string());
    assert_eq!(plan(&x, Some(&existing())), Err(Skip::UnknownSeason));
    let mut x = media();
    x.season_year = None;
    x.season = Some("MONSOON".to_string());
    assert_eq!(plan(&x, None).map(|v| v.len()), Ok(1));
}

#[test]
fn names_of_the_catalogue_are_composed() {
    let mut x = media();
    x.romaji = "Cafe\u{301}".to_string();
    x.english = Some("Caf\u{e9}".to_string());
    assert_eq!(plan(&x, None), Ok(vec!["show 500 1 Some(201404) 1:Caf\u{e9}".to_string()]));
}

use magnets::cache::{lookup, next_version, Cached, Lookup};
use magnets::diff::{diff, Diff};
use magnets::schedule::{compute_diff, merge, window, Change, ExistingItem};
use magnets::show_db::{ShowDb, ShowDbHolder};
use magnets::site_text::{query_encode, searchable_text, HexFormatter, MagnetFormatter, NotFound};
use magnets::strings::ArcString;
use percent_encoding::{utf8_percent_encode, AsciiSet, CONTROLS};
use std::sync::Arc;

#[test]
fn searchable_text_keeps_letters_digits_and_other_scripts() {
    assert_eq!(searchable_text("Hello, World! 42"), "helloworld42");
    assert_eq!(searchable_text("進撃の巨人 Season 2"), "進撃の巨人season2");
    assert_eq!(searchable_text(""), "");
    assert_eq!(searchable_text("---"), "");
}

#[test]
fn hex_is_written_small() {
    assert_eq!(HexFormatter(&[0x00, 0x0f, 0xa5, 0xff]).to_string(), "000fa5ff");
    assert_eq!(HexFormatter(&[]).to_string(), "");
    let long: Vec<u8> = (0..=255).collect();
    assert_eq!(HexFormatter(&long).to_string(), hex::encode(&long));
}

#[test]
fn query_encoding_agrees_with_percent_encoding() {
    const QUERY: &AsciiSet = &CONTROLS.add(b' ').add(b'#').add(b'"').add(b'\'').add(b'<').add(b'>');
    let all: String = (0u8..128).map(|b| b as char).collect();
    for text in ["a b#c", "\"x\" <y> 'z'", "日本語", "100%", all.as_str(), "\u{7f}\u{80}"] {
        assert_eq!(query_encode(text), utf8_percent_encode(text, QUERY).to_string());
    }
    assert_eq!(query_encode("a b"), "a%20b");
}

#[test]
fn magnet_link_names_hash_title_and_trackers() {
    let link = MagnetFormatter("My Show - 01", &[0xab, 0xcd]).to_string();
    assert_eq!(
        link,
        "magnet:?xt=urn:btih:abcd&dn=My%20Show%20-%2001\
         &tr=http://nyaa.tracker.wf:7777/announce\
         &tr=udp://open.stealth.si:80/announce\
         &tr=udp://tracker.opentrackr.org:1337/announce\
         &tr=udp://tracker.coppersurfer.tk:6969/announce\
         &tr=udp://exodus.desync.com:6969/announce"
    );
    assert_eq!(NotFound.to_string(), "Not found");
}

#[test]
fn arc_string_shares_parts_of_a_text() {
    let whole = ArcString::new("mobpsycho100nichijou".to_string());
    assert_eq!(whole.as_str(), "mobpsycho100nichijou");
    assert_eq!(whole.len(), 20);
    let first = whole.substring(0..12);
    let second = whole.substring(12..20);
    assert_eq!(first.as_str(), "mobpsycho100");
    assert_eq!(second.as_str(), "nichijou");
    let inner = second.substring(1..4);
    assert_eq!(inner.as_str(), "ich");
    assert_eq!(second.substring(3..3).as_str(), "");
    assert!(inner.eq(&ArcString::new("ich".to_string())));
    assert!(!inner.eq(&first));
}

#[test]
fn arc_string_cuts_at_character_boundaries() {
    let whole = ArcString::new("aé日b".to_string());
    assert_eq!(whole.len(), 7);
    assert_eq!(whole.substring(1..3).as_str(), "é");
    assert_eq!(whole.substring(3..6).as_str(), "日");
    assert_eq!(whole.substring(1..6).substring(2..5).as_str(), "日");
}

#[test]
fn rematch_changes_links() {
    assert_eq!(diff(&[], Some(5)), vec![(Diff::Add, 5)]);
    assert_eq!(diff(&[5], Some(5)), vec![]);
    assert_eq!(diff(&[4], Some(5)), vec![(Diff::Sub, 4), (Diff::Add, 5)]);
    assert_eq!(diff(&[4, 5, 6], Some(5)), vec![(Diff::Sub, 4), (Diff::Sub, 6)]);
    assert_eq!(diff(&[4, 6], Some(5)), vec![(Diff::Sub, 4), (Diff::Sub, 6), (Diff::Add, 5)]);
    assert_eq!(diff(&[4, 6], None), vec![(Diff::Sub, 4), (Diff::Sub, 6)]);
    assert_eq!(diff(&[], None), vec![]);
}

fn held(item: (i64, i64, i32), schedule_id: i64) -> ExistingItem {
    ExistingItem { item, schedule_id }
}

#[test]
fn airings_are_added_and_deleted() {
    let existing = vec![held((300, 1, 3), 12), held((100, 1, 1), 10), held((200, 1, 2), 11)];
    let new = vec![(200, 1, 2), (400, 1, 4), (100, 2, 1)];
    assert_eq!(
        compute_diff(existing, new),
        vec![
            Change::Del(held((100, 1, 1), 10)),
            Change::Add((100, 2, 1)),
            Change::Del(held((300, 1, 3), 12)),
            Change::Add((400, 1, 4)),
        ]
    );
    assert_eq!(compute_diff(vec![], vec![]), vec![]);
    assert_eq!(compute_diff(vec![], vec![(2, 0, 0), (1, 0, 0)]), vec![
        Change::Add((1, 0, 0)),
        Change::Add((2, 0, 0))
    ]);
    assert_eq!(compute_diff(vec![held((1, 1, 1), 5)], vec![]), vec![Change::Del(held((1, 1, 1), 5))]);
    assert_eq!(merge(&vec![held((1, 1, 1), 5)], &vec![(1, 1, 1)]), vec![]);
}

#[test]
fn airings_are_asked_for_eight_days() {
    assert_eq!(window(1_600_000_000), (1_600_000_000 - 86_400, 1_600_000_000 + 7 * 86_400));
}

#[test]
fn cached_value_is_used_until_it_is_old() {
    let c = Cached { eol: 100, version: 3, data: Arc::new(7u8) };
    assert_eq!(c.max_age(40), 60);
    assert_eq!(c.max_age(100), 0);
    assert_eq!(c.max_age(101), 0);
    let copy = c.clone();
    assert_eq!((copy.eol, copy.version, *copy.data), (100, 3, 7));
    assert_eq!(lookup(&Some(c), 99), Lookup::Hit);
    assert_eq!(lookup(&Some(copy), 100), Lookup::Reload { seen: Some(3) });
    assert_eq!(lookup::<u8>(&None, 0), Lookup::Reload { seen: None });
}

#[test]
fn value_made_by_another_reader_is_taken() {
    assert_eq!(next_version(None, None), Some(1));
    assert_eq!(next_version(Some(3), Some(3)), Some(4));
    assert_eq!(next_version(Some(4), Some(3)), None);
    assert_eq!(next_version(Some(1), None), None);
}

#[test]
fn refresh_replaces_the_catalogue_as_a_whole() {
    let mut holder = ShowDbHolder::new();
    assert!(holder.get().is_none());
    let first = ShowDb::build(&vec![], &vec![]).ok().unwrap();
    holder.refresh(first);
    let before = holder.get().unwrap();
    let rows = vec![magnets::show_db::ShowRow { show_id: 1, show_format: 1, season: None }];
    let second = ShowDb::build(&rows, &vec![]).ok().unwrap();
    holder.refresh(second);
    let after = holder.get().unwrap();
    let again = holder.get().unwrap();
    assert_eq!(before.shows.len(), 0);
    assert_eq!(after.shows.len(), 1);
    assert!(Arc::ptr_eq(&after, &again));
    assert!(!Arc::ptr_eq(&before, &after));
}

use magnets::format::Format;
use magnets::title_analyzer::{
    analyze, blocks_to_string, extract_title_metadata, find_episode, find_name_range, find_separator,
    is_relevant, normalize_title, parse_blocks, truncate_blocks, Block,
};

fn norm(title: &str) -> Vec<u8> {
    normalize_title(title.as_bytes(), find_separator(title.as_bytes()))
}

fn texts(title: &[u8], blocks: &[Block]) -> Vec<String> {
    blocks
        .iter()
        .map(|b| String::from_utf8(title[b.start..b.start + b.len].to_vec()).unwrap())
        .collect()
}

fn pre_episode(title: &str) -> (String, (Option<u32>, Option<u32>, Option<Format>), bool) {
    let n = norm(title);
    let blocks = parse_blocks(&n);
    let name = find_name_range(&n, &blocks);
    assert!(!name.is_empty());
    let (ep, season, plain) = find_episode(&n, &name);
    let pre = truncate_blocks(&n, &name, ep);
    assert!(!pre.is_empty());
    let mut text = blocks_to_string(&n, &pre);
    let mut meta = extract_title_metadata(&n, &mut text);
    if season.is_some() {
        meta.0 = season;
    }
    (String::from_utf8(text).unwrap(), meta, plain)
}

#[test]
fn separator_is_space_where_there_is_one() {
    assert_eq!(find_separator(b"a_b.c d"), b' ');
    assert_eq!(find_separator(b""), b' ');
    assert_eq!(find_separator(b"abc"), b' ');
}

#[test]
fn separator_is_the_more_frequent_of_underscore_and_dot() {
    assert_eq!(find_separator(b"a_b_c.d"), b'_');
    assert_eq!(find_separator(b"a.b.c_d"), b'.');
    assert_eq!(find_separator(b"a.b_c"), b'_');
}

#[test]
fn normalize_squeezes_and_lowers() {
    assert_eq!(norm("  Hello   World  "), b"hello world".to_vec());
    assert_eq!(norm("A__B_c_"), b"a b c".to_vec());
    assert_eq!(norm(""), b"".to_vec());
    assert_eq!(norm("   "), b"".to_vec());
    assert_eq!(
        norm("Fate.Stay.Night.Unlimited.Blade.Works.S02E03.1080p.mkv"),
        b"fate stay night unlimited blade works s02e03 1080p mkv".to_vec()
    );
}

#[test]
fn normalize_twice_is_normalize_once() {
    for t in ["  Hello   World  ", "A.B.C", "x__y", "[G] T - 01 [720p].mkv", "日本語 タイトル"] {
        let sep = find_separator(t.as_bytes());
        let once = normalize_title(t.as_bytes(), sep);
        let twice = normalize_title(&once, sep);
        assert_eq!(once, twice);
    }
}

#[test]
fn normalize_with_a_new_separator_may_change_the_title() {
    let once = norm("a_b ");
    assert_eq!(once, b"a_b".to_vec());
    assert_eq!(normalize_title(&once, find_separator(&once)), b"a b".to_vec());
}

#[test]
fn blocks_follow_the_brackets() {
    let t = b"[horriblesubs] shigatsu wa kimi no uso - 01 [720p].mkv";
    let blocks = parse_blocks(t);
    assert_eq!(
        texts(t, &blocks),
        vec!["[horriblesubs]", " shigatsu wa kimi no uso - 01 ", "[720p]", ".mkv"]
    );
    assert_eq!(blocks[0].delimiter, Some(b'['));
    assert_eq!(blocks[1].delimiter, None);
    assert_eq!(blocks[1].start, 14);
    assert_eq!(blocks[0].pos, 0);
    assert_eq!(blocks[1].pos, 1);
}

#[test]
fn blocks_nest_brackets_of_one_kind() {
    let t = b"a [b [c] d] e (f [g) h";
    let blocks = parse_blocks(t);
    assert_eq!(texts(t, &blocks), vec!["a ", "[b [c] d]", " e ", "(f [g)", " h"]);
}

#[test]
fn open_bracket_at_the_end_joins_the_block_before() {
    let t = b"abc [def";
    assert_eq!(texts(t, &parse_blocks(t)), vec!["abc [def"]);
    let t = b"[abc][def";
    let blocks = parse_blocks(t);
    assert_eq!(texts(t, &blocks), vec!["[abc]", "[def"]);
    assert_eq!(blocks[1].delimiter, Some(b'['));
}

#[test]
fn blocks_without_letters_are_dropped() {
    let t = b"[a] - [b]";
    assert_eq!(texts(t, &parse_blocks(t)), vec!["[a]", "[b]"]);
    assert!(parse_blocks(b"").is_empty());
    assert!(parse_blocks(b" - ").is_empty());
}

#[test]
fn relevant_means_a_letter_or_digit() {
    assert!(is_relevant(b" a "));
    assert!(is_relevant(b"7"));
    assert!(!is_relevant(b" - ()"));
    assert!(!is_relevant(b"ABC"));
}

#[test]
fn name_range_ends_before_file_words() {
    let t = b"[horriblesubs] shigatsu wa kimi no uso - 01 [720p].mkv";
    let name = find_name_range(t, &parse_blocks(t));
    assert_eq!(texts(t, &name), vec![" shigatsu wa kimi no uso - 01 "]);

    let t = b"mob psycho 100 s2 - 03.mkv";
    let name = find_name_range(t, &parse_blocks(t));
    assert_eq!(texts(t, &name), vec!["mob psycho 100 s2 - 03"]);

    let t = b"nichijou 1st season - 12 [bd 1080p].mkv";
    let name = find_name_range(t, &parse_blocks(t));
    assert_eq!(texts(t, &name), vec!["nichijou 1st season - 12 "]);
}

#[test]
fn name_range_knows_words_of_two_parts() {
    let t = b"some show english dub more";
    let name = find_name_range(t, &parse_blocks(t));
    assert_eq!(texts(t, &name), vec!["some show "]);
    let t = b"some show multiple subtitle";
    let name = find_name_range(t, &parse_blocks(t));
    assert_eq!(texts(t, &name), vec!["some show "]);
}

#[test]
fn name_range_is_empty_for_brackets_only() {
    let t = b"[group][720p]";
    assert!(find_name_range(t, &parse_blocks(t)).is_empty());
}

#[test]
fn episode_is_found_from_the_right() {
    let t = b" shigatsu wa kimi no uso - 01 ";
    let blocks = parse_blocks(t);
    assert_eq!(find_episode(t, &blocks), (Some((0, 24)), None, false));
}

#[test]
fn episode_tells_season_of_s_e_form() {
    let t = b"fate stay night unlimited blade works s02e03 ";
    let blocks = parse_blocks(t);
    assert_eq!(find_episode(t, &blocks), (Some((0, 37)), Some(2), false));
}

#[test]
fn episode_written_as_plain_number_is_flagged() {
    let t = b"mob psycho 100";
    let blocks = parse_blocks(t);
    assert_eq!(find_episode(t, &blocks), (Some((0, 10)), None, true));
}

#[test]
fn no_episode_in_a_plain_name() {
    let t = b"shigatsu wa kimi no uso";
    let blocks = parse_blocks(t);
    assert_eq!(find_episode(t, &blocks), (None, None, false));
}

#[test]
fn truncate_drops_a_bracketed_episode_block() {
    let t = b"show name (s01e02)";
    let blocks = parse_blocks(t);
    assert_eq!(texts(t, &blocks), vec!["show name ", "(s01e02)"]);
    let cut = truncate_blocks(t, &blocks, Some((1, 0)));
    assert_eq!(texts(t, &cut), vec!["show name "]);
    let cut = truncate_blocks(t, &blocks, Some((0, 4)));
    assert_eq!(texts(t, &cut), vec!["show"]);
    let cut = truncate_blocks(t, &blocks, Some((0, 0)));
    assert!(cut.is_empty());
    let cut = truncate_blocks(t, &blocks, None);
    assert_eq!(cut, blocks);
}

#[test]
fn scenario_shigatsu() {
    let (pre, meta, plain) = pre_episode("[HorribleSubs] Shigatsu wa Kimi no Uso - 01 [720p].mkv");
    assert_eq!(pre, " shigatsu wa kimi no uso");
    assert_eq!(meta, (None, None, None));
    assert!(!plain);
}

#[test]
fn scenario_mob_psycho() {
    let (pre, meta, _) = pre_episode("Mob Psycho 100 S2 - 03.mkv");
    assert_eq!(pre, "mob psycho 100 ");
    assert_eq!(meta.0, Some(2));
}

#[test]
fn scenario_evangelion() {
    let (pre, meta, _) = pre_episode("[Group] Shinseiki Evangelion (1995) - 26 END.mkv");
    assert_eq!(pre, " shinseiki evangelion ");
    assert_eq!(meta, (None, Some(1995), None));
}

#[test]
fn scenario_fate() {
    let title = "Fate.Stay.Night.Unlimited.Blade.Works.S02E03.1080p.mkv";
    assert_eq!(find_separator(title.as_bytes()), b'.');
    let (pre, meta, _) = pre_episode(title);
    assert_eq!(pre, "fate stay night unlimited blade works");
    assert_eq!(meta.0, Some(2));
}

#[test]
fn scenario_pipe() {
    let (pre, _, _) = pre_episode("Title With | Alt Title - 05.mkv");
    assert!(pre.contains('|'));
    assert_eq!(pre, "title with | alt title");
}

#[test]
fn scenario_nichijou() {
    let (pre, meta, _) = pre_episode("Nichijou 1st Season - 12 [BD 1080p].mkv");
    assert_eq!(pre, "nichijou ");
    assert_eq!(meta.0, Some(1));
}

#[test]
fn metadata_falls_back_to_the_whole_title() {
    let whole = b"show (2019) (movie) - 01 second season";
    let mut pre = b"show ".to_vec();
    let meta = extract_title_metadata(whole, &mut pre);
    assert_eq!(meta, (Some(2), Some(2019), Some(Format::Movie)));
    assert_eq!(pre, b"show ".to_vec());
}

#[test]
fn reading_a_title_twice_gives_the_same() {
    for t in [
        "[HorribleSubs] Shigatsu wa Kimi no Uso - 01 [720p].mkv",
        "Mob Psycho 100 S2 - 03.mkv",
        "Fate.Stay.Night.Unlimited.Blade.Works.S02E03.1080p.mkv",
    ] {
        let a = analyze(t).unwrap();
        let b = analyze(t).unwrap();
        assert_eq!(a.pre_episode_title, b.pre_episode_title);
        assert_eq!(a.metadata, b.metadata);
        assert_eq!(a.plain_digits, b.plain_digits);
    }
    assert!(analyze("[Group][720p]").is_none());
    assert!(analyze("[Group] - 01").is_none());
    let a = analyze("Mob Psycho 100").unwrap();
    assert_eq!(a.pre_episode_title, b"mob psycho".to_vec());
    assert!(a.plain_digits);
}

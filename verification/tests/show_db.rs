use magnets::format::Format;
use magnets::show_db::{find_format, find_season, find_year, search_name};

#[test]
fn year_is_four_digits_in_brackets() {
    assert_eq!(find_year(b"title (1995) more"), Some((6..12, 1995)));
    assert_eq!(find_year(b"title (199) more"), None);
    assert_eq!(find_year(b"(2001) and (2002)"), Some((0..6, 2001)));
    assert_eq!(find_year(b""), None);
}

#[test]
fn year_in_other_digits_is_not_read() {
    assert_eq!(find_year("title (２０２０)".as_bytes()), None);
}

#[test]
fn format_is_a_word_in_brackets() {
    assert_eq!(find_format(b"title (tv)"), Some((6..10, Format::Tv)));
    assert_eq!(find_format(b"title (movie)"), Some((6..13, Format::Movie)));
    assert_eq!(find_format(b"(ova)"), Some((0..5, Format::Ova)));
    assert_eq!(find_format(b"(oad)"), Some((0..5, Format::Ova)));
    assert_eq!(find_format(b"(ona) x"), Some((0..5, Format::Ona)));
    assert_eq!(find_format(b"(special)"), None);
    assert_eq!(find_format(b"tv"), None);
}

#[test]
fn season_has_four_forms() {
    assert_eq!(find_season(b"title 2nd season"), Some((6..16, 2)));
    assert_eq!(find_season(b"title season 3"), Some((6..14, 3)));
    assert_eq!(find_season(b"title s4"), Some((6..8, 4)));
    assert_eq!(find_season(b"title first season"), Some((6..18, 1)));
    assert_eq!(find_season(b"title second season"), Some((6..19, 2)));
    assert_eq!(find_season(b"title third season"), Some((6..18, 3)));
    assert_eq!(find_season(b"title fourth season"), None);
    assert_eq!(find_season(b"seasons"), None);
}

#[test]
fn season_is_the_last_one_named() {
    assert_eq!(find_season(b"s1 something s2"), Some((13..15, 2)));
    assert_eq!(find_season(b"season 1 and 3rd season"), Some((13..23, 3)));
}

#[test]
fn season_of_two_digits_is_read_whole() {
    assert_eq!(find_season(b"title 12th season"), Some((6..17, 12)));
    assert_eq!(find_season(b"12th season"), Some((0..11, 12)));
    assert_eq!(find_season(b"21st season"), Some((0..11, 21)));
    assert_eq!(find_season(b"title s12"), Some((6..9, 12)));
    assert_eq!(find_season(b"season 10"), Some((0..9, 10)));
}

#[test]
fn season_inside_a_word_is_not_one() {
    assert_eq!(find_season(b"ss2"), None);
    assert_eq!(find_season(b"xs2 s3x"), None);
    assert_eq!(find_season(b"s1 xs2"), Some((0..2, 1)));
}

#[test]
fn season_number_that_does_not_fit_is_not_read() {
    assert_eq!(find_season(b"title s99999999999"), None);
    assert_eq!(find_season(b"title s4294967295"), Some((6..17, 4294967295)));
}

#[test]
fn search_name_keeps_letters_and_digits() {
    assert_eq!(search_name("Mob Psycho 100!"), "mobpsycho100");
    assert_eq!(search_name(" - "), "");
    assert_eq!(search_name("日本語 abc"), "abc");
}

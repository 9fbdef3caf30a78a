use magnets::format::{Format, InvalidFormat};
use magnets::season::{Season, SeasonError, YearSeason};
use magnets::show_name_type::ShowNameType;
use magnets::strings::StringLists;

#[test]
fn format_reads_catalogue_names() {
    assert_eq!(Format::from_anilist("TV"), Ok(Format::Tv));
    assert_eq!(Format::from_anilist("TV_SHORT"), Ok(Format::TvShort));
    assert_eq!(Format::from_anilist("MOVIE"), Ok(Format::Movie));
    assert_eq!(Format::from_anilist("SPECIAL"), Ok(Format::Special));
    assert_eq!(Format::from_anilist("OVA"), Ok(Format::Ova));
    assert_eq!(Format::from_anilist("ONA"), Ok(Format::Ona));
    assert_eq!(Format::from_anilist("tv"), Err(InvalidFormat));
    assert_eq!(Format::from_anilist(""), Err(InvalidFormat));
}

#[test]
fn format_codes_go_both_ways() {
    let all = [
        (Format::Tv, 1),
        (Format::TvShort, 2),
        (Format::Movie, 3),
        (Format::Special, 4),
        (Format::Ova, 5),
        (Format::Ona, 6),
    ];
    for (f, n) in all {
        assert_eq!(f.to_db(), n);
        assert_eq!(Format::from_db(n), Ok(f));
    }
    assert_eq!(Format::from_db(0), Err(InvalidFormat));
    assert_eq!(Format::from_db(7), Err(InvalidFormat));
    assert_eq!(InvalidFormat.message(), "invalid format");
}

#[test]
fn format_names_for_readers() {
    assert_eq!(Format::Tv.as_str(), "TV Show");
    assert_eq!(Format::TvShort.as_str(), "TV Short");
    assert_eq!(Format::Movie.as_str(), "Movie");
    assert_eq!(Format::Special.as_str(), "Special");
    assert_eq!(Format::Ova.as_str(), "OVA");
    assert_eq!(Format::Ona.as_str(), "ONA");
}

#[test]
fn season_codes_and_names() {
    assert_eq!(Season::Winter.to_db(), 1);
    assert_eq!(Season::Fall.to_db(), 4);
    assert_eq!(Season::from_db(2), Ok(Season::Spring));
    assert_eq!(Season::from_db(5), Err(SeasonError::InvalidSeason));
    assert_eq!(Season::from_anilist_str("SUMMER"), Ok(Season::Summer));
    assert_eq!(Season::from_anilist_str("Summer"), Err(SeasonError::InvalidSeason));
    assert_eq!(Season::from_display_string("Fall"), Ok(Season::Fall));
    assert_eq!(Season::from_display_string("FALL"), Err(SeasonError::InvalidSeason));
    assert_eq!(Season::Winter.as_str(), "Winter");
}

#[test]
fn season_of_calendar_month() {
    assert_eq!(Season::from_month(1), Some(Season::Winter));
    assert_eq!(Season::from_month(3), Some(Season::Winter));
    assert_eq!(Season::from_month(4), Some(Season::Spring));
    assert_eq!(Season::from_month(9), Some(Season::Summer));
    assert_eq!(Season::from_month(10), Some(Season::Fall));
    assert_eq!(Season::from_month(12), Some(Season::Fall));
    assert_eq!(Season::from_month(0), None);
    assert_eq!(Season::from_month(13), None);
    assert_eq!(
        YearSeason::of_date(2020, 5),
        Some(YearSeason { year: 2020, season: Season::Spring })
    );
}

#[test]
fn year_season_is_packed_as_year_times_hundred_plus_season() {
    let ys = YearSeason { year: 2020, season: Season::Spring };
    assert_eq!(ys.to_db(), 202002);
    assert_eq!(YearSeason::from_db(202002), Ok(ys));
    assert_eq!(YearSeason::from_db(202005), Err(SeasonError::InvalidSeason));
    assert_eq!(YearSeason::from_db(202000), Err(SeasonError::InvalidSeason));
    assert_eq!(YearSeason::from_db(6553601), Err(SeasonError::InvalidYear));
    assert_eq!(YearSeason::from_db(6553504), Ok(YearSeason { year: 65535, season: Season::Fall }));
    assert_eq!(YearSeason::from_db(-1), Err(SeasonError::InvalidSeason));
    assert_eq!(YearSeason::from_db(-100), Err(SeasonError::InvalidYear));
    assert_eq!(YearSeason::from_db(3), Ok(YearSeason { year: 0, season: Season::Summer }));
}

#[test]
fn year_season_neighbours() {
    let winter = YearSeason { year: 2020, season: Season::Winter };
    let fall = YearSeason { year: 2019, season: Season::Fall };
    assert_eq!(winter.prev(), fall);
    assert_eq!(fall.next(), winter);
    assert_eq!(winter.next(), YearSeason { year: 2020, season: Season::Spring });
    assert_eq!(fall.prev(), YearSeason { year: 2019, season: Season::Summer });
}

#[test]
fn year_season_texts() {
    let ys = YearSeason { year: 2020, season: Season::Spring };
    assert_eq!(ys.display_name(), "Spring 2020");
    assert_eq!(ys.to_url_str(), "Spring-2020");
    assert_eq!(YearSeason { year: 0, season: Season::Fall }.to_url_str(), "Fall-0");
    assert_eq!(YearSeason::from_url_str("Spring-2020"), Ok(ys));
    assert_eq!(YearSeason::from_url_str("Spring-+2020"), Ok(ys));
    assert_eq!(YearSeason::from_url_str("Spring2020"), Err(SeasonError::InvalidYearSeason));
    assert_eq!(YearSeason::from_url_str("spring-2020"), Err(SeasonError::InvalidSeason));
    assert_eq!(YearSeason::from_url_str("Spring-"), Err(SeasonError::InvalidYearSeason));
    assert_eq!(YearSeason::from_url_str("Spring-65536"), Err(SeasonError::InvalidYearSeason));
    assert_eq!(YearSeason::from_url_str("Spring-20-20"), Err(SeasonError::InvalidYearSeason));
    assert_eq!(SeasonError::InvalidYearSeason.message(), "invalid year season");
}

#[test]
fn name_types_have_their_numbers() {
    assert_eq!(ShowNameType::ROMAJI, 1);
    assert_eq!(ShowNameType::ENGLISH, 2);
    assert_eq!(ShowNameType::ADDITIONAL, 3);
}

#[test]
fn string_lists_keep_names_by_list() {
    let mut lists = StringLists::new();
    assert_eq!(lists.len(), 1);
    lists.push_str("one");
    lists.push_str("two");
    let first = lists.finish_list();
    lists.push_str("drei");
    let second = lists.finish_list();
    let third = lists.finish_list();
    lists.shrink_to_fit();
    assert_eq!((first, second, third), (0, 1, 2));
    assert_eq!(lists.len(), 4);
    assert_eq!(lists.list_len(0), 2);
    assert_eq!(lists.get(0, 0), b"one");
    assert_eq!(lists.get(0, 1), b"two");
    assert_eq!(lists.iter(1), vec![&b"drei"[..]]);
    assert!(lists.iter(2).is_empty());
    assert!(lists.iter(3).is_empty());
}

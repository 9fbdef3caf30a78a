//! The part of the year in which a show aired.

use crate::text::{
    ascii_string, ascii_text, bytes_eq, decimal_bytes, decimal_in, find_byte, first_index,
    lemma_decimal_bytes, parse_decimal, push_decimal, str_eq,
};
use vstd::prelude::*;
use vstd::slice::slice_subrange;
use vstd::string::*;
use vstd::utf8::*;

verus! {

/// A quarter of the year.
#[derive(Copy, Clone, Debug, PartialEq, Eq, Structural)]
pub enum Season {
    Winter,
    Spring,
    Summer,
    Fall,
}

/// The year and season in which a show aired.
#[derive(Copy, Clone, Debug, PartialEq, Eq, Structural)]
pub struct YearSeason {
    pub year: u16,
    pub season: Season,
}

/// Why a text or number is no season or no year with its season.
#[derive(Copy, Clone, Debug, PartialEq, Eq, Structural)]
pub enum SeasonError {
    InvalidSeason,
    InvalidYear,
    InvalidYearSeason,
}

impl SeasonError {
    /// What the fault says to a reader.
    pub fn message(&self) -> (r: &'static str)
        ensures
            r@ == match *self {
                SeasonError::InvalidSeason => "invalid season"@,
                SeasonError::InvalidYear => "invalid year"@,
                SeasonError::InvalidYearSeason => "invalid year season"@,
            },
    {
        match self {
            SeasonError::InvalidSeason => "invalid season",
            SeasonError::InvalidYear => "invalid year",
            SeasonError::InvalidYearSeason => "invalid year season",
        }
    }
}

/// The number under which the store keeps a season.
pub open spec fn season_code(s: Season) -> i32 {
    match s {
        Season::Winter => 1,
        Season::Spring => 2,
        Season::Summer => 3,
        Season::Fall => 4,
    }
}

/// The season that the store keeps under `n`.
pub open spec fn season_of_code(n: int) -> Option<Season> {
    if n == 1 {
        Some(Season::Winter)
    } else if n == 2 {
        Some(Season::Spring)
    } else if n == 3 {
        Some(Season::Summer)
    } else if n == 4 {
        Some(Season::Fall)
    } else {
        None
    }
}

/// The season that the catalogue names `s`.
pub open spec fn catalogue_season(s: Seq<char>) -> Option<Season> {
    if s == "WINTER"@ {
        Some(Season::Winter)
    } else if s == "SPRING"@ {
        Some(Season::Spring)
    } else if s == "SUMMER"@ {
        Some(Season::Summer)
    } else if s == "FALL"@ {
        Some(Season::Fall)
    } else {
        None
    }
}

/// The season whose name for readers is `s`.
pub open spec fn season_of_name(s: Seq<char>) -> Option<Season> {
    if s == "Winter"@ {
        Some(Season::Winter)
    } else if s == "Spring"@ {
        Some(Season::Spring)
    } else if s == "Summer"@ {
        Some(Season::Summer)
    } else if s == "Fall"@ {
        Some(Season::Fall)
    } else {
        None
    }
}

/// The name of a season for readers.
pub open spec fn season_name(s: Season) -> Seq<char> {
    match s {
        Season::Winter => "Winter"@,
        Season::Spring => "Spring"@,
        Season::Summer => "Summer"@,
        Season::Fall => "Fall"@,
    }
}

/// The season of a month of the calendar, January being 1.
pub open spec fn season_of_month(month: int) -> Option<Season> {
    if 1 <= month <= 3 {
        Some(Season::Winter)
    } else if 4 <= month <= 6 {
        Some(Season::Spring)
    } else if 7 <= month <= 9 {
        Some(Season::Summer)
    } else if 10 <= month <= 12 {
        Some(Season::Fall)
    } else {
        None
    }
}

impl Season {
    /// The number under which the store keeps the season.
    pub fn to_db(self) -> (r: i32)
        ensures
            r == season_code(self),
            1 <= r <= 4,
    {
        match self {
            Season::Winter => 1,
            Season::Spring => 2,
            Season::Summer => 3,
            Season::Fall => 4,
        }
    }

    /// Reads a season number of the store.
    pub fn from_db(db: i32) -> (r: Result<Season, SeasonError>)
        ensures
            r == match season_of_code(db as int) {
                Some(s) => Ok::<Season, SeasonError>(s),
                None => Err(SeasonError::InvalidSeason),
            },
    {
        if db == 1 {
            Ok(Season::Winter)
        } else if db == 2 {
            Ok(Season::Spring)
        } else if db == 3 {
            Ok(Season::Summer)
        } else if db == 4 {
            Ok(Season::Fall)
        } else {
            Err(SeasonError::InvalidSeason)
        }
    }

    /// Reads the season text of the catalogue.
    pub fn from_anilist_str(s: &str) -> (r: Result<Season, SeasonError>)
        ensures
            r == match catalogue_season(s@) {
                Some(x) => Ok::<Season, SeasonError>(x),
                None => Err(SeasonError::InvalidSeason),
            },
    {
        if str_eq(s, "WINTER") {
            Ok(Season::Winter)
        } else if str_eq(s, "SPRING") {
            Ok(Season::Spring)
        } else if str_eq(s, "SUMMER") {
            Ok(Season::Summer)
        } else if str_eq(s, "FALL") {
            Ok(Season::Fall)
        } else {
            Err(SeasonError::InvalidSeason)
        }
    }

    /// Reads the name of a season as `as_str` writes it.
    pub fn from_display_string(s: &str) -> (r: Result<Season, SeasonError>)
        ensures
            r == match season_of_name(s@) {
                Some(x) => Ok::<Season, SeasonError>(x),
                None => Err(SeasonError::InvalidSeason),
            },
    {
        if str_eq(s, "Winter") {
            Ok(Season::Winter)
        } else if str_eq(s, "Spring") {
            Ok(Season::Spring)
        } else if str_eq(s, "Summer") {
            Ok(Season::Summer)
        } else if str_eq(s, "Fall") {
            Ok(Season::Fall)
        } else {
            Err(SeasonError::InvalidSeason)
        }
    }

    /// The name of the season for readers.
    pub fn as_str(self) -> (r: &'static str)
        ensures
            r@ == season_name(self),
    {
        match self {
            Season::Winter => "Winter",
            Season::Spring => "Spring",
            Season::Summer => "Summer",
            Season::Fall => "Fall",
        }
    }

    /// The season of a month of the calendar, January being 1.
    pub fn from_month(month: u32) -> (r: Option<Season>)
        ensures
            r == season_of_month(month as int),
    {
        if 1 <= month && month <= 3 {
            Some(Season::Winter)
        } else if 4 <= month && month <= 6 {
            Some(Season::Spring)
        } else if 7 <= month && month <= 9 {
            Some(Season::Summer)
        } else if 10 <= month && month <= 12 {
            Some(Season::Fall)
        } else {
            None
        }
    }
}

/// A year and season packed into one number: the year times 100 plus the
/// season's number.
pub open spec fn packed(ys: YearSeason) -> int {
    ys.year * 100 + season_code(ys.season)
}

/// The year and season that a packed number holds. The year is the number
/// divided by 100 towards zero, the season's number is what is left.
pub open spec fn unpacked(db: int) -> Result<YearSeason, SeasonError> {
    if db <= -100 || db >= 6553600 {
        Err(SeasonError::InvalidYear)
    } else if db < 0 {
        Err(SeasonError::InvalidSeason)
    } else {
        match season_of_code(db % 100) {
            Some(s) => Ok(YearSeason { year: (db / 100) as u16, season: s }),
            None => Err(SeasonError::InvalidSeason),
        }
    }
}

/// The season before.
pub open spec fn before(ys: YearSeason) -> YearSeason {
    match ys.season {
        Season::Winter => YearSeason { year: (ys.year - 1) as u16, season: Season::Fall },
        Season::Spring => YearSeason { year: ys.year, season: Season::Winter },
        Season::Summer => YearSeason { year: ys.year, season: Season::Spring },
        Season::Fall => YearSeason { year: ys.year, season: Season::Summer },
    }
}

/// The season after.
pub open spec fn after(ys: YearSeason) -> YearSeason {
    match ys.season {
        Season::Winter => YearSeason { year: ys.year, season: Season::Spring },
        Season::Spring => YearSeason { year: ys.year, season: Season::Summer },
        Season::Summer => YearSeason { year: ys.year, season: Season::Fall },
        Season::Fall => YearSeason { year: (ys.year + 1) as u16, season: Season::Winter },
    }
}

/// The year of a text: decimal digits, with or without a plus sign before
/// them, that write a number of 16 bits.
pub open spec fn year_of_text(s: Seq<u8>) -> Option<nat> {
    if s.len() > 0 && s[0] == 0x2b {
        decimal_in(s.subrange(1, s.len() as int), 0xffff)
    } else {
        decimal_in(s, 0xffff)
    }
}

/// The season whose name for readers has the bytes `b`.
pub open spec fn season_of_bytes(b: Seq<u8>) -> Option<Season> {
    if b == encode_utf8("Winter"@) {
        Some(Season::Winter)
    } else if b == encode_utf8("Spring"@) {
        Some(Season::Spring)
    } else if b == encode_utf8("Summer"@) {
        Some(Season::Summer)
    } else if b == encode_utf8("Fall"@) {
        Some(Season::Fall)
    } else {
        None
    }
}

/// The year and season that the address text with the bytes `b` names: the
/// name of a season before the first hyphen, and the year after it.
pub open spec fn of_url_text(b: Seq<u8>) -> Result<YearSeason, SeasonError> {
    let p = first_index(b, 0x2d);
    if p >= b.len() {
        Err(SeasonError::InvalidYearSeason)
    } else {
        match season_of_bytes(b.subrange(0, p)) {
            None => Err(SeasonError::InvalidSeason),
            Some(season) => match year_of_text(b.subrange(p + 1, b.len() as int)) {
                None => Err(SeasonError::InvalidYearSeason),
                Some(y) => Ok(YearSeason { year: y as u16, season }),
            },
        }
    }
}

fn season_from_bytes(b: &[u8]) -> (r: Option<Season>)
    ensures
        r == season_of_bytes(b@),
{
    if bytes_eq(b, "Winter".as_bytes()) {
        Some(Season::Winter)
    } else if bytes_eq(b, "Spring".as_bytes()) {
        Some(Season::Spring)
    } else if bytes_eq(b, "Summer".as_bytes()) {
        Some(Season::Summer)
    } else if bytes_eq(b, "Fall".as_bytes()) {
        Some(Season::Fall)
    } else {
        None
    }
}

fn year_from_bytes(b: &[u8]) -> (r: Option<u16>)
    ensures
        year_of_text(b@) matches Some(y) ==> r == Some(y as u16),
        year_of_text(b@) is None ==> r is None,
{
    let digits = if b.len() > 0 && b[0] == 0x2b {
        slice_subrange(b, 1, b.len())
    } else {
        b
    };
    match parse_decimal(digits, 0xffff) {
        Some(y) => Some(y as u16),
        None => None,
    }
}

impl YearSeason {
    /// The number under which the store keeps this year and season.
    pub fn to_db(&self) -> (r: i32)
        ensures
            r == packed(*self),
    {
        self.year as i32 * 100 + self.season.to_db()
    }

    /// Reads a year and season number of the store.
    pub fn from_db(db: i32) -> (r: Result<YearSeason, SeasonError>)
        ensures
            r == unpacked(db as int),
    {
        if db <= -100 || db >= 6553600 {
            return Err(SeasonError::InvalidYear);
        }
        if db < 0 {
            return Err(SeasonError::InvalidSeason);
        }
        let year = (db / 100) as u16;
        match Season::from_db(db % 100) {
            Ok(season) => Ok(YearSeason { year, season }),
            Err(e) => Err(e),
        }
    }

    /// The year and season of a day, given by its year and its month.
    pub fn of_date(year: u16, month: u32) -> (r: Option<YearSeason>)
        ensures
            r == match season_of_month(month as int) {
                Some(season) => Some(YearSeason { year, season }),
                None => None,
            },
    {
        match Season::from_month(month) {
            Some(season) => Some(YearSeason { year, season }),
            None => None,
        }
    }

    /// Reads a year and season from a name for use in an address.
    pub fn from_url_str(s: &str) -> (r: Result<YearSeason, SeasonError>)
        ensures
            r == of_url_text(s.spec_bytes()),
    {
        let b = s.as_bytes();
        let p = match find_byte(b, 0x2d) {
            Some(p) => p,
            None => {
                return Err(SeasonError::InvalidYearSeason);
            },
        };
        let season = match season_from_bytes(slice_subrange(b, 0, p)) {
            Some(season) => season,
            None => {
                return Err(SeasonError::InvalidSeason);
            },
        };
        match year_from_bytes(slice_subrange(b, p + 1, b.len())) {
            Some(year) => Ok(YearSeason { year, season }),
            None => Err(SeasonError::InvalidYearSeason),
        }
    }

    /// The season before this one.
    pub fn prev(&self) -> (r: YearSeason)
        requires
            self.season == Season::Winter ==> self.year > 0,
        ensures
            r == before(*self),
    {
        match self.season {
            Season::Winter => YearSeason { year: self.year - 1, season: Season::Fall },
            Season::Spring => YearSeason { year: self.year, season: Season::Winter },
            Season::Summer => YearSeason { year: self.year, season: Season::Spring },
            Season::Fall => YearSeason { year: self.year, season: Season::Summer },
        }
    }

    /// The season after this one.
    pub fn next(&self) -> (r: YearSeason)
        requires
            self.season == Season::Fall ==> self.year < u16::MAX,
        ensures
            r == after(*self),
    {
        match self.season {
            Season::Winter => YearSeason { year: self.year, season: Season::Spring },
            Season::Spring => YearSeason { year: self.year, season: Season::Summer },
            Season::Summer => YearSeason { year: self.year, season: Season::Fall },
            Season::Fall => YearSeason { year: self.year + 1, season: Season::Winter },
        }
    }

    /// The season's name, a space, and the year.
    pub fn display_name(&self) -> (r: String)
        ensures
            r@ == season_name(self.season) + " "@ + ascii_text(decimal_bytes(self.year as nat)),
    {
        let mut digits: Vec<u8> = Vec::new();
        push_decimal(&mut digits, self.year as u64);
        proof {
            lemma_decimal_bytes(self.year as nat);
            assert(digits@ =~= decimal_bytes(self.year as nat));
        }
        let year = ascii_string(digits);
        let r = self.season.as_str().to_owned();
        let r = r.concat(" ");
        r.concat(year.as_str())
    }

    /// The season's name, a hyphen, and the year: a name for use in an
    /// address.
    pub fn to_url_str(&self) -> (r: String)
        ensures
            r@ == season_name(self.season) + "-"@ + ascii_text(decimal_bytes(self.year as nat)),
    {
        let mut digits: Vec<u8> = Vec::new();
        push_decimal(&mut digits, self.year as u64);
        proof {
            lemma_decimal_bytes(self.year as nat);
            assert(digits@ =~= decimal_bytes(self.year as nat));
        }
        let year = ascii_string(digits);
        let r = self.season.as_str().to_owned();
        let r = r.concat("-");
        r.concat(year.as_str())
    }
}

/// A year and season comes back from its store number.
pub proof fn lemma_packed_round_trip(ys: YearSeason)
    ensures
        unpacked(packed(ys)) == Ok::<YearSeason, SeasonError>(ys),
{
}

/// The season after the season before is the season itself, and the other
/// way round.
pub proof fn lemma_before_after(ys: YearSeason)
    ensures
        (ys.season == Season::Winter ==> ys.year > 0) ==> after(before(ys)) == ys,
        (ys.season == Season::Fall ==> ys.year < u16::MAX) ==> before(after(ys)) == ys,
{
}

} // verus!

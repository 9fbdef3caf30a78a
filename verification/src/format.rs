//! The format of a show.

use crate::text::str_eq;
use vstd::prelude::*;

verus! {

/// Format of a show. "Show" is the generic term for any of these.
#[derive(Copy, Clone, Debug, PartialEq, Eq, Structural)]
pub enum Format {
    Tv,
    TvShort,
    Movie,
    Special,
    Ova,
    Ona,
}

/// A text or number that names no format.
#[derive(Copy, Clone, Debug, PartialEq, Eq, Structural)]
pub struct InvalidFormat;

impl InvalidFormat {
    /// What the fault says to a reader.
    pub fn message(&self) -> (r: &'static str)
        ensures
            r@ == "invalid format"@,
    {
        "invalid format"
    }
}

/// The format that the catalogue names `n`.
pub open spec fn catalogue_format(n: Seq<char>) -> Option<Format> {
    if n == "TV"@ {
        Some(Format::Tv)
    } else if n == "TV_SHORT"@ {
        Some(Format::TvShort)
    } else if n == "MOVIE"@ {
        Some(Format::Movie)
    } else if n == "SPECIAL"@ {
        Some(Format::Special)
    } else if n == "OVA"@ {
        Some(Format::Ova)
    } else if n == "ONA"@ {
        Some(Format::Ona)
    } else {
        None
    }
}

/// The number under which the store keeps a format.
pub open spec fn format_code(f: Format) -> i32 {
    match f {
        Format::Tv => 1,
        Format::TvShort => 2,
        Format::Movie => 3,
        Format::Special => 4,
        Format::Ova => 5,
        Format::Ona => 6,
    }
}

/// The format that the store keeps under `n`.
pub open spec fn format_of_code(n: i32) -> Option<Format> {
    if n == 1 {
        Some(Format::Tv)
    } else if n == 2 {
        Some(Format::TvShort)
    } else if n == 3 {
        Some(Format::Movie)
    } else if n == 4 {
        Some(Format::Special)
    } else if n == 5 {
        Some(Format::Ova)
    } else if n == 6 {
        Some(Format::Ona)
    } else {
        None
    }
}

/// The name of a format for readers.
pub open spec fn format_name(f: Format) -> Seq<char> {
    match f {
        Format::Tv => "TV Show"@,
        Format::TvShort => "TV Short"@,
        Format::Movie => "Movie"@,
        Format::Special => "Special"@,
        Format::Ova => "OVA"@,
        Format::Ona => "ONA"@,
    }
}

impl Format {
    /// Reads the format text of the catalogue.
    pub fn from_anilist(n: &str) -> (r: Result<Format, InvalidFormat>)
        ensures
            r == match catalogue_format(n@) {
                Some(f) => Ok::<Format, InvalidFormat>(f),
                None => Err(InvalidFormat),
            },
    {
        if str_eq(n, "TV") {
            Ok(Format::Tv)
        } else if str_eq(n, "TV_SHORT") {
            Ok(Format::TvShort)
        } else if str_eq(n, "MOVIE") {
            Ok(Format::Movie)
        } else if str_eq(n, "SPECIAL") {
            Ok(Format::Special)
        } else if str_eq(n, "OVA") {
            Ok(Format::Ova)
        } else if str_eq(n, "ONA") {
            Ok(Format::Ona)
        } else {
            Err(InvalidFormat)
        }
    }

    /// The number under which the store keeps the format.
    pub fn to_db(self) -> (r: i32)
        ensures
            r == format_code(self),
            1 <= r <= 6,
    {
        match self {
            Format::Tv => 1,
            Format::TvShort => 2,
            Format::Movie => 3,
            Format::Special => 4,
            Format::Ova => 5,
            Format::Ona => 6,
        }
    }

    /// Reads a format number of the store.
    pub fn from_db(n: i32) -> (r: Result<Format, InvalidFormat>)
        ensures
            r == match format_of_code(n) {
                Some(f) => Ok::<Format, InvalidFormat>(f),
                None => Err(InvalidFormat),
            },
    {
        if n == 1 {
            Ok(Format::Tv)
        } else if n == 2 {
            Ok(Format::TvShort)
        } else if n == 3 {
            Ok(Format::Movie)
        } else if n == 4 {
            Ok(Format::Special)
        } else if n == 5 {
            Ok(Format::Ova)
        } else if n == 6 {
            Ok(Format::Ona)
        } else {
            Err(InvalidFormat)
        }
    }

    /// The name of the format for readers.
    pub fn as_str(self) -> (r: &'static str)
        ensures
            r@ == format_name(self),
    {
        match self {
            Format::Tv => "TV Show",
            Format::TvShort => "TV Short",
            Format::Movie => "Movie",
            Format::Special => "Special",
            Format::Ova => "OVA",
            Format::Ona => "ONA",
        }
    }
}

/// A format comes back from its store number.
pub proof fn lemma_format_code_round_trip(f: Format)
    ensures
        format_of_code(format_code(f)) == Some(f),
{
}

/// A store number comes back from the format it names.
pub proof fn lemma_format_of_code_round_trip(n: i32)
    ensures
        format_of_code(n) matches Some(f) ==> format_code(f) == n,
{
}

} // verus!

//! The rules of talking to the catalogue: one request at a time, a pause
//! between requests, and patience where the catalogue asks for it.

use crate::text::{decimal_in, parse_decimal};
use vstd::prelude::*;
use vstd::slice::slice_subrange;
use vstd::string::*;

verus! {

/// What the catalogue tells of the page it sent.
pub struct PageInfo {
    pub total: i32,
    pub per_page: i32,
    pub current_page: i32,
    pub last_page: i32,
    pub has_next_page: bool,
}

/// The address of the catalogue.
pub const ENDPOINT: &'static str = "https://graphql.anilist.co";

/// Seconds between the starts of two requests.
pub const REQUEST_GAP: u64 = 1;

/// Seconds added to the wait that the catalogue asks for.
pub const RETRY_SLACK: u64 = 10;

/// Seconds to wait after a failure that is not a limit of the rate.
pub const FAILURE_DELAY: u64 = 60;

/// Number of entries on a page.
pub const PAGE_SIZE: i32 = 50;

/// The number that a header writes: decimal digits, with or without a plus
/// sign before them, that fit 64 bits.
pub open spec fn header_number(s: Seq<u8>) -> Option<nat> {
    if s.len() > 0 && s[0] == 0x2b {
        decimal_in(s.subrange(1, s.len() as int), u64::MAX as nat)
    } else {
        decimal_in(s, u64::MAX as nat)
    }
}

/// How a request ended, as far as the rules are concerned.
#[derive(Copy, Clone, Debug, PartialEq, Eq, Structural)]
pub enum Outcome {
    /// The answer carries data.
    Data,
    /// The catalogue asks to wait this many seconds, slack included.
    RetryAfter(u64),
    /// The answer cannot be used.
    Failed,
}

/// What an answer means: a `Retry-After` header makes it a failure, with
/// the wait that it names where it names one; else it is good if and only
/// if it carries data.
pub open spec fn outcome_of(retry_after: Option<Seq<u8>>, has_data: bool) -> Outcome {
    match retry_after {
        Some(h) => match header_number(h) {
            Some(n) => Outcome::RetryAfter(
                if n + RETRY_SLACK > u64::MAX {
                    u64::MAX
                } else {
                    (n + RETRY_SLACK) as u64
                },
            ),
            None => Outcome::Failed,
        },
        None => if has_data {
            Outcome::Data
        } else {
            Outcome::Failed
        },
    }
}

/// The seconds to wait before the next try.
pub open spec fn delay_of(o: Outcome) -> u64 {
    match o {
        Outcome::Data => 0,
        Outcome::RetryAfter(n) => n,
        Outcome::Failed => FAILURE_DELAY,
    }
}

/// Judges an answer of the catalogue by its `Retry-After` header, where it
/// has one, and by whether its body carries data.
pub fn classify(retry_after: Option<&str>, has_data: bool) -> (r: Outcome)
    ensures
        r == outcome_of(
            match retry_after {
                Some(h) => Some(h.spec_bytes()),
                None => None,
            },
            has_data,
        ),
{
    match retry_after {
        Some(h) => {
            let b = h.as_bytes();
            let digits = if b.len() > 0 && b[0] == 0x2b {
                slice_subrange(b, 1, b.len())
            } else {
                b
            };
            match parse_decimal(digits, u64::MAX) {
                Some(n) => Outcome::RetryAfter(n.saturating_add(RETRY_SLACK)),
                None => Outcome::Failed,
            }
        },
        None => if has_data {
            Outcome::Data
        } else {
            Outcome::Failed
        },
    }
}

/// The seconds to wait after an answer before the request is tried again;
/// none after a good answer.
pub fn retry_delay(o: Outcome) -> (r: u64)
    ensures
        r == delay_of(o),
{
    match o {
        Outcome::Data => 0,
        Outcome::RetryAfter(n) => n,
        Outcome::Failed => FAILURE_DELAY,
    }
}

} // verus!

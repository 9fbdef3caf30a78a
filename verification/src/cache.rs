//! Values that are kept for a while and made anew when they are old.

use crate::strings::share;
use std::sync::Arc;
use vstd::prelude::*;

verus! {

/// A value with the time at which it gets old, in seconds, and the number
/// of times it was made.
pub struct Cached<T> {
    pub eol: u64,
    pub version: u64,
    pub data: Arc<T>,
}

/// What to do with what the cache holds.
#[derive(Copy, Clone, Debug, PartialEq, Eq, Structural)]
pub enum Lookup {
    /// Hand it out.
    Hit,
    /// Make the value anew, unless someone else made it since the version
    /// that was seen.
    Reload { seen: Option<u64> },
}

/// The seconds for which a value that gets old at `eol` may still be used
/// at the time `now`, as far as 32 bits count them.
pub open spec fn age_left(eol: u64, now: u64) -> u32 {
    if eol < now {
        0
    } else {
        ((eol - now) % 0x1_0000_0000) as u32
    }
}

impl<T> Cached<T> {
    /// The seconds for which the value may still be used.
    pub fn max_age(&self, now: u64) -> (r: u32)
        ensures
            r == age_left(self.eol, now),
    {
        if self.eol < now {
            0
        } else {
            ((self.eol - now) % 0x1_0000_0000) as u32
        }
    }

    /// Another handle to the same value.
    pub fn clone(&self) -> (r: Self)
        ensures
            r.eol == self.eol,
            r.version == self.version,
            r.data == self.data,
    {
        Cached { eol: self.eol, version: self.version, data: share(&self.data) }
    }
}

/// What a reader does with what the cache holds at the time `now`: a value
/// that is not old yet is handed out, an old one or none is made anew.
pub fn lookup<T>(held: &Option<Cached<T>>, now: u64) -> (r: Lookup)
    ensures
        r == match *held {
            None => Lookup::Reload { seen: None },
            Some(c) => if c.eol <= now {
                Lookup::Reload { seen: Some(c.version) }
            } else {
                Lookup::Hit
            },
        },
{
    match held {
        None => Lookup::Reload { seen: None },
        Some(c) => if c.eol <= now {
            Lookup::Reload { seen: Some(c.version) }
        } else {
            Lookup::Hit
        },
    }
}

/// The version of the value that a reader makes anew, who saw the version
/// `seen` and finds the version `actual` once it is its turn; none where
/// someone else made the value in between, so that the reader takes that.
pub fn next_version(actual: Option<u64>, seen: Option<u64>) -> (r: Option<u64>)
    requires
        actual matches Some(v) ==> v < u64::MAX,
    ensures
        r == if actual != seen {
            None
        } else {
            match actual {
                Some(v) => Some((v + 1) as u64),
                None => Some(1u64),
            }
        },
{
    let same = match (actual, seen) {
        (None, None) => true,
        (Some(a), Some(b)) => a == b,
        _ => false,
    };
    if !same {
        return None;
    }
    match actual {
        Some(v) => Some(v + 1),
        None => Some(1),
    }
}

} // verus!

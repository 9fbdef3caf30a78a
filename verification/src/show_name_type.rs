//! The kinds of names that a show has in the store.

use vstd::prelude::*;

verus! {

/// The numbers under which the store keeps the kinds of names.
pub struct ShowNameType;

impl ShowNameType {
    /// The name in Latin letters.
    pub const ROMAJI: i32 = 1;

    /// The English name.
    pub const ENGLISH: i32 = 2;

    /// Any further name.
    pub const ADDITIONAL: i32 = 3;
}

} // verus!

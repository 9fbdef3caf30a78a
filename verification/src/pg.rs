//! Reaching the store: where it is, and when a lost connection is made
//! anew.

use vstd::prelude::*;
use vstd::string::*;

verus! {

/// Seconds to wait before the store is tried again.
pub const RECONNECT_DELAY: u64 = 10;

/// Where the store is.
pub struct PgConnector {
    connection_string: String,
}

impl PgConnector {
    /// The text that tells where the store is.
    pub closed spec fn view(&self) -> Seq<char> {
        self.connection_string@
    }

    /// A connector to the store that the text names.
    pub fn new(connection_string: String) -> (r: Self)
        ensures
            r@ == connection_string@,
    {
        PgConnector { connection_string }
    }

    /// The text that tells where the store is.
    pub fn connection_string(&self) -> (r: &str)
        ensures
            r@ == self@,
    {
        self.connection_string.as_str()
    }
}

/// Tells whether the one who found the connection of version `seen`
/// broken makes the new connection: only if the holder still has this
/// version. Else someone else made a new one in between, and that one is
/// used.
pub fn must_connect(seen: u64, held: u64) -> (r: bool)
    ensures
        r == (seen == held),
{
    seen == held
}

/// The version of a connection made in the place of version `seen`.
pub fn next_version(seen: u64) -> (r: u64)
    requires
        seen < u64::MAX,
    ensures
        r == seen + 1,
{
    seen + 1
}

} // verus!

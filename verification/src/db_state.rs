//! The rows of the store's state table that the processor reads, writes
//! and is told about.

use crate::text::str_eq;
use vstd::prelude::*;

verus! {

/// A row of the state table.
#[derive(Copy, Clone, Debug, PartialEq, Eq, Structural)]
pub enum StateKey {
    MaxNyaaSiId,
    RematchUnmatched,
    LastShowsUpdate,
    LastScheduleUpdate,
    InitialSetup,
}

/// The channel on which the store tells of changed rows.
pub const CHANNEL: &'static str = "state_change";

/// The name of a row.
pub open spec fn key_name(k: StateKey) -> Seq<char> {
    match k {
        StateKey::MaxNyaaSiId => "max_nyaa_si_id"@,
        StateKey::RematchUnmatched => "rematch_unmatched"@,
        StateKey::LastShowsUpdate => "last_shows_update"@,
        StateKey::LastScheduleUpdate => "last_schedule_update"@,
        StateKey::InitialSetup => "initial_setup"@,
    }
}

/// The row whose change wakes a task: every row but `initial_setup`.
pub open spec fn watched_key(s: Seq<char>) -> Option<StateKey> {
    if s == "max_nyaa_si_id"@ {
        Some(StateKey::MaxNyaaSiId)
    } else if s == "rematch_unmatched"@ {
        Some(StateKey::RematchUnmatched)
    } else if s == "last_shows_update"@ {
        Some(StateKey::LastShowsUpdate)
    } else if s == "last_schedule_update"@ {
        Some(StateKey::LastScheduleUpdate)
    } else {
        None
    }
}

impl StateKey {
    /// The name of the row.
    pub fn name(self) -> (r: &'static str)
        ensures
            r@ == key_name(self),
    {
        match self {
            StateKey::MaxNyaaSiId => "max_nyaa_si_id",
            StateKey::RematchUnmatched => "rematch_unmatched",
            StateKey::LastShowsUpdate => "last_shows_update",
            StateKey::LastScheduleUpdate => "last_schedule_update",
            StateKey::InitialSetup => "initial_setup",
        }
    }
}

/// Tells which task the change of a row wakes: the one that waits on the
/// row that the payload names; none for any other payload.
pub fn handle_str(payload: &str) -> (r: Option<StateKey>)
    ensures
        r == watched_key(payload@),
{
    if str_eq(payload, "max_nyaa_si_id") {
        Some(StateKey::MaxNyaaSiId)
    } else if str_eq(payload, "rematch_unmatched") {
        Some(StateKey::RematchUnmatched)
    } else if str_eq(payload, "last_shows_update") {
        Some(StateKey::LastShowsUpdate)
    } else if str_eq(payload, "last_schedule_update") {
        Some(StateKey::LastScheduleUpdate)
    } else {
        None
    }
}

/// What the row `rematch_unmatched` asks for.
#[derive(Copy, Clone, Debug, PartialEq, Eq, Structural)]
pub enum RematchMode {
    /// Nothing.
    Idle,
    /// Match the torrents without a show again.
    Unmatched,
    /// Forget all matches and match every torrent again.
    All,
}

/// What a value of the row asks for: 1 for the torrents without a show, 2 for
/// all, anything else for nothing.
pub open spec fn rematch_of(value: i32) -> RematchMode {
    if value == 1 {
        RematchMode::Unmatched
    } else if value == 2 {
        RematchMode::All
    } else {
        RematchMode::Idle
    }
}

impl RematchMode {
    /// Reads the value of the row; a value that is not known asks for
    /// nothing.
    pub fn from_db(value: i32) -> (r: RematchMode)
        ensures
            r == rematch_of(value),
    {
        if value == 1 {
            RematchMode::Unmatched
        } else if value == 2 {
            RematchMode::All
        } else {
            RematchMode::Idle
        }
    }

    /// Whether all links between torrents and shows are dropped first.
    pub fn drops_links(self) -> (r: bool)
        ensures
            r == (self == RematchMode::All),
    {
        match self {
            RematchMode::All => true,
            _ => false,
        }
    }
}

} // verus!

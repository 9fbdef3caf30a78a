//! The settings of the processor. Spans of time are in seconds.

use vstd::prelude::*;

verus! {

/// All settings.
pub struct Config {
    pub db: Db,
    pub anilist: Anilist,
    pub nyaa: Nyaa,
    pub http: Http,
}

/// Where the store is.
pub struct Db {
    pub connection_string: String,
}

/// How the processor names itself to the servers it asks.
pub struct Http {
    pub user_agent: String,
}

/// How long to wait after the start before the catalogue is asked, and how
/// often it is asked for airing times and for shows.
pub struct Anilist {
    pub startup_grace_period: u64,
    pub schedule_poll_interval: u64,
    pub shows_poll_interval: u64,
}

/// How often the torrent listing is read.
pub struct Nyaa {
    pub scrape_interval: u64,
}

} // verus!

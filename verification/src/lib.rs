//! The matching core of a torrent catalogue.
//!
//! A torrent title is written by hand and noisy. This crate decides which
//! show of a catalogue it names:
//!
//! - [`heap`] is a prefix tree over `[a-z0-9]` keys, packed into one array;
//! - [`strings`] keeps names in one buffer;
//! - [`show_db`] holds the shows, their names and the indexes over their
//!   search keys;
//! - [`title_analyzer`] normalizes a title, cuts it into blocks and finds
//!   the part that names the show;
//! - [`matcher`] resolves that part against the catalogue.
//!
//! Around the core stand the rules of the programs that feed it: how to
//! talk to the upstream catalogue ([`anilist_client`], [`anilist_shows`],
//! [`schedule`]), how to pace a task ([`scheduled`], [`sleeper`]), and how
//! to take in the torrent listing ([`nyaa`]).
//!
//! Texts are bytes throughout: a title is the UTF-8 encoding of its
//! characters, and places in a title count bytes.

pub mod anilist_client;
pub mod anilist_shows;
pub mod cache;
pub mod config;
pub mod db_state;
pub mod diff;
pub mod format;
pub mod heap;
pub mod matcher;
pub mod nyaa;
pub mod pattern;
pub mod pg;
pub mod schedule;
pub mod scheduled;
pub mod season;
pub mod seqs;
pub mod show_db;
pub mod show_name_type;
pub mod site_text;
pub mod sleeper;
pub mod small;
pub mod strings;
pub mod text;
pub mod title_analyzer;

//! Tracks how often custom emotes are used in a chat guild.
//!
//! The crate keeps an append-only log of usage events, one per observed
//! occurrence of a trackable emote, and derives from it a ranked,
//! paginated leaderboard together with per-emote counts.

use vstd::prelude::*;

pub mod canonical;
pub mod clock;
pub mod commands;
pub mod filter;
pub mod ingest;
pub mod paging;
pub mod ranking;
pub mod store;
pub mod text;

verus! {

/// Errors raised by the usage store.
#[derive(Clone, Copy, Debug, PartialEq, Eq, Structural)]
pub enum StoreError {
    /// The emote reference was malformed and no canonical key could be
    /// formed from it.
    InvalidInput,
    /// A removal found no matching usage event.
    NotFound,
    /// The underlying durable storage could not be reached.
    Unavailable,
}

} // verus!

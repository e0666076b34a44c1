//! The states of replay-parse requests; sending them happens outside the
//! library.

use crate::match_storage::MatchStorage;
use vstd::prelude::*;

verus! {

/// Where one parse request stands.
#[derive(Debug, Clone, Copy, PartialEq, Eq, Structural)]
pub enum ParseState {
    Sent,
    ReplayMissing,
    Parsed,
}

/// One match's parse request with its state.
#[derive(Debug)]
pub struct ParseRequestState {
    pub match_id: String,
    pub state: ParseState,
}

/// The handle that tracks parse requests per guild.
pub struct ParseRequester {
    pub storage: MatchStorage,
}

impl ParseRequester {
    pub fn new() -> (r: ParseRequester) {
        ParseRequester { storage: MatchStorage::new() }
    }
}

} // verus!

//! The handle for the match-statistics API; requests are issued by the
//! caller outside the library.

use vstd::prelude::*;

verus! {

/// Names the API endpoints used to fetch guild and match data.
pub struct OpenDotaClient {}

impl OpenDotaClient {
    pub fn new() -> (r: OpenDotaClient) {
        Self {  }
    }
}

} // verus!

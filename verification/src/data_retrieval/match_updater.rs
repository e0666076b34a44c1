//! The handle that refreshes stored matches once their replays parse;
//! the polling itself runs outside the library.

use crate::data_retrieval::opendota_client::OpenDotaClient;
use crate::match_storage::MatchStorage;
use vstd::prelude::*;

verus! {

pub struct MatchUpdater {
    pub storage: MatchStorage,
    pub od_client: OpenDotaClient,
}

impl MatchUpdater {
    pub fn new() -> (r: MatchUpdater) {
        MatchUpdater { storage: MatchStorage::new(), od_client: OpenDotaClient::new() }
    }
}

} // verus!

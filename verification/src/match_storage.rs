//! The handle for the per-guild match cache files: the library decides the
//! file names, the caller does the reading and writing.

use vstd::prelude::*;

verus! {

pub type GuildId = String;

/// Names the per-guild cache files: requests, ids and match info.
pub struct MatchStorage {}

impl MatchStorage {
    pub fn new() -> (r: MatchStorage) {
        MatchStorage {  }
    }

    /// The file that records parse requests.
    pub fn req_filename(&self, guild_id: &GuildId) -> (r: String)
        ensures
            r@ == guild_id@ + "_req"@,
    {
        let mut s = guild_id.clone();
        s.append("_req");
        s
    }

    /// The file that records cached match ids.
    pub fn ids_filename(&self, guild_id: &GuildId) -> (r: String)
        ensures
            r@ == guild_id@ + "_ids"@,
    {
        let mut s = guild_id.clone();
        s.append("_ids");
        s
    }

    /// The file that records cached match info.
    pub fn info_filename(&self, guild_id: &GuildId) -> (r: String)
        ensures
            r@ == guild_id@ + "_info"@,
    {
        let mut s = guild_id.clone();
        s.append("_info");
        s
    }
}

} // verus!

//! Win-rate statistics over a corpus of team matches.
//!
//! The library aggregates win/loss counts over combinations of players,
//! heroes and roles found in a corpus of match records, and derives ranked,
//! synergy and record statistics from those counts.  Every analysis is a
//! pure function from the corpus (and a hero catalog, where needed) to a
//! value, with a contract that pins the result down exactly.

pub mod accmap;
pub mod analyser;
pub mod analyzers;
pub mod data_retrieval;
pub mod fracs;
pub mod heroes_info;
pub mod input_cache;
pub mod jsonval;
pub mod match_stats;
pub mod match_storage;
pub mod orders;
pub mod parse_requester;
pub mod storage;
pub mod strutil;

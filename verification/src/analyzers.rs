//! The aggregation analyses: win-ratio counters and the per-analysis
//! subset enumerations over a match corpus.

pub mod analyzers_utils;
pub mod heroes;
pub mod players;
pub mod roles;
pub mod synergy;
pub mod team;
pub mod winratio;

pub use winratio::WinRatio;

//! Handles for the data-retrieval side; the network calls themselves live
//! outside the library.

pub mod match_updater;
pub mod opendota_client;

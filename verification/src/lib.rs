//! Query service core for versioned, structured game data: projection filter
//! grammars, search result aggregation, and the version catalog.

pub mod error;
pub mod utility;
pub mod search;
pub mod version;
pub mod http;
pub mod read;

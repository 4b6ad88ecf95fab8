//! Search: ranking and paging of per-sheet matches, and the per-version
//! index set they come from.

pub mod index;
pub mod query;
pub mod ranking;
pub mod search;
pub mod version;

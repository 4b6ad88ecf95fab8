//! Versions of the corpus: their keys, their contents, and the catalog that
//! tracks them.

pub mod key;
pub mod manager;
pub mod version;

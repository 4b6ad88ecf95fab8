//! The filter strings that requests carry.

pub mod api1;
pub mod column_filter;
pub mod column_laws;

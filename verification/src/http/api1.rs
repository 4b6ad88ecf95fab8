//! The first version of the request interface.

pub mod read;

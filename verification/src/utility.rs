//! Small shared building blocks.

pub mod assoc;
pub mod text;
pub mod warnings;

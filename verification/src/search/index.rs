//! What one sheet's index hands back.

use vstd::prelude::*;

verus! {

/// A match as an index reports it. The score is the engine's relevance as an
/// integer that orders the way the relevance does: higher is better.
#[derive(Debug, Clone, Copy, PartialEq, Eq)]
pub struct IndexResult {
    pub score: u32,
    pub row_id: u32,
    pub subrow_id: u16,
}

} // verus!

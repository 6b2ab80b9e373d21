//! The top-level completion engine abstraction.
use vstd::prelude::*;
use crate::error::BmError;
use crate::store::CompletionEntry;

verus! {

/// Trait for the top-level completion engine — one method, easy to mock.
pub trait CompletionEngine {
    /// Produce completions for the given buffer at `position`.
    fn complete(&self, buffer: &str, position: usize) -> Result<Vec<CompletionEntry>, BmError>;
}

} // verus!

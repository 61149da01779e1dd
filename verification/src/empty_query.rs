//! What a query without tokens lists.

use vstd::prelude::*;

verus! {

/// The order in which a query without tokens lists the applications that were
/// used.
#[derive(Debug, Clone, Copy, PartialEq, Eq, Structural)]
pub enum EmptyQueryMode {
    /// The most recently launched first.
    Recency,
    /// The most often launched first.
    Frequency,
}

} // verus!

//! Fixed configuration shared by the indexer and the query evaluator.

use vstd::prelude::*;

verus! {

/// Width in bytes of the term column of every dictionary record. Longer terms
/// are truncated to this width when the dictionary is written.
pub const TERM_LENGTH: usize = 20;

/// Default capacity of the per-document hash table.
pub const DOC_HT_SIZE: usize = 50000;

/// Default capacity of the global hash table; a large prime, so that the
/// stride-3 probe visits every slot.
pub const GLOB_HT_SIZE: usize = 3000017;

/// Scaling multiplier applied to the TF-IDF weight before truncation to an
/// integer.
pub const WEIGHT_MULTIPLIER: usize = 100000;

} // verus!

//! How much work one multi-vector query may ask for.
//!
//! An index search runs one branch for each query vector, and each branch fetches candidates in
//! proportion to the number of results asked for, so the size of the request does not bound the
//! work.

use vstd::prelude::*;

verus! {

/// The greatest number of query vectors.
pub const MAX_QUERY_VECTORS: usize = 128;

/// The greatest number of results asked for, summed over the query vectors.
pub const MAX_QUERY_VECTOR_CANDIDATES: usize = 100_000;

/// Whether `query_vectors` query vectors that ask for `k` results each are within the limits.
pub fn is_within_limits(query_vectors: usize, k: usize) -> (within: bool)
    ensures
        within <==> query_vectors <= MAX_QUERY_VECTORS && query_vectors * k
            <= MAX_QUERY_VECTOR_CANDIDATES,
        within <==> query_vectors <= 128 && query_vectors * k <= 100_000,
{
    if query_vectors > MAX_QUERY_VECTORS {
        return false;
    }
    match query_vectors.checked_mul(k) {
        Some(work) => work <= MAX_QUERY_VECTOR_CANDIDATES,
        None => false,
    }
}

} // verus!

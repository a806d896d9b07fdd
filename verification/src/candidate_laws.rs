//! What holds of combining candidates, in terms of the candidates alone.

use crate::accumulator;
use crate::error::Failure;
use crate::float;
use crate::indexed;
use crate::indexed::{CandidateBatch, QueryCandidates};
use crate::laws;
use crate::score_laws;
use vstd::prelude::*;

verus! {

/// Whether one of the candidates is for row `id`.
pub open spec fn finds(candidates: Seq<(u64, u32)>, id: u64) -> bool {
    exists|i: int| 0 <= i < candidates.len() && (#[trigger] candidates[i]).0 == id
}

/// Whether a query vector with these candidates adds `term` to the distance of row `id`: the least
/// distance of the candidates for the row; without one, the greatest distance of all candidates;
/// without any candidate, one.
pub open spec fn is_share(candidates: Seq<(u64, u32)>, id: u64, term: int) -> bool {
    if finds(candidates, id) {
        &&& exists|i: int|
            0 <= i < candidates.len() && (#[trigger] candidates[i]).0 == id && float::value(
                candidates[i].1,
            ) == term
        &&& forall|i: int|
            0 <= i < candidates.len() && (#[trigger] candidates[i]).0 == id ==> term
                <= float::value(candidates[i].1)
    } else if candidates.len() > 0 {
        &&& exists|i: int|
            0 <= i < candidates.len() && float::value((#[trigger] candidates[i]).1) == term
        &&& forall|i: int|
            0 <= i < candidates.len() ==> float::value((#[trigger] candidates[i]).1) <= term
    } else {
        term == float::value(0x3f80_0000)
    }
}

/// A query vector adds to a row's distance the least distance of the candidates for the row; where it
/// missed the row, the greatest distance that it found; and one only where it found nothing at all.
pub proof fn law_missed_rows_cost_the_greatest_distance(candidates: Seq<(u64, u32)>, id: u64)
    ensures
        is_share(candidates, id, indexed::contribution(candidates, id)),
        indexed::least(candidates, id) is Some <==> finds(candidates, id),
{
    laws::law_least_is_least(candidates, id);
    laws::law_greatest_is_greatest(candidates);
}

/// What stands for a missed row is what a query vector adds for any row that it did not find.
pub proof fn law_missing_distance_is_for_rows_not_found(candidates: Seq<(u64, u32)>, id: u64)
    requires
        !finds(candidates, id),
    ensures
        is_share(candidates, id, indexed::missing_distance(candidates)),
{
    laws::law_greatest_is_greatest(candidates);
}

/// A query vector adds one amount for each row.
pub proof fn law_share_is_a_function(candidates: Seq<(u64, u32)>, id: u64, left: int, right: int)
    requires
        is_share(candidates, id, left),
        is_share(candidates, id, right),
    ensures
        left == right,
{
}

/// The distance of a row is the sum of what each of the query vectors adds, in order.
pub proof fn law_total_is_the_sum_of_shares(
    queries: Seq<Seq<(u64, u32)>>,
    id: u64,
    terms: Seq<int>,
)
    requires
        terms.len() == queries.len(),
        forall|q: int| 0 <= q < queries.len() ==> is_share(#[trigger] queries[q], id, terms[q]),
    ensures
        indexed::total(queries, id) == accumulator::rounded_sum(terms),
{
    let own = queries.map_values(
        |candidates: Seq<(u64, u32)>| indexed::contribution(candidates, id),
    );
    assert forall|q: int| 0 <= q < terms.len() implies own[q] == terms[q] by {
        law_missed_rows_cost_the_greatest_distance(queries[q], id);
        law_share_is_a_function(queries[q], id, own[q], terms[q]);
    }
    assert(own =~= terms);
}

/// A row is in the result exactly where one of the query vectors has a candidate for it.
pub proof fn law_found_rows_have_a_candidate(queries: Seq<Seq<(u64, u32)>>, id: u64)
    ensures
        indexed::is_found(queries, id) <==> exists|q: int|
            0 <= q < queries.len() && finds(#[trigger] queries[q], id),
{
    assert forall|q: int| 0 <= q < queries.len() implies (indexed::least(
        #[trigger] queries[q],
        id,
    ) is Some <==> finds(queries[q], id)) by {
        law_missed_rows_cost_the_greatest_distance(queries[q], id);
    }
}

/// A row that all query vectors missed has the sum of what stands for missed rows.
pub proof fn law_total_of_a_missed_row(queries: Seq<Seq<(u64, u32)>>, id: u64)
    requires
        forall|q: int| 0 <= q < queries.len() ==> !finds(#[trigger] queries[q], id),
    ensures
        indexed::total(queries, id) == indexed::total_missed(queries),
{
    assert forall|q: int| 0 <= q < queries.len() implies indexed::least(
        #[trigger] queries[q],
        id,
    ) is None by {
        law_missed_rows_cost_the_greatest_distance(queries[q], id);
    }
    indexed::lemma_total_missed(queries, id);
}

/// Each query vector's candidates count once, in order.
pub proof fn law_every_query_vector_counts(queries: Seq<QueryCandidates>, q: int)
    ensures
        indexed::candidates_of(queries).len() == queries.len(),
        0 <= q < queries.len() ==> indexed::candidates_of(queries)[q] == queries[q]@,
{
}

/// A batch of candidates holds each of its rows, in order; it is rejected exactly where it has no row
/// ids, else no distances, else where a row id or a distance is null or a distance is not finite.
pub proof fn law_batch_of_candidates(batch: CandidateBatch)
    ensures
        match batch.candidates() {
            Ok(candidates) => {
                &&& batch.row_ids is Some
                &&& batch.distances is Some
                &&& candidates.len() == batch.row_ids.unwrap()@.len()
                &&& forall|i: int|
                    0 <= i < candidates.len() ==> {
                        &&& batch.row_ids.unwrap()@[i] == Some((#[trigger] candidates[i]).0)
                        &&& batch.distances.unwrap()@[i] == Some(candidates[i].1)
                        &&& score_laws::is_number32(candidates[i].1)
                    }
            },
            Err(Failure::MissingRowIds) => batch.row_ids is None,
            Err(Failure::MissingDistances) => batch.row_ids is Some && batch.distances is None,
            Err(Failure::InvalidCandidate) => {
                &&& batch.row_ids is Some
                &&& batch.distances is Some
                &&& exists|i: int|
                    {
                        let id = #[trigger] batch.row_ids.unwrap()@[i];
                        let distance = batch.distances.unwrap()@[i];
                        0 <= i < batch.row_ids.unwrap()@.len() && (id is None || distance is None
                            || !score_laws::is_number32(distance.unwrap()))
                    }
            },
            Err(_) => false,
        },
{
    if batch.row_ids is Some && batch.distances is Some {
        let ids = batch.row_ids.unwrap()@;
        let distances = batch.distances.unwrap()@;
        if forall|i: int|
            0 <= i < ids.len() ==> indexed::is_candidate(#[trigger] ids[i], distances[i]) {
            let candidates = batch.candidates()->Ok_0;
            assert forall|i: int| 0 <= i < candidates.len() implies {
                &&& ids[i] == Some((#[trigger] candidates[i]).0)
                &&& distances[i] == Some(candidates[i].1)
                &&& score_laws::is_number32(candidates[i].1)
            } by {
                assert(indexed::is_candidate(ids[i], distances[i]));
            }
        } else {
            let i = choose|i: int|
                0 <= i < ids.len() && !indexed::is_candidate(#[trigger] ids[i], distances[i]);
            assert(batch.row_ids.unwrap()@[i] == ids[i]);
        }
    }
}

/// A batch of candidates is well formed exactly where, having both, it has as many row ids as
/// distances.
pub proof fn law_batches_of_candidates_in_order(batch: CandidateBatch)
    ensures
        batch.wf() <==> (batch.row_ids is Some && batch.distances is Some
            ==> batch.row_ids.unwrap()@.len() == batch.distances.unwrap()@.len()),
{
}

} // verus!

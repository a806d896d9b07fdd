//! Scoring of the candidates that an index finds for each query vector.

use crate::accumulator;
use crate::accumulator::Accumulator;
use crate::error::{Failure, ScoreError};
use crate::float;
use std::collections::{HashMap, HashSet};
use vstd::prelude::*;

verus! {

broadcast use vstd::std_specs::hash::group_hash_axioms;

/// A batch of candidates for one query vector.
#[derive(Debug)]
pub struct CandidateBatch {
    /// The row ids, if the batch has them; a row id may be null.
    pub row_ids: Option<Vec<Option<u64>>>,
    /// The distances, if the batch has them; a distance may be null.
    pub distances: Option<Vec<Option<u32>>>,
}

/// A row and its distance.
#[derive(Debug, Clone, Copy, PartialEq, Eq, Structural)]
pub struct ScoredRow {
    /// The row id.
    pub row_id: u64,
    /// The distance.
    pub distance: u32,
}

/// Whether a candidate has a row id and a finite distance.
pub open spec fn is_candidate(row_id: Option<u64>, distance: Option<u32>) -> bool {
    &&& row_id is Some
    &&& distance is Some
    &&& float::is_finite(distance.unwrap())
}

impl CandidateBatch {
    /// Row ids and distances have the same number of rows.
    pub open spec fn wf(self) -> bool {
        self.row_ids matches Some(ids) ==> self.distances matches Some(distances) ==> ids@.len()
            == distances@.len()
    }

    /// The candidates of the batch, or what is wrong with it.
    pub open spec fn candidates(self) -> Result<Seq<(u64, u32)>, Failure> {
        match (self.row_ids, self.distances) {
            (None, _) => Err(Failure::MissingRowIds),
            (Some(_), None) => Err(Failure::MissingDistances),
            (Some(ids), Some(distances)) => if forall|i: int|
                0 <= i < ids@.len() ==> is_candidate(#[trigger] ids@[i], distances@[i]) {
                Ok(
                    Seq::new(
                        ids@.len(),
                        |i: int| (ids@[i].unwrap(), distances@[i].unwrap()),
                    ),
                )
            } else {
                Err(Failure::InvalidCandidate)
            },
        }
    }
}

/// The least distance of the candidates for row `id`.
pub open spec fn least(candidates: Seq<(u64, u32)>, id: u64) -> Option<int>
    decreases candidates.len(),
{
    if candidates.len() == 0 {
        None
    } else {
        let known = least(candidates.drop_last(), id);
        let (row_id, distance) = candidates.last();
        if row_id != id {
            known
        } else {
            match known {
                Some(best) if best <= float::value(distance) => Some(best),
                _ => Some(float::value(distance)),
            }
        }
    }
}

/// The greatest distance of all candidates.
pub open spec fn greatest(candidates: Seq<(u64, u32)>) -> Option<int>
    decreases candidates.len(),
{
    if candidates.len() == 0 {
        None
    } else {
        let distance = float::value(candidates.last().1);
        match greatest(candidates.drop_last()) {
            Some(worst) if worst >= distance => Some(worst),
            _ => Some(distance),
        }
    }
}

/// The distance of a row that the index did not find for the query vector: the greatest that it
/// found, or one where it found nothing.
pub open spec fn missing_distance(candidates: Seq<(u64, u32)>) -> int {
    match greatest(candidates) {
        Some(worst) => worst,
        None => float::value(float::ONE),
    }
}

/// What a query vector contributes to the distance of row `id`.
pub open spec fn contribution(candidates: Seq<(u64, u32)>, id: u64) -> int {
    match least(candidates, id) {
        Some(best) => best,
        None => missing_distance(candidates),
    }
}

/// The distance of row `id`: the contributions of all query vectors, summed at double precision.
pub open spec fn total(queries: Seq<Seq<(u64, u32)>>, id: u64) -> int {
    accumulator::rounded_sum(
        queries.map_values(|candidates: Seq<(u64, u32)>| contribution(candidates, id)),
    )
}

/// Whether the index found row `id` for any query vector.
pub open spec fn is_found(queries: Seq<Seq<(u64, u32)>>, id: u64) -> bool {
    exists|q: int| 0 <= q < queries.len() && least(#[trigger] queries[q], id) is Some
}

/// The candidates for one query vector, over all its batches.
pub struct QueryCandidates {
    ids: Vec<u64>,
    best: HashMap<u64, u32>,
    maximum: Option<u32>,
    seen: Ghost<Seq<(u64, u32)>>,
}

impl View for QueryCandidates {
    type V = Seq<(u64, u32)>;

    /// All candidates, in the order in which they came.
    closed spec fn view(&self) -> Seq<(u64, u32)> {
        self.seen@
    }
}

impl QueryCandidates {
    /// The least distance of each row and the greatest distance are kept.
    pub closed spec fn wf(self) -> bool {
        &&& self.ids@.no_duplicates()
        &&& forall|id: u64| self.ids@.contains(id) <==> #[trigger] self.best@.contains_key(id)
        &&& forall|id: u64|
            match least(self.seen@, id) {
                Some(distance) => {
                    &&& #[trigger] self.best@.contains_key(id)
                    &&& float::is_finite(self.best@[id])
                    &&& float::value(self.best@[id]) == distance
                },
                None => !self.best@.contains_key(id),
            }
        &&& match greatest(self.seen@) {
            Some(distance) => {
                &&& self.maximum is Some
                &&& float::is_finite(self.maximum.unwrap())
                &&& float::value(self.maximum.unwrap()) == distance
            },
            None => self.maximum is None,
        }
    }

    /// No candidates.
    pub fn new() -> (query: QueryCandidates)
        ensures
            query.wf(),
            query@ == Seq::<(u64, u32)>::empty(),
    {
        QueryCandidates {
            ids: Vec::new(),
            best: HashMap::new(),
            maximum: None,
            seen: Ghost(Seq::empty()),
        }
    }

    /// Adds a candidate.
    fn insert(&mut self, id: u64, distance: u32)
        requires
            old(self).wf(),
            float::is_finite(distance),
        ensures
            final(self).wf(),
            final(self)@ == old(self)@.push((id, distance)),
    {
        let ghost before = *self;
        let ghost after = self.seen@.push((id, distance));
        proof {
            assert(after.drop_last() =~= self.seen@);
            assert(before.best@.contains_key(id) || !before.best@.contains_key(id));
        }
        self.maximum = match self.maximum {
            Some(worst) => if float::is_less(worst, distance) {
                Some(distance)
            } else {
                Some(worst)
            },
            None => Some(distance),
        };
        let known: Option<u32> = match self.best.get(&id) {
            Some(best) => Some(*best),
            None => None,
        };
        match known {
            Some(best) => {
                if float::is_less(distance, best) {
                    self.best.insert(id, distance);
                }
            },
            None => {
                self.ids.push(id);
                self.best.insert(id, distance);
            },
        }
        self.seen = Ghost(after);
        proof {
            assert forall|other: u64| self.ids@.contains(other) <==> #[trigger] self.best@.contains_key(
                other,
            ) by {
                assert(before.ids@.contains(other) <==> before.best@.contains_key(other));
                if known is None {
                    assert(self.ids@ == before.ids@.push(id));
                    assert(self.ids@[before.ids@.len() as int] == id);
                    if before.ids@.contains(other) {
                        let k = choose|k: int| 0 <= k < before.ids@.len() && before.ids@[k] == other;
                        assert(self.ids@[k] == other);
                    }
                }
            }
            assert forall|other: u64|
                match least(self.seen@, other) {
                    Some(distance) => {
                        &&& #[trigger] self.best@.contains_key(other)
                        &&& float::is_finite(self.best@[other])
                        &&& float::value(self.best@[other]) == distance
                    },
                    None => !self.best@.contains_key(other),
                } by {
                assert(before.best@.contains_key(other) || !before.best@.contains_key(other));
            }
        }
    }
}

impl QueryCandidates {
    /// Adds the candidates of a batch. A batch with an invalid candidate adds nothing.
    pub fn absorb(&mut self, batch: &CandidateBatch) -> (result: Result<(), ScoreError>)
        requires
            old(self).wf(),
            batch.wf(),
        ensures
            final(self).wf(),
            match batch.candidates() {
                Ok(candidates) => result is Ok && final(self)@ == old(self)@ + candidates,
                Err(failure) => {
                    &&& result matches Err(error) && error@ == failure
                    &&& final(self)@ == old(self)@
                },
            },
    {
        let ids: &Vec<Option<u64>> = match &batch.row_ids {
            Some(ids) => ids,
            None => {
                return Err(ScoreError::MissingRowIds);
            },
        };
        let distances: &Vec<Option<u32>> = match &batch.distances {
            Some(distances) => distances,
            None => {
                return Err(ScoreError::MissingDistances);
            },
        };
        for i in 0..ids.len()
            invariant
                *self == *old(self),
                self.wf(),
                batch.row_ids == Some(*ids),
                batch.distances == Some(*distances),
                ids@.len() == distances@.len(),
                forall|j: int| 0 <= j < i ==> is_candidate(#[trigger] ids@[j], distances@[j]),
        {
            let valid: bool = match (ids[i], distances[i]) {
                (Some(_), Some(distance)) => float::single_is_finite(distance),
                _ => false,
            };
            if !valid {
                proof {
                    assert(!is_candidate(ids@[i as int], distances@[i as int]));
                }
                return Err(ScoreError::InvalidCandidate);
            }
        }
        let ghost before = self@;
        let ghost candidates = batch.candidates()->Ok_0;
        for i in 0..ids.len()
            invariant
                self.wf(),
                ids@.len() == distances@.len(),
                candidates.len() == ids@.len(),
                forall|j: int| 0 <= j < ids@.len() ==> is_candidate(#[trigger] ids@[j], distances@[j]),
                forall|j: int|
                    0 <= j < ids@.len() ==> #[trigger] candidates[j] == (
                        ids@[j].unwrap(),
                        distances@[j].unwrap(),
                    ),
                self@ == before + candidates.take(i as int),
        {
            proof {
                assert(is_candidate(ids@[i as int], distances@[i as int]));
                assert(candidates.take(i + 1) =~= candidates.take(i as int).push(
                    candidates[i as int],
                ));
            }
            if let (Some(id), Some(distance)) = (ids[i], distances[i]) {
                self.insert(id, distance);
            }
        }
        proof {
            assert(candidates.take(candidates.len() as int) =~= candidates);
        }
        Ok(())
    }

    /// The distance that stands for a row without a candidate.
    fn missing(&self) -> (distance: u32)
        requires
            self.wf(),
        ensures
            float::is_finite(distance),
            float::value(distance) == missing_distance(self@),
    {
        match self.maximum {
            Some(worst) => worst,
            None => float::ONE,
        }
    }

    /// What the query vector contributes to the distance of row `id`.
    fn contribution(&self, id: u64) -> (distance: u32)
        requires
            self.wf(),
        ensures
            float::is_finite(distance),
            float::value(distance) == contribution(self@, id),
    {
        proof {
            assert(self.best@.contains_key(id) || !self.best@.contains_key(id));
        }
        match self.best.get(&id) {
            Some(best) => *best,
            None => self.missing(),
        }
    }
}

/// The candidates of each query vector.
pub open spec fn candidates_of(queries: Seq<QueryCandidates>) -> Seq<Seq<(u64, u32)>> {
    queries.map_values(|query: QueryCandidates| query@)
}

/// The distance of a row that the index found for none of the query vectors.
pub open spec fn total_missed(queries: Seq<Seq<(u64, u32)>>) -> int {
    accumulator::rounded_sum(
        queries.map_values(|candidates: Seq<(u64, u32)>| missing_distance(candidates)),
    )
}

/// A row that no query vector found has the distance of a missed row.
pub proof fn lemma_total_missed(queries: Seq<Seq<(u64, u32)>>, id: u64)
    requires
        !is_found(queries, id),
    ensures
        total(queries, id) == total_missed(queries),
{
    assert(queries.map_values(|candidates: Seq<(u64, u32)>| contribution(candidates, id))
        =~= queries.map_values(|candidates: Seq<(u64, u32)>| missing_distance(candidates))) by {
        assert forall|q: int| 0 <= q < queries.len() implies contribution(
            #[trigger] queries[q],
            id,
        ) == missing_distance(queries[q]) by {
            assert(least(queries[q], id) is None);
        }
    }
}

/// One more query vector adds its contribution.
proof fn lemma_total_step(queries: Seq<Seq<(u64, u32)>>, id: u64, k: int)
    requires
        0 <= k < queries.len(),
    ensures
        total(queries.take(k + 1), id) == accumulator::add_rounded(
            total(queries.take(k), id),
            contribution(queries[k], id),
        ),
        total_missed(queries.take(k + 1)) == accumulator::add_rounded(
            total_missed(queries.take(k)),
            missing_distance(queries[k]),
        ),
        is_found(queries.take(k + 1), id) <==> is_found(queries.take(k), id) || least(
            queries[k],
            id,
        ) is Some,
{
    let more = queries.take(k + 1);
    let less = queries.take(k);
    let each = |candidates: Seq<(u64, u32)>| contribution(candidates, id);
    let missed = |candidates: Seq<(u64, u32)>| missing_distance(candidates);
    assert(more.map_values(each).drop_last() =~= less.map_values(each));
    assert(more.map_values(missed).drop_last() =~= less.map_values(missed));
    if is_found(less, id) {
        let q = choose|q: int| 0 <= q < less.len() && least(#[trigger] less[q], id) is Some;
        assert(more[q] == less[q]);
    }
    if least(queries[k], id) is Some {
        assert(more[k] == queries[k]);
    }
    if is_found(more, id) && least(queries[k], id) is None {
        let q = choose|q: int| 0 <= q < more.len() && least(#[trigger] more[q], id) is Some;
        assert(less[q] == more[q]);
    }
}

/// Combines the query vectors: each row that any of them found, once, with its distance.
pub fn indexed_batch(queries: &Vec<QueryCandidates>) -> (rows: Vec<ScoredRow>)
    requires
        forall|q: int| 0 <= q < queries@.len() ==> (#[trigger] queries@[q]).wf(),
    ensures
        forall|i: int, j: int|
            0 <= i < j < rows@.len() ==> (#[trigger] rows@[i]).row_id != (
            #[trigger] rows@[j]).row_id,
        forall|id: u64| #[trigger]
            is_found(candidates_of(queries@), id) <==> exists|i: int|
                0 <= i < rows@.len() && (#[trigger] rows@[i]).row_id == id,
        forall|i: int|
            0 <= i < rows@.len() ==> (#[trigger] rows@[i]).distance == float::nearest_single(
                total(candidates_of(queries@), rows@[i].row_id),
            ),
{
    let ghost all = candidates_of(queries@);
    let mut ids: Vec<u64> = Vec::new();
    let mut sums: Vec<Accumulator> = Vec::new();
    let mut known: HashSet<u64> = HashSet::new();
    let mut missed: Accumulator = Accumulator::zero();
    for k in 0..queries.len()
        invariant
            forall|q: int| 0 <= q < queries@.len() ==> (#[trigger] queries@[q]).wf(),
            all == candidates_of(queries@),
            ids@.len() == sums@.len(),
            ids@.no_duplicates(),
            forall|id: u64| #[trigger] known@.contains(id) <==> ids@.contains(id),
            forall|id: u64| #[trigger] known@.contains(id) <==> is_found(all.take(k as int), id),
            forall|i: int|
                0 <= i < ids@.len() ==> (#[trigger] sums@[i])@ == total(all.take(k as int), ids@[i]),
            missed@ == total_missed(all.take(k as int)),
    {
        let query: &QueryCandidates = &queries[k];
        let ghost found = ids@;
        proof {
            assert(all[k as int] == query@);
        }
        for i in 0..ids.len()
            invariant
                0 <= k < all.len(),
                all[k as int] == query@,
                query.wf(),
                ids@ == found,
                ids@.len() == sums@.len(),
                forall|j: int|
                    0 <= j < i ==> (#[trigger] sums@[j])@ == total(all.take(k + 1), ids@[j]),
                forall|j: int|
                    i <= j < ids@.len() ==> (#[trigger] sums@[j])@ == total(
                        all.take(k as int),
                        ids@[j],
                    ),
        {
            let sum: Accumulator = sums[i].add(query.contribution(ids[i]));
            proof {
                lemma_total_step(all, ids@[i as int], k as int);
            }
            sums.set(i, sum);
        }
        for n in 0..query.ids.len()
            invariant
                0 <= k < all.len(),
                all[k as int] == query@,
                query.wf(),
                ids@.len() == sums@.len(),
                ids@.no_duplicates(),
                missed@ == total_missed(all.take(k as int)),
                forall|id: u64| #[trigger] known@.contains(id) <==> ids@.contains(id),
                forall|id: u64| #[trigger]
                    known@.contains(id) <==> is_found(all.take(k as int), id)
                        || query.ids@.take(n as int).contains(id),
                forall|i: int|
                    0 <= i < ids@.len() ==> (#[trigger] sums@[i])@ == total(all.take(k + 1), ids@[i]),
        {
            let id: u64 = query.ids[n];
            proof {
                assert(query.ids@.take(n + 1) =~= query.ids@.take(n as int).push(id));
                assert(query.ids@.contains(id)) by {
                    assert(query.ids@[n as int] == id);
                }
                assert(query.best@.contains_key(id));
                assert forall|other: u64| query.ids@.take(n + 1).contains(other) <==> other == id
                    || query.ids@.take(n as int).contains(other) by {
                    if query.ids@.take(n as int).contains(other) {
                        let m = choose|m: int|
                            0 <= m < n && query.ids@.take(n as int)[m] == other;
                        assert(query.ids@.take(n + 1)[m] == other);
                    }
                    assert(query.ids@.take(n + 1)[n as int] == id);
                }
            }
            let ghost ids_before = ids@;
            if !known.contains(&id) {
                let sum: Accumulator = missed.add(query.contribution(id));
                proof {
                    lemma_total_step(all, id, k as int);
                    assert(!is_found(all.take(k as int), id));
                    lemma_total_missed(all.take(k as int), id);
                    assert(!ids@.contains(id));
                }
                ids.push(id);
                sums.push(sum);
                known.insert(id);
                proof {
                    assert forall|other: u64| ids@.contains(other) <==> other == id
                        || ids_before.contains(other) by {
                        if ids_before.contains(other) {
                            let m = choose|m: int|
                                0 <= m < ids_before.len() && ids_before[m] == other;
                            assert(ids@[m] == other);
                        }
                        assert(ids@[ids_before.len() as int] == id);
                    }
                }
            }
        }
        proof {
            assert(query.ids@.take(query.ids@.len() as int) =~= query.ids@);
            assert forall|id: u64| #[trigger] known@.contains(id) <==> is_found(all.take(k + 1), id) by {
                lemma_total_step(all, id, k as int);
                assert(query.ids@.contains(id) <==> query.best@.contains_key(id));
            }
            lemma_total_step(all, 0, k as int);
        }
        missed = missed.add(query.missing());
    }
    proof {
        assert(all.take(all.len() as int) =~= all);
    }
    let mut rows: Vec<ScoredRow> = Vec::new();
    for i in 0..ids.len()
        invariant
            ids@.len() == sums@.len(),
            rows@.len() == i,
            forall|j: int| 0 <= j < ids@.len() ==> (#[trigger] sums@[j])@ == total(all, ids@[j]),
            forall|j: int|
                0 <= j < i ==> (#[trigger] rows@[j]).row_id == ids@[j] && rows@[j].distance
                    == float::nearest_single(total(all, ids@[j])),
    {
        rows.push(ScoredRow { row_id: ids[i], distance: sums[i].to_single() });
    }
    proof {
        assert forall|id: u64| #[trigger] is_found(all, id) <==> exists|i: int|
            0 <= i < rows@.len() && (#[trigger] rows@[i]).row_id == id by {
            assert(known@.contains(id) <==> ids@.contains(id));
            if is_found(all, id) {
                let m = choose|m: int| 0 <= m < ids@.len() && ids@[m] == id;
                assert(rows@[m].row_id == id);
            }
            if exists|i: int| 0 <= i < rows@.len() && (#[trigger] rows@[i]).row_id == id {
                let m = choose|i: int| 0 <= i < rows@.len() && (#[trigger] rows@[i]).row_id == id;
                assert(ids@[m] == id);
            }
        }
    }
    rows
}

} // verus!

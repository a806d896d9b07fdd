//! Where scoring and the result window stand in a query plan.

use crate::error::ScoreError;
use vstd::prelude::*;

verus! {

/// What a plan node does, as far as scoring depends on it.
#[derive(Debug)]
pub enum Operator {
    /// Computes exact distances, for one query or for a batch of queries.
    Knn {
        /// Whether there is a batch of queries.
        is_batch: bool,
    },
    /// Regroups the rows into batches of a fixed size.
    StrictBatchSize,
    /// Merges all partitions into one.
    CoalescePartitions,
    /// Sorts by the distance in the given column, ascending, nulls last.
    SortByDistance {
        /// The position of the distance column.
        column: usize,
    },
    /// Skips rows, then keeps at most so many.
    Window {
        /// How many rows are skipped.
        offset: usize,
        /// How many rows are kept, if there is a limit.
        limit: Option<usize>,
    },
    /// Any other operator.
    Other {
        /// Its name.
        name: String,
    },
}

/// How a node's distances are computed instead.
#[derive(Debug, Clone, Copy, PartialEq, Eq, Structural)]
pub enum Scoring {
    /// From the stored vectors.
    Exact,
    /// From the candidates that an index finds for each query vector.
    Indexed,
}

/// A query plan.
#[derive(Debug)]
pub struct Plan {
    /// What the root does.
    pub operator: Operator,
    /// Whether the root's distances are computed by this library instead, and how.
    pub scoring: Option<Scoring>,
    /// The position of the root's distance column, if it has one.
    pub distance: Option<usize>,
    /// The caller's number for the root; nodes that are added here have none.
    pub source: Option<usize>,
    /// The inputs.
    pub children: Vec<Plan>,
}

/// A plan without a distance column to sort by.
#[derive(Debug, Clone, Copy, PartialEq, Eq, Structural)]
pub struct NoDistanceColumn;

/// How the distances of a node that does `operator` are to be computed.
pub open spec fn scoring_of(operator: Operator) -> Option<Scoring> {
    match operator {
        Operator::Knn { is_batch } => if is_batch {
            None
        } else {
            Some(Scoring::Exact)
        },
        Operator::Other { name } => if name@ == "MultivectorScoringExec"@ {
            Some(Scoring::Indexed)
        } else {
            None
        },
        _ => None,
    }
}

impl Plan {
    /// Whether the root, unless it is scored here already, computes distances for a batch of
    /// queries.
    pub open spec fn is_batch_query(self) -> bool {
        self.scoring is None && (self.operator matches Operator::Knn { is_batch } && is_batch)
    }

    /// Whether any node computes distances for a batch of queries.
    pub open spec fn has_batch_query(self) -> bool
        decreases self,
    {
        self.is_batch_query() || exists|i: int|
            0 <= i < self.children@.len() && (#[trigger] self.children@[i]).has_batch_query()
    }

    /// Whether every node whose distances are to be computed here is scored here.
    pub open spec fn is_scored(self) -> bool
        decreases self,
    {
        &&& scoring_of(self.operator) is Some ==> self.scoring is Some
        &&& forall|i: int|
            0 <= i < self.children@.len() ==> (#[trigger] self.children@[i]).is_scored()
    }

    /// Whether the root regroups its input's rows into batches of a fixed size.
    pub open spec fn is_strict(self) -> bool {
        self.scoring is None && self.operator is StrictBatchSize
    }

    /// Every regrouping node at the top has an input.
    pub open spec fn wf(self) -> bool
        decreases self,
    {
        self.is_strict() ==> self.children@.len() > 0 && self.children@[0].wf()
    }

    /// Whether the first node below the regrouping nodes at the top has a distance column.
    pub open spec fn is_sortable(self) -> bool
        decreases self,
    {
        if self.is_strict() && self.children@.len() > 0 {
            self.children@[0].is_sortable()
        } else {
            self.distance is Some
        }
    }
}

/// Whether `after` is `before` with every distance computation replaced and nothing else changed.
pub open spec fn is_rewritten(before: Plan, after: Plan) -> bool
    decreases before,
{
    &&& after.operator == before.operator
    &&& after.distance == before.distance
    &&& after.source == before.source
    &&& after.scoring == (if before.scoring is Some {
        before.scoring
    } else {
        scoring_of(before.operator)
    })
    &&& after.children@.len() == before.children@.len()
    &&& forall|i: int|
        0 <= i < before.children@.len() ==> is_rewritten(
            #[trigger] before.children@[i],
            after.children@[i],
        )
}

/// Whether `plan` is an added node that does `operator`, with one input.
pub open spec fn is_added(plan: Plan, operator: Operator, distance: Option<usize>) -> bool {
    &&& plan.operator == operator
    &&& plan.scoring is None
    &&& plan.distance == distance
    &&& plan.source is None
    &&& plan.children@.len() == 1
}

/// Whether `after` is `before` with the window below the regrouping nodes at the top: the rows of
/// all partitions, sorted by distance, then the window of them.
pub open spec fn is_windowed(
    before: Plan,
    offset: usize,
    limit: Option<usize>,
    after: Plan,
) -> bool
    decreases before,
{
    if before.is_strict() && before.children@.len() > 0 {
        &&& after.operator == before.operator
        &&& after.scoring == before.scoring
        &&& after.distance == before.distance
        &&& after.source == before.source
        &&& after.children@.len() == 1
        &&& is_windowed(before.children@[0], offset, limit, after.children@[0])
    } else {
        let sort = after.children@[0];
        let merge = sort.children@[0];
        &&& is_added(after, Operator::Window { offset, limit }, before.distance)
        &&& is_added(
            sort,
            Operator::SortByDistance { column: before.distance.unwrap() },
            before.distance,
        )
        &&& is_added(merge, Operator::CoalescePartitions, before.distance)
        &&& merge.children@[0] == before
    }
}

/// How the distances of a node that does `operator` are to be computed.
fn scoring_mode(operator: &Operator) -> (scoring: Option<Scoring>)
    ensures
        scoring == scoring_of(*operator),
{
    match operator {
        Operator::Knn { is_batch } => if *is_batch {
            None
        } else {
            Some(Scoring::Exact)
        },
        Operator::Other { name } => if *name == "MultivectorScoringExec".to_owned() {
            Some(Scoring::Indexed)
        } else {
            None
        },
        _ => None,
    }
}

/// Replaces every distance computation, in place, so that no score can discard a candidate before.
pub fn rewrite(plan: Plan) -> (result: Result<Plan, ScoreError>)
    ensures
        result is Ok <==> !plan.has_batch_query(),
        result matches Ok(after) ==> is_rewritten(plan, after),
        result matches Err(error) ==> error == ScoreError::BatchQueries,
    decreases plan,
{
    let ghost before = plan;
    let ghost inputs = plan.children@;
    let Plan { operator, scoring, distance, source, children } = plan;
    let mut rest: Vec<Plan> = children;
    let mut reversed: Vec<Plan> = Vec::new();
    while rest.len() > 0
        invariant
            before == plan,
            before.children@ == inputs,
            rest@.len() + reversed@.len() == inputs.len(),
            rest@ == inputs.take(rest@.len() as int),
            forall|i: int|
                0 <= i < reversed@.len() ==> {
                    let input = inputs[inputs.len() - 1 - i];
                    &&& is_rewritten(input, #[trigger] reversed@[i])
                    &&& !input.has_batch_query()
                },
        decreases rest.len(),
    {
        let ghost k = rest@.len() - 1;
        if let Some(child) = rest.pop() {
            proof {
                assert(child == inputs[k]);
                assert(decreases_to!(before => before.children@[k]));
            }
            match rewrite(child) {
                Ok(after) => reversed.push(after),
                Err(error) => {
                    proof {
                        assert(before.children@[k].has_batch_query());
                    }
                    return Err(error);
                },
            }
        }
    }
    let ghost done = reversed@;
    let mut after: Vec<Plan> = Vec::new();
    while reversed.len() > 0
        invariant
            done.len() == inputs.len(),
            reversed@.len() + after@.len() == done.len(),
            reversed@ == done.take(reversed@.len() as int),
            forall|i: int|
                0 <= i < after@.len() ==> #[trigger] after@[i] == done[done.len() - 1 - i],
        decreases reversed.len(),
    {
        if let Some(child) = reversed.pop() {
            after.push(child);
        }
    }
    proof {
        assert forall|i: int| 0 <= i < inputs.len() implies {
            &&& is_rewritten(#[trigger] inputs[i], after@[i])
            &&& !inputs[i].has_batch_query()
        } by {
            let j = inputs.len() - 1 - i;
            assert(is_rewritten(inputs[inputs.len() - 1 - j], done[j]));
        }
    }
    if scoring.is_some() {
        return Ok(Plan { operator, scoring, distance, source, children: after });
    }
    if let Operator::Knn { is_batch: true } = operator {
        return Err(ScoreError::BatchQueries);
    }
    let scoring: Option<Scoring> = scoring_mode(&operator);
    Ok(Plan { operator, scoring, distance, source, children: after })
}

/// A node with one input and that input's distance column.
fn add_node(operator: Operator, distance: Option<usize>, input: Plan) -> (plan: Plan)
    ensures
        is_added(plan, operator, distance),
        plan.children@[0] == input,
{
    let mut children: Vec<Plan> = Vec::new();
    children.push(input);
    Plan { operator, scoring: None, distance, source: None, children }
}

/// Applies the final window in the order of distances, below the nodes that regroup the result into
/// batches of a fixed size, so that the batches keep that size.
pub fn apply_result_window(plan: Plan, offset: usize, limit: Option<usize>) -> (result: Result<
    Plan,
    NoDistanceColumn,
>)
    requires
        plan.wf(),
    ensures
        result is Ok <==> plan.is_sortable(),
        result matches Ok(after) ==> is_windowed(plan, offset, limit, after),
    decreases plan,
{
    let ghost before = plan;
    let strict: bool = match (&plan.operator, &plan.scoring) {
        (Operator::StrictBatchSize, None) => true,
        _ => false,
    };
    if strict {
        let Plan { operator, scoring, distance, source, children } = plan;
        let mut children: Vec<Plan> = children;
        let input: Plan = children.swap_remove(0);
        proof {
            assert(input == before.children@[0]);
            assert(decreases_to!(before => before.children@[0]));
        }
        match apply_result_window(input, offset, limit) {
            Ok(input) => {
                let mut children: Vec<Plan> = Vec::new();
                children.push(input);
                Ok(Plan { operator, scoring, distance, source, children })
            },
            Err(error) => Err(error),
        }
    } else {
        match plan.distance {
            Some(column) => {
                let distance: Option<usize> = plan.distance;
                let merge: Plan = add_node(Operator::CoalescePartitions, distance, plan);
                let sort: Plan = add_node(Operator::SortByDistance { column }, distance, merge);
                Ok(add_node(Operator::Window { offset, limit }, distance, sort))
            },
            None => Err(NoDistanceColumn),
        }
    }
}

} // verus!

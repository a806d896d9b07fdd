//! What holds of a rewritten or windowed plan, node by node.

use crate::laws;
use crate::plan;
use crate::plan::{Operator, Plan, Scoring};
use vstd::prelude::*;

verus! {

/// The node that is reached from the root by taking, at each step, the input of that number.
pub open spec fn node_at(plan: Plan, steps: Seq<int>) -> Option<Plan>
    decreases steps.len(),
{
    if steps.len() == 0 {
        Some(plan)
    } else if 0 <= steps[0] < plan.children@.len() {
        node_at(plan.children@[steps[0]], steps.drop_first())
    } else {
        None
    }
}

/// How a node is scored after rewriting: as before, if it was scored; otherwise exactly, if it
/// computes distances for one query; by candidates, if it combines those of an index; else not.
pub open spec fn scored_as(node: Plan) -> Option<Scoring> {
    if node.scoring is Some {
        node.scoring
    } else if node.operator is Knn {
        Some(Scoring::Exact)
    } else if node.operator matches Operator::Other { name } && name@ == "MultivectorScoringExec"@ {
        Some(Scoring::Indexed)
    } else {
        None
    }
}

/// Whether a node that is not scored yet computes distances for a batch of queries.
pub open spec fn asks_for_many(node: Plan) -> bool {
    node.scoring is None && node.operator == (Operator::Knn { is_batch: true })
}

/// Rewriting keeps the plan's shape: at every place there is a node exactly where there was one, with
/// the same number, operator, distance column and count of inputs; only how it is scored is set.
pub proof fn law_rewriting_keeps_every_node(before: Plan, after: Plan, steps: Seq<int>)
    requires
        plan::is_rewritten(before, after),
        !before.has_batch_query(),
    ensures
        match node_at(before, steps) {
            None => node_at(after, steps) is None,
            Some(old_node) => node_at(after, steps) matches Some(new_node) && {
                &&& new_node.source == old_node.source
                &&& new_node.operator == old_node.operator
                &&& new_node.distance == old_node.distance
                &&& new_node.children@.len() == old_node.children@.len()
                &&& new_node.scoring == scored_as(old_node)
            },
        },
    decreases steps.len(),
{
    if steps.len() > 0 && 0 <= steps[0] < before.children@.len() {
        assert(plan::is_rewritten(before.children@[steps[0]], after.children@[steps[0]]));
        assert(!before.children@[steps[0]].has_batch_query());
        law_rewriting_keeps_every_node(
            before.children@[steps[0]],
            after.children@[steps[0]],
            steps.drop_first(),
        );
    } else if steps.len() == 0 {
        assert(!before.is_batch_query());
    }
}

/// A plan is rejected exactly where some node in it computes distances for a batch of queries.
pub proof fn law_batch_queries_are_found_anywhere(plan: Plan)
    ensures
        plan.has_batch_query() <==> exists|steps: Seq<int>|
            #[trigger] node_at(plan, steps) matches Some(node) && asks_for_many(node),
{
    if plan.has_batch_query() {
        let steps = lemma_batch_query(plan);
        assert(node_at(plan, steps) is Some);
    }
    if exists|steps: Seq<int>|
        #[trigger] node_at(plan, steps) matches Some(node) && asks_for_many(node) {
        let steps = choose|steps: Seq<int>|
            #[trigger] node_at(plan, steps) matches Some(node) && asks_for_many(node);
        lemma_node_is_found(plan, steps);
    }
}

/// The way to a node that computes distances for a batch of queries.
proof fn lemma_batch_query(plan: Plan) -> (steps: Seq<int>)
    requires
        plan.has_batch_query(),
    ensures
        node_at(plan, steps) matches Some(node) && asks_for_many(node),
    decreases plan,
{
    if plan.is_batch_query() {
        Seq::empty()
    } else {
        let i = choose|i: int|
            0 <= i < plan.children@.len() && (#[trigger] plan.children@[i]).has_batch_query();
        let more = lemma_batch_query(plan.children@[i]);
        let steps = seq![i] + more;
        assert(steps.drop_first() =~= more);
        steps
    }
}

/// A node that computes distances for a batch of queries is found from the root.
proof fn lemma_node_is_found(plan: Plan, steps: Seq<int>)
    requires
        node_at(plan, steps) matches Some(node) && asks_for_many(node),
    ensures
        plan.has_batch_query(),
    decreases steps.len(),
{
    if steps.len() > 0 {
        lemma_node_is_found(plan.children@[steps[0]], steps.drop_first());
        assert(plan.children@[steps[0]].has_batch_query());
    }
}

/// The node `depth` first inputs below the root.
pub open spec fn below(plan: Plan, depth: nat) -> Plan
    decreases depth,
{
    if depth == 0 {
        plan
    } else {
        below(plan.children@[0], (depth - 1) as nat)
    }
}

/// Whether a node regroups rows and is not scored.
pub open spec fn regroups(node: Plan) -> bool {
    node.scoring is None && node.operator == Operator::StrictBatchSize
}

/// Whether exactly the first `depth` nodes from the root regroup rows, each with an input.
pub open spec fn regroups_down_to(plan: Plan, depth: nat) -> bool {
    &&& forall|k: nat|
        k < depth ==> regroups(#[trigger] below(plan, k)) && below(plan, k).children@.len() > 0
    &&& !regroups(below(plan, depth))
}

/// Whether a node was added: it is unscored, has no number of the caller's, and one input.
pub open spec fn is_new(node: Plan, operator: Operator) -> bool {
    &&& node.operator == operator
    &&& node.scoring is None
    &&& node.source is None
    &&& node.children@.len() == 1
}

/// The regrouping nodes stay at the top, each with its number; below them stand the window, the sort
/// by the given plan's own distance column and the merge of partitions; and below those stands, whole
/// and unchanged, what stood below the regrouping nodes before.
pub proof fn law_window_wraps_the_whole_plan(
    before: Plan,
    offset: usize,
    limit: Option<usize>,
    after: Plan,
    depth: nat,
)
    requires
        plan::is_windowed(before, offset, limit, after),
        before.is_sortable(),
        regroups_down_to(before, depth),
    ensures
        forall|k: nat|
            k < depth ==> {
                let (old_node, new_node) = (below(before, k), #[trigger] below(after, k));
                &&& regroups(new_node)
                &&& new_node.source == old_node.source
                &&& new_node.distance == old_node.distance
                &&& new_node.children@.len() == 1
            },
        is_new(below(after, depth), Operator::Window { offset, limit }),
        below(before, depth).distance matches Some(column) && is_new(
            below(after, depth + 1),
            Operator::SortByDistance { column },
        ),
        is_new(below(after, depth + 2), Operator::CoalescePartitions),
        below(after, depth).distance == below(before, depth).distance,
        below(after, depth + 1).distance == below(before, depth).distance,
        below(after, depth + 2).distance == below(before, depth).distance,
        below(after, depth + 3) == below(before, depth),
    decreases depth,
{
    lemma_below_step(after, depth);
    lemma_below_step(after, depth + 1);
    lemma_below_step(after, depth + 2);
    if depth == 0 {
        assert(below(before, 0) == before);
        assert(!before.is_strict());
        assert(below(after, 0) == after);
    } else {
        assert(below(before, 0) == before);
        assert(regroups(below(before, 0)));
        let (old_rest, new_rest) = (before.children@[0], after.children@[0]);
        let less = (depth - 1) as nat;
        assert forall|k: nat| k < less implies regroups(#[trigger] below(old_rest, k)) && below(
            old_rest,
            k,
        ).children@.len() > 0 by {
            assert(below(before, k + 1) == below(old_rest, k));
        }
        law_window_wraps_the_whole_plan(old_rest, offset, limit, new_rest, less);
        assert forall|k: nat| k < depth implies {
            let (old_node, new_node) = (below(before, k), #[trigger] below(after, k));
            &&& regroups(new_node)
            &&& new_node.source == old_node.source
            &&& new_node.distance == old_node.distance
            &&& new_node.children@.len() == 1
        } by {
            if k > 0 {
                let j = (k - 1) as nat;
                assert(below(after, k) == below(new_rest, j));
                assert(below(before, k) == below(old_rest, j));
            }
        }
        assert(below(after, depth + 1) == below(new_rest, less + 1));
        assert(below(after, depth + 2) == below(new_rest, less + 2));
        assert(below(after, depth + 3) == below(new_rest, less + 3));
    }
}

/// One step further down is the first input of the node there.
proof fn lemma_below_step(plan: Plan, depth: nat)
    ensures
        below(plan, depth + 1) == below(plan, depth).children@[0],
    decreases depth,
{
    if depth > 0 {
        lemma_below_step(plan.children@[0], (depth - 1) as nat);
        assert(below(plan, depth + 1) == below(plan.children@[0], depth));
    } else {
        assert(below(plan, 1) == below(plan.children@[0], 0));
    }
}

/// A window can be applied exactly where the first node that does not regroup has a distance column,
/// and a plan is in order where every regrouping node at the top has an input.
pub proof fn law_windows_need_a_distance_column(plan: Plan, depth: nat)
    requires
        regroups_down_to(plan, depth),
    ensures
        plan.wf(),
        plan.is_sortable() <==> below(plan, depth).distance is Some,
        laws::strict_depth(plan) == depth,
    decreases depth,
{
    assert(below(plan, 0) == plan);
    if depth > 0 {
        assert(regroups(below(plan, 0)));
        let rest = plan.children@[0];
        let less = (depth - 1) as nat;
        assert forall|k: nat| k < less implies regroups(#[trigger] below(rest, k)) && below(
            rest,
            k,
        ).children@.len() > 0 by {
            assert(below(plan, k + 1) == below(rest, k));
        }
        law_windows_need_a_distance_column(rest, less);
    }
}

/// A plan in order has a first node that does not regroup.
pub proof fn law_regrouping_ends(plan: Plan) -> (depth: nat)
    requires
        plan.wf(),
    ensures
        regroups_down_to(plan, depth),
    decreases plan,
{
    assert(below(plan, 0) == plan);
    if regroups(plan) {
        let rest = plan.children@[0];
        let less = law_regrouping_ends(rest);
        assert forall|k: nat| k < less + 1 implies regroups(#[trigger] below(plan, k)) && below(
            plan,
            k,
        ).children@.len() > 0 by {
            if k > 0 {
                assert(below(plan, k) == below(rest, (k - 1) as nat));
            }
        }
        assert(below(plan, less + 1) == below(rest, less));
        less + 1
    } else {
        0
    }
}

/// Whatever rows the operators of the given plan produce, the windowed plan gives the window of
/// exactly those rows in the order of distances.
pub proof fn law_window_is_of_the_plans_own_rows(
    before: Plan,
    offset: usize,
    limit: Option<usize>,
    after: Plan,
    depth: nat,
    rows_of: spec_fn(Plan) -> Seq<int>,
    output: Seq<int>,
)
    requires
        plan::is_windowed(before, offset, limit, after),
        before.is_sortable(),
        regroups_down_to(before, depth),
        laws::gives(after, depth + 3, rows_of(below(after, depth + 3)), output),
    ensures
        exists|sorted: Seq<int>|
            {
                &&& sorted.to_multiset() == rows_of(below(before, depth)).to_multiset()
                &&& forall|i: int, j: int| 0 <= i <= j < sorted.len() ==> sorted[i] <= sorted[j]
                &&& output == #[trigger] laws::window(sorted, offset, limit)
            },
{
    law_windows_need_a_distance_column(before, depth);
    law_window_wraps_the_whole_plan(before, offset, limit, after, depth);
    laws::law_window_is_in_distance_order(
        before,
        offset,
        limit,
        after,
        rows_of(below(before, depth)),
        output,
    );
}

} // verus!

use multivector::error::ScoreError;
use multivector::plan::{apply_result_window, rewrite, NoDistanceColumn, Operator, Plan, Scoring};

fn node(operator: Operator, source: usize, children: Vec<Plan>) -> Plan {
    Plan {
        operator,
        scoring: None,
        distance: Some(1),
        source: Some(source),
        children,
    }
}

fn named(name: &str, source: usize, children: Vec<Plan>) -> Plan {
    node(Operator::Other { name: name.to_string() }, source, children)
}

fn scorings(plan: &Plan) -> Vec<(Option<usize>, Option<Scoring>)> {
    let mut all = vec![(plan.source, plan.scoring)];
    for child in &plan.children {
        all.extend(scorings(child));
    }
    all
}

fn mixed_plan(is_batch: bool) -> Plan {
    let knn = node(Operator::Knn { is_batch }, 2, vec![named("Scan", 1, vec![])]);
    let indexed = named(
        "MultivectorScoringExec",
        5,
        vec![named("Ann", 3, vec![]), named("Ann", 4, vec![])],
    );
    named("TopK", 7, vec![named("Union", 6, vec![knn, indexed])])
}

#[test]
fn every_distance_computation_is_replaced_in_place() {
    let after = rewrite(mixed_plan(false)).unwrap();
    let expected = vec![
        (Some(7), None),
        (Some(6), None),
        (Some(2), Some(Scoring::Exact)),
        (Some(1), None),
        (Some(5), Some(Scoring::Indexed)),
        (Some(3), None),
        (Some(4), None),
    ];
    assert_eq!(scorings(&after), expected);
    assert_eq!(scorings(&rewrite(after).unwrap()), expected);
}

#[test]
fn batch_queries_are_rejected() {
    assert_eq!(rewrite(mixed_plan(true)).unwrap_err(), ScoreError::BatchQueries);
}

#[test]
fn other_plans_stay_as_they_are() {
    let plan = named("MultiVectorScoreExec", 1, vec![node(Operator::StrictBatchSize, 0, vec![])]);
    assert_eq!(scorings(&rewrite(plan).unwrap()), vec![(Some(1), None), (Some(0), None)]);
}

#[test]
fn the_window_stands_below_regrouping_nodes() {
    let inner = node(Operator::StrictBatchSize, 1, vec![named("Scan", 0, vec![])]);
    let plan = node(Operator::StrictBatchSize, 2, vec![inner]);
    let after = apply_result_window(plan, 3, Some(4)).unwrap();
    let mut operators = vec![];
    let mut plan = &after;
    loop {
        operators.push(format!("{:?} {:?}", plan.operator, plan.source));
        assert_eq!(plan.distance, Some(1));
        match plan.children.first() {
            Some(child) => plan = child,
            None => break,
        }
    }
    assert_eq!(
        operators,
        vec![
            "StrictBatchSize Some(2)",
            "StrictBatchSize Some(1)",
            "Window { offset: 3, limit: Some(4) } None",
            "SortByDistance { column: 1 } None",
            "CoalescePartitions None",
            "Other { name: \"Scan\" } Some(0)",
        ]
    );
}

#[test]
fn a_window_needs_a_distance_column() {
    let mut scan = named("Scan", 0, vec![]);
    scan.distance = None;
    let plan = node(Operator::StrictBatchSize, 1, vec![scan]);
    assert_eq!(apply_result_window(plan, 0, None).unwrap_err(), NoDistanceColumn);
}

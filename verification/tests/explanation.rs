use rust_life::atoms::{Loan, PointIndex, Region};
use rust_life::explain::{explain, ExplanationEngine, Stage};
use rust_life::facts::{AllInputFacts, AllOutputFacts};

fn r(n: usize) -> Region {
    Region(n)
}

fn l(n: usize) -> Loan {
    Loan(n)
}

fn p(n: usize) -> PointIndex {
    PointIndex(n)
}

/// `let r = &x; let s = r; x = 5; take(s);`
/// Region 1 is that of `r`, region 2 that of `s`; the loan 0 is issued at
/// point 1, `s = r` stands at point 2, and `x = 5` at point 3.
fn chain() -> (AllInputFacts, AllOutputFacts) {
    let mut all_facts = AllInputFacts::new();
    all_facts.borrow_region = vec![(r(1), l(0), p(1))];
    all_facts.outlives = vec![(r(1), r(2), p(2))];
    all_facts.region_live_at = vec![(r(1), p(1)), (r(1), p(2)), (r(2), p(2)), (r(2), p(3))];
    all_facts.cfg_edge = vec![(p(0), p(1)), (p(1), p(2)), (p(2), p(3))];
    all_facts.invalidates = vec![(p(3), l(0))];
    let mut output = AllOutputFacts::new();
    output.restricts =
        vec![(r(1), l(0), p(1)), (r(1), l(0), p(2)), (r(2), l(0), p(2)), (r(2), l(0), p(3))];
    output.borrow_live_at = vec![(l(0), p(1)), (l(0), p(2)), (l(0), p(3))];
    output.errors = vec![(p(3), vec![l(0)])];
    (all_facts, output)
}

fn sorted<T: Ord + Clone>(v: &Vec<T>) -> Vec<T> {
    let mut s = v.clone();
    s.sort();
    s
}

#[test]
fn chain_is_explained() {
    let (all_facts, output) = chain();
    let found = explain(&all_facts, &output, (p(3), vec![l(0)]));
    assert_eq!(found.expl_borrow_live_at, vec![(l(0), p(3))]);
    assert_eq!(
        found.expl_requires,
        vec![(r(1), l(0), p(1)), (r(1), l(0), p(2)), (r(2), l(0), p(2)), (r(2), l(0), p(3))]
    );
    assert_eq!(found.expl_subset, vec![(r(1), r(2), p(2))]);
    assert_eq!(found.expl_outlives, vec![(r(1), r(2), p(2))]);
}

#[test]
fn no_seed_gives_empty_relations() {
    let (all_facts, output) = chain();
    // the loan 1 is not invalidated at point 3
    let found = explain(&all_facts, &output, (p(3), vec![l(1)]));
    assert!(found.expl_borrow_live_at.is_empty());
    assert!(found.expl_requires.is_empty());
    assert!(found.expl_subset.is_empty());
    assert!(found.expl_outlives.is_empty());
    // the loan 0 is not invalidated at point 2
    let found = explain(&all_facts, &output, (p(2), vec![l(0)]));
    assert!(found.expl_borrow_live_at.is_empty());
    assert!(found.expl_requires.is_empty());
    // no loan at all
    let found = explain(&all_facts, &output, (p(3), vec![]));
    assert!(found.expl_requires.is_empty());
}

#[test]
fn loan_that_is_not_live_is_no_seed() {
    let (all_facts, mut output) = chain();
    output.borrow_live_at = vec![(l(0), p(1)), (l(0), p(2))];
    let found = explain(&all_facts, &output, (p(3), vec![l(0)]));
    assert!(found.expl_borrow_live_at.is_empty());
    assert!(found.expl_requires.is_empty());
    assert!(found.expl_outlives.is_empty());
}

#[test]
fn empty_facts_give_empty_relations() {
    let all_facts = AllInputFacts::new();
    let output = AllOutputFacts::new();
    let found = explain(&all_facts, &output, (p(0), vec![l(0)]));
    assert!(found.expl_borrow_live_at.is_empty());
    assert!(found.expl_requires.is_empty());
    assert!(found.expl_subset.is_empty());
    assert!(found.expl_outlives.is_empty());
}

#[test]
fn killed_loan_is_not_carried_back() {
    let (mut all_facts, output) = chain();
    all_facts.killed = vec![(l(0), p(2))];
    let found = explain(&all_facts, &output, (p(3), vec![l(0)]));
    assert_eq!(found.expl_requires, vec![(r(2), l(0), p(3))]);
    assert!(found.expl_subset.is_empty());
    assert!(found.expl_outlives.is_empty());
}

#[test]
fn region_that_is_not_live_is_not_carried_back() {
    let (mut all_facts, output) = chain();
    all_facts.region_live_at = vec![(r(1), p(2)), (r(2), p(2)), (r(2), p(3))];
    let found = explain(&all_facts, &output, (p(3), vec![l(0)]));
    // region 1 is reached over the edge at point 2, but not carried to point 1
    assert_eq!(
        found.expl_requires,
        vec![(r(1), l(0), p(2)), (r(2), l(0), p(2)), (r(2), l(0), p(3))]
    );
}

#[test]
fn edge_without_link_is_not_explained() {
    let (all_facts, mut output) = chain();
    // region 1 does not require the loan at point 2
    output.restricts = vec![(r(1), l(0), p(1)), (r(2), l(0), p(2)), (r(2), l(0), p(3))];
    let found = explain(&all_facts, &output, (p(3), vec![l(0)]));
    assert!(found.expl_subset.is_empty());
    assert!(found.expl_outlives.is_empty());
}

#[test]
fn subset_is_closed_under_chains() {
    // regions 1 -> 2 -> 3 at one point, all linked to the loan
    let mut all_facts = AllInputFacts::new();
    all_facts.borrow_region = vec![(r(1), l(0), p(0))];
    all_facts.outlives = vec![(r(1), r(2), p(0)), (r(2), r(3), p(0))];
    all_facts.region_live_at = vec![(r(3), p(0))];
    all_facts.invalidates = vec![(p(0), l(0))];
    let mut output = AllOutputFacts::new();
    output.restricts = vec![(r(2), l(0), p(0)), (r(3), l(0), p(0))];
    output.borrow_live_at = vec![(l(0), p(0))];
    let found = explain(&all_facts, &output, (p(0), vec![l(0)]));
    assert_eq!(
        sorted(&found.expl_requires),
        vec![(r(1), l(0), p(0)), (r(2), l(0), p(0)), (r(3), l(0), p(0))]
    );
    assert_eq!(
        sorted(&found.expl_subset),
        vec![(r(1), r(2), p(0)), (r(1), r(3), p(0)), (r(2), r(3), p(0))]
    );
    // the chained edge from 1 to 3 is no outlives fact
    assert_eq!(sorted(&found.expl_outlives), vec![(r(1), r(2), p(0)), (r(2), r(3), p(0))]);
}

#[test]
fn subset_is_carried_over_control_flow() {
    let (mut all_facts, output) = chain();
    // the same edge is a fact at the points 1 and 3 too; at point 3 region 1 is not live
    all_facts.outlives = vec![(r(1), r(2), p(2)), (r(1), r(2), p(1)), (r(1), r(2), p(3))];
    all_facts.region_live_at = vec![
        (r(1), p(1)),
        (r(1), p(2)),
        (r(2), p(1)),
        (r(2), p(2)),
        (r(2), p(3)),
    ];
    let found = explain(&all_facts, &output, (p(3), vec![l(0)]));
    assert!(found.expl_subset.contains(&(r(1), r(2), p(2))));
    assert!(found.expl_subset.contains(&(r(1), r(2), p(1))));
    assert!(!found.expl_subset.contains(&(r(1), r(2), p(3))));
}

#[test]
fn loans_of_one_error_are_seeded_together() {
    let (mut all_facts, mut output) = chain();
    all_facts.invalidates = vec![(p(3), l(0)), (p(3), l(1))];
    all_facts.borrow_region.push((r(2), l(1), p(3)));
    output.borrow_live_at.push((l(1), p(3)));
    let found = explain(&all_facts, &output, (p(3), vec![l(0), l(1)]));
    assert_eq!(found.expl_borrow_live_at, vec![(l(0), p(3)), (l(1), p(3))]);
    assert!(found.expl_requires.contains(&(r(2), l(0), p(3))));
    assert!(found.expl_requires.contains(&(r(2), l(1), p(3))));
    assert!(found.expl_requires.contains(&(r(2), l(1), p(2))));
}

#[test]
fn loan_that_is_named_twice_is_seeded_once() {
    let (all_facts, output) = chain();
    let found = explain(&all_facts, &output, (p(3), vec![l(0), l(0)]));
    assert_eq!(found.expl_borrow_live_at, vec![(l(0), p(3))]);
    assert_eq!(found.expl_requires.len(), 4);
}

#[test]
fn relations_never_shrink_and_engine_ends() {
    let (all_facts, output) = chain();
    let mut engine = ExplanationEngine::new(&all_facts, &output, (p(3), vec![l(0)]));
    assert_eq!(engine.stage, Stage::Seed);
    let mut steps = 0;
    loop {
        let before = (
            engine.derived.expl_borrow_live_at.clone(),
            engine.derived.expl_requires.clone(),
            engine.derived.expl_subset.clone(),
            engine.derived.expl_outlives.clone(),
        );
        let progressed = engine.step();
        assert!(engine.derived.expl_borrow_live_at.starts_with(&before.0));
        assert!(engine.derived.expl_requires.starts_with(&before.1));
        assert!(engine.derived.expl_subset.starts_with(&before.2));
        assert!(engine.derived.expl_outlives.starts_with(&before.3));
        if !progressed {
            break;
        }
        steps += 1;
        assert!(steps < 100);
    }
    // the seed, four tuples and the end of `expl_requires`, one tuple and the end of `expl_subset`
    assert_eq!(steps, 8);
    assert_eq!(engine.stage, Stage::Done);
    assert!(!engine.step());
    assert_eq!(engine.derived.expl_outlives, vec![(r(1), r(2), p(2))]);
}

#[test]
fn run_comes_to_the_same_end_as_steps() {
    let (all_facts, output) = chain();
    let mut engine = ExplanationEngine::new(&all_facts, &output, (p(3), vec![l(0)]));
    engine.step();
    engine.step();
    engine.run();
    assert_eq!(engine.stage, Stage::Done);
    let found = explain(&all_facts, &output, (p(3), vec![l(0)]));
    assert_eq!(sorted(&engine.derived.expl_requires), found.expl_requires);
    assert_eq!(sorted(&engine.derived.expl_subset), found.expl_subset);
    assert_eq!(sorted(&engine.derived.expl_outlives), found.expl_outlives);
}

#[test]
fn every_tuple_is_derived_by_a_rule() {
    // replay the rules on the result: each tuple is the head of a rule whose body holds
    let (all_facts, output) = chain();
    let found = explain(&all_facts, &output, (p(3), vec![l(0)]));
    let requires: Vec<_> =
        all_facts.borrow_region.iter().chain(output.restricts.iter()).cloned().collect();
    for &(region, loan, point) in found.expl_requires.iter() {
        let base = found.expl_borrow_live_at.contains(&(loan, point))
            && all_facts.region_live_at.contains(&(region, point))
            && requires.contains(&(region, loan, point));
        let over_outlives = all_facts.outlives.iter().any(|&(r1, r2, q)| {
            r1 == region && q == point && found.expl_requires.contains(&(r2, loan, point))
        });
        let over_cfg = all_facts.cfg_edge.iter().any(|&(earlier, later)| {
            earlier == point
                && found.expl_requires.contains(&(region, loan, later))
                && !all_facts.killed.contains(&(loan, earlier))
                && all_facts.region_live_at.contains(&(region, earlier))
        });
        assert!(base || over_outlives || over_cfg);
    }
    for edge in found.expl_outlives.iter() {
        assert!(found.expl_subset.contains(edge));
        assert!(all_facts.outlives.contains(edge));
    }
}

#[test]
fn order_of_facts_does_not_change_the_explanation() {
    let (all_facts, output) = chain();
    let expected = explain(&all_facts, &output, (p(3), vec![l(0)]));
    let (mut all_facts, mut output) = chain();
    all_facts.region_live_at.reverse();
    all_facts.cfg_edge.reverse();
    all_facts.cfg_edge.push((p(1), p(2)));
    output.restricts.reverse();
    output.borrow_live_at.rotate_left(1);
    all_facts.outlives.push((r(1), r(2), p(2)));
    let found = explain(&all_facts, &output, (p(3), vec![l(0), l(0)]));
    assert_eq!(found.expl_borrow_live_at, expected.expl_borrow_live_at);
    assert_eq!(found.expl_requires, expected.expl_requires);
    assert_eq!(found.expl_subset, expected.expl_subset);
    assert_eq!(found.expl_outlives, expected.expl_outlives);
}

#[test]
fn steps_derive_tuples_in_the_order_in_which_they_are_found() {
    let (all_facts, output) = chain();
    let mut engine = ExplanationEngine::new(&all_facts, &output, (p(3), vec![l(0)]));
    engine.run();
    assert_eq!(
        engine.derived.expl_requires,
        vec![(r(2), l(0), p(3)), (r(2), l(0), p(2)), (r(1), l(0), p(2)), (r(1), l(0), p(1))]
    );
}

#[test]
fn cycle_in_control_flow_comes_to_an_end() {
    // a loop: 0 -> 1 -> 2 -> 1, the error at point 2
    let mut all_facts = AllInputFacts::new();
    all_facts.borrow_region = vec![(r(1), l(0), p(0))];
    all_facts.outlives = vec![(r(1), r(2), p(1)), (r(2), r(1), p(2))];
    all_facts.cfg_edge = vec![(p(0), p(1)), (p(1), p(2)), (p(2), p(1))];
    all_facts.region_live_at = vec![
        (r(1), p(0)),
        (r(1), p(1)),
        (r(1), p(2)),
        (r(2), p(1)),
        (r(2), p(2)),
    ];
    all_facts.invalidates = vec![(p(2), l(0))];
    let mut output = AllOutputFacts::new();
    output.restricts = vec![
        (r(1), l(0), p(1)),
        (r(1), l(0), p(2)),
        (r(2), l(0), p(1)),
        (r(2), l(0), p(2)),
    ];
    output.borrow_live_at = vec![(l(0), p(0)), (l(0), p(1)), (l(0), p(2))];
    let found = explain(&all_facts, &output, (p(2), vec![l(0)]));
    assert_eq!(
        sorted(&found.expl_requires),
        vec![
            (r(1), l(0), p(0)),
            (r(1), l(0), p(1)),
            (r(1), l(0), p(2)),
            (r(2), l(0), p(1)),
            (r(2), l(0), p(2)),
        ]
    );
    assert_eq!(sorted(&found.expl_outlives), vec![(r(1), r(2), p(1)), (r(2), r(1), p(2))]);
}

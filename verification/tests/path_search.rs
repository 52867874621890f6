use rust_life::atoms::{Loan, PointIndex, Region};
use rust_life::facts::{AllInputFacts, AllOutputFacts};
use rust_life::path::ErrorPathFinder;

fn r(n: usize) -> Region {
    Region(n)
}

fn l(n: usize) -> Loan {
    Loan(n)
}

fn p(n: usize) -> PointIndex {
    PointIndex(n)
}

/// `let r = &x; let s = r; x = 5; take(s);`
fn chain() -> (AllInputFacts, AllOutputFacts) {
    let mut all_facts = AllInputFacts::new();
    all_facts.borrow_region = vec![(r(1), l(0), p(1))];
    all_facts.outlives = vec![(r(1), r(2), p(2))];
    all_facts.region_live_at = vec![(r(1), p(1)), (r(1), p(2)), (r(2), p(2)), (r(2), p(3))];
    all_facts.cfg_edge = vec![(p(0), p(1)), (p(1), p(2)), (p(2), p(3))];
    all_facts.invalidates = vec![(p(3), l(0))];
    let mut output = AllOutputFacts::new();
    output.restricts =
        vec![(r(1), l(0), p(1)), (r(1), l(0), p(2)), (r(2), l(0), p(2)), (r(2), l(0), p(3))];
    output.borrow_live_at = vec![(l(0), p(1)), (l(0), p(2)), (l(0), p(3))];
    output.errors = vec![(p(3), vec![l(0)])];
    (all_facts, output)
}

/// The anchor is region 9 with loan 0 at point 0; region 1 holds the loan.
fn graph(edges: &[(usize, usize)]) -> (AllInputFacts, AllOutputFacts) {
    let mut all_facts = AllInputFacts::new();
    all_facts.borrow_region = vec![(r(1), l(0), p(7))];
    all_facts.outlives = edges.iter().map(|&(a, b)| (r(a), r(b), p(5))).collect();
    all_facts.region_live_at = vec![(r(9), p(0))];
    all_facts.invalidates = vec![(p(0), l(0))];
    let mut output = AllOutputFacts::new();
    output.restricts = vec![(r(9), l(0), p(0))];
    (all_facts, output)
}

fn find(all_facts: &AllInputFacts, output: &AllOutputFacts) -> Vec<Region> {
    let mut finder = ErrorPathFinder::new(all_facts, output, (p(0), vec![l(0)]), &all_facts.outlives);
    finder.compute_error_path()
}

#[test]
fn path_of_the_chain_without_temporaries() {
    let (all_facts, output) = chain();
    let mut finder =
        ErrorPathFinder::new(&all_facts, &output, (p(3), vec![l(0)]), &all_facts.outlives);
    assert_eq!(finder.error_loan, l(0));
    let path = finder.compute_error_path();
    // the region of `s` first, then the region of `r`
    assert_eq!(path, vec![r(2), r(1)]);
    assert_eq!(finder.error_loan, l(0));
}

#[test]
fn nothing_invalidated_gives_empty_path() {
    let (mut all_facts, output) = chain();
    all_facts.invalidates = vec![(p(2), l(0))];
    let mut finder =
        ErrorPathFinder::new(&all_facts, &output, (p(3), vec![l(0)]), &all_facts.outlives);
    assert_eq!(finder.select_anchor(), None);
    assert!(finder.compute_error_path().is_empty());
}

#[test]
fn empty_facts_give_empty_path() {
    let all_facts = AllInputFacts::new();
    let output = AllOutputFacts::new();
    let mut finder =
        ErrorPathFinder::new(&all_facts, &output, (p(0), vec![l(0)]), &all_facts.outlives);
    assert!(finder.compute_error_path().is_empty());
}

#[test]
fn region_that_is_not_live_is_no_anchor() {
    let (mut all_facts, output) = chain();
    all_facts.region_live_at = vec![(r(2), p(2))];
    let finder = ErrorPathFinder::new(&all_facts, &output, (p(3), vec![l(0)]), &all_facts.outlives);
    assert_eq!(finder.select_anchor(), None);
}

#[test]
fn anchor_is_least_by_region_then_loan() {
    let mut all_facts = AllInputFacts::new();
    all_facts.borrow_region = vec![(r(7), l(3), p(0)), (r(4), l(5), p(0))];
    all_facts.region_live_at = vec![(r(7), p(0)), (r(4), p(0)), (r(2), p(0))];
    all_facts.invalidates = vec![(p(0), l(3)), (p(0), l(5)), (p(0), l(1))];
    let mut output = AllOutputFacts::new();
    output.restricts = vec![(r(4), l(3), p(0)), (r(2), l(9), p(0)), (r(4), l(1), p(1))];
    let finder = ErrorPathFinder::new(&all_facts, &output, (p(0), vec![l(3)]), &all_facts.outlives);
    // region 2 requires a loan that is not invalidated; region 4 with loan 3 comes before loan 5
    assert_eq!(finder.select_anchor(), Some((r(4), l(3))));
}

#[test]
fn anchor_that_holds_the_loan_is_the_whole_path() {
    let mut all_facts = AllInputFacts::new();
    all_facts.borrow_region = vec![(r(4), l(5), p(0))];
    all_facts.outlives = vec![(r(1), r(4), p(0))];
    all_facts.region_live_at = vec![(r(4), p(0))];
    all_facts.invalidates = vec![(p(0), l(5))];
    let output = AllOutputFacts::new();
    let mut finder =
        ErrorPathFinder::new(&all_facts, &output, (p(0), vec![l(5)]), &all_facts.outlives);
    assert_eq!(finder.compute_error_path(), vec![r(4)]);
    assert_eq!(finder.error_loan, l(5));
}

#[test]
fn path_follows_edges_backwards() {
    let (all_facts, output) = graph(&[(1, 2), (2, 3), (3, 9)]);
    assert_eq!(find(&all_facts, &output), vec![r(9), r(3), r(2), r(1)]);
}

#[test]
fn reversed_path_has_edges_of_the_set_only_and_no_region_twice() {
    let edges = [(1, 2), (2, 3), (3, 2), (3, 9), (9, 3), (5, 9), (2, 5), (5, 5)];
    let (all_facts, output) = graph(&edges);
    let mut path = find(&all_facts, &output);
    assert!(!path.is_empty());
    path.reverse();
    for pair in path.windows(2) {
        assert!(edges.contains(&(pair[0].0, pair[1].0)));
    }
    for (i, a) in path.iter().enumerate() {
        for b in path.iter().skip(i + 1) {
            assert_ne!(a, b);
        }
    }
    assert_eq!(path[0], r(1));
    assert_eq!(*path.last().unwrap(), r(9));
}

#[test]
fn lower_predecessor_is_tried_first() {
    // two chains lead to region 1: over 3 and over 5
    let (all_facts, output) = graph(&[(5, 9), (3, 9), (1, 5), (1, 3)]);
    assert_eq!(find(&all_facts, &output), vec![r(9), r(3), r(1)]);
}

#[test]
fn dead_end_is_left_again() {
    // the lower predecessor 3 leads nowhere
    let (all_facts, output) = graph(&[(3, 9), (5, 9), (4, 3), (1, 5)]);
    assert_eq!(find(&all_facts, &output), vec![r(9), r(5), r(1)]);
}

#[test]
fn cycle_is_not_entered_twice() {
    let (all_facts, output) = graph(&[(3, 9), (9, 3), (4, 3), (3, 4), (1, 4)]);
    assert_eq!(find(&all_facts, &output), vec![r(9), r(3), r(4), r(1)]);
}

#[test]
fn unreachable_loan_gives_empty_path() {
    let (all_facts, output) = graph(&[(3, 9), (4, 3), (3, 4), (1, 2)]);
    assert!(find(&all_facts, &output).is_empty());
    let (all_facts, output) = graph(&[]);
    assert!(find(&all_facts, &output).is_empty());
}

#[test]
fn search_stops_at_the_first_region_with_the_loan() {
    let (mut all_facts, output) = graph(&[(3, 9), (1, 3), (0, 1)]);
    all_facts.borrow_region.push((r(0), l(0), p(7)));
    assert_eq!(find(&all_facts, &output), vec![r(9), r(3), r(1)]);
}

#[test]
fn order_of_facts_does_not_change_the_path() {
    let edges = [(5, 9), (3, 9), (1, 5), (1, 3), (4, 3), (3, 4), (3, 9)];
    let (all_facts, output) = graph(&edges);
    let expected = find(&all_facts, &output);
    assert_eq!(expected, vec![r(9), r(3), r(1)]);
    let mut turned = edges.to_vec();
    for _ in 0..edges.len() {
        turned.rotate_left(1);
        let (all_facts, output) = graph(&turned);
        assert_eq!(find(&all_facts, &output), expected);
        assert_eq!(find(&all_facts, &output), expected);
    }
    turned.reverse();
    let (mut all_facts, mut output) = graph(&turned);
    all_facts.borrow_region.reverse();
    all_facts.borrow_region.push((r(1), l(0), p(7)));
    output.restricts.push((r(9), l(0), p(0)));
    assert_eq!(find(&all_facts, &output), expected);
}

#[test]
fn predecessors_come_once_and_in_order() {
    let (all_facts, output) = graph(&[(5, 9), (3, 9), (5, 9), (1, 5), (9, 9), (3, 9)]);
    let finder = ErrorPathFinder::new(&all_facts, &output, (p(0), vec![l(0)]), &all_facts.outlives);
    assert_eq!(finder.find_prev_regions(r(9)), vec![r(3), r(5), r(9)]);
    assert_eq!(finder.find_prev_regions(r(5)), vec![r(1)]);
    assert!(finder.find_prev_regions(r(1)).is_empty());
}

#[test]
fn loans_of_a_region_come_in_the_order_of_the_facts() {
    let mut all_facts = AllInputFacts::new();
    all_facts.borrow_region =
        vec![(r(1), l(4), p(0)), (r(2), l(0), p(0)), (r(1), l(2), p(1)), (r(1), l(4), p(2))];
    let output = AllOutputFacts::new();
    let finder = ErrorPathFinder::new(&all_facts, &output, (p(0), vec![]), &all_facts.outlives);
    assert_eq!(finder.loan_of_reagion(r(1)), vec![l(4), l(2), l(4)]);
    assert_eq!(finder.loan_of_reagion(r(2)), vec![l(0)]);
    assert!(finder.loan_of_reagion(r(3)).is_empty());
}

#[test]
fn search_goes_on_behind_a_given_path() {
    let (all_facts, output) = graph(&[(3, 9), (5, 9), (1, 3), (1, 5)]);
    let mut finder =
        ErrorPathFinder::new(&all_facts, &output, (p(0), vec![l(0)]), &all_facts.outlives);
    finder.error_loan = l(0);
    // region 3 is behind us already, so the path goes over region 5
    let mut cur_path = vec![r(3)];
    assert!(finder.path_to_error_backwards(r(9), &mut cur_path));
    assert_eq!(cur_path, vec![r(3), r(9), r(5), r(1)]);
    // with the regions 3 and 5 behind us there is no way
    let mut cur_path = vec![r(3), r(5)];
    assert!(!finder.path_to_error_backwards(r(9), &mut cur_path));
    assert_eq!(cur_path, vec![r(3), r(5), r(9)]);
}

#[test]
fn search_looks_for_the_loan_it_is_given() {
    let (all_facts, output) = graph(&[(3, 9), (1, 3)]);
    let mut finder =
        ErrorPathFinder::new(&all_facts, &output, (p(0), vec![l(0)]), &all_facts.outlives);
    finder.error_loan = l(8);
    let mut cur_path = Vec::new();
    assert!(!finder.path_to_error_backwards(r(9), &mut cur_path));
    assert_eq!(cur_path, vec![r(9)]);
}

#[test]
fn many_paths_without_end_are_all_tried() {
    // every region below 8 has an edge to every other one, and none has the loan
    let mut edges = Vec::new();
    for a in 2..8 {
        for b in 2..8 {
            if a != b {
                edges.push((a, b));
            }
        }
    }
    edges.push((2, 9));
    let (all_facts, output) = graph(&edges);
    assert!(find(&all_facts, &output).is_empty());
    edges.push((1, 7));
    let (all_facts, output) = graph(&edges);
    assert_eq!(find(&all_facts, &output), vec![r(9), r(2), r(3), r(4), r(5), r(6), r(7), r(1)]);
}

#[test]
fn long_chain_is_followed() {
    let mut edges = Vec::new();
    for i in 1..600 {
        edges.push((i, i + 1));
    }
    let mut all_facts = AllInputFacts::new();
    all_facts.borrow_region = vec![(r(1), l(0), p(7))];
    all_facts.outlives = edges.iter().map(|&(a, b)| (r(a), r(b), p(5))).collect();
    all_facts.region_live_at = vec![(r(600), p(0))];
    all_facts.invalidates = vec![(p(0), l(0))];
    let mut output = AllOutputFacts::new();
    output.restricts = vec![(r(600), l(0), p(0))];
    let path = find(&all_facts, &output);
    assert_eq!(path.len(), 600);
    assert_eq!(path[0], r(600));
    assert_eq!(path[599], r(1));
}

#[test]
fn very_long_chain_needs_no_deep_stack() {
    let n = 3000;
    let mut all_facts = AllInputFacts::new();
    all_facts.borrow_region = vec![(r(n), l(0), p(7))];
    all_facts.outlives = (0..n).map(|i| (r(i + 1), r(i), p(5))).collect();
    all_facts.region_live_at = vec![(r(0), p(0))];
    all_facts.invalidates = vec![(p(0), l(0))];
    let mut output = AllOutputFacts::new();
    output.restricts = vec![(r(0), l(0), p(0))];
    let path = find(&all_facts, &output);
    assert_eq!(path.len(), n + 1);
    assert_eq!(path[0], r(0));
    assert_eq!(path[n], r(n));
}

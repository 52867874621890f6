use rust_life::atoms::{Loan, PointIndex, Region};
use rust_life::facts::{AllInputFacts, AllOutputFacts};
use rust_life::graph::{GraphBuilder, Variable};
use rust_life::report::{
    all_edges, copy_loans, error_graph, explain_error, graph_of_path, last_error_graph,
    outlives_graph, path_edges, path_to_explain_last_error, points_of_edge,
};

fn r(n: usize) -> Region {
    Region(n)
}

fn l(n: usize) -> Loan {
    Loan(n)
}

fn p(n: usize) -> PointIndex {
    PointIndex(n)
}

fn line(number: usize, text: &str) -> (usize, String) {
    (number, text.to_string())
}

/// Two errors in one function:
/// ```text
///  1  let mut x = 4;
///  2  let r = &x;        loan 0, region 1
///  3  let s = r;         region 2, over a temporary with region 5
///  4  x = 5;             first error
///  5  take(s);
///  6  let mut y = 4;
///  7  let a = &y;        loan 1, region 11
///  8  let b = a;         region 12
///  9  y = 5;             second error
/// 10  take(b);
/// ```
fn two_errors() -> (AllInputFacts, AllOutputFacts, GraphBuilder) {
    let mut all_facts = AllInputFacts::new();
    all_facts.borrow_region = vec![(r(1), l(0), p(2)), (r(11), l(1), p(7))];
    all_facts.outlives = vec![
        (r(1), r(5), p(3)),
        (r(5), r(2), p(3)),
        (r(11), r(12), p(8)),
        (r(11), r(12), p(8)),
        (r(11), r(12), p(9)),
    ];
    all_facts.cfg_edge = (1..10).map(|n| (p(n), p(n + 1))).collect();
    all_facts.region_live_at = vec![
        (r(1), p(2)),
        (r(1), p(3)),
        (r(5), p(3)),
        (r(2), p(3)),
        (r(2), p(4)),
        (r(11), p(7)),
        (r(11), p(8)),
        (r(12), p(8)),
        (r(12), p(9)),
    ];
    all_facts.invalidates = vec![(p(4), l(0)), (p(9), l(1))];
    let mut output = AllOutputFacts::new();
    output.restricts = vec![
        (r(1), l(0), p(3)),
        (r(5), l(0), p(3)),
        (r(2), l(0), p(3)),
        (r(2), l(0), p(4)),
        (r(11), l(1), p(8)),
        (r(12), l(1), p(8)),
        (r(12), l(1), p(9)),
    ];
    output.borrow_live_at = vec![
        (l(0), p(2)),
        (l(0), p(3)),
        (l(0), p(4)),
        (l(1), p(7)),
        (l(1), p(8)),
        (l(1), p(9)),
    ];
    output.errors = vec![(p(4), vec![l(0)]), (p(9), vec![l(1)])];
    let mut builder = GraphBuilder::new("main".to_string());
    let text = [
        "", "let mut x = 4;", "let r = &x;", "let s = r;", "x = 5;", "take(s);", "let mut y = 4;",
        "let a = &y;", "let b = a;", "y = 5;", "take(b);",
    ];
    for n in 1..=10 {
        builder.locate(p(n), n, text[n].to_string());
    }
    let variable = |name: &str, n: usize| Variable {
        name: Some(name.to_string()),
        line: n,
        text: text[n].to_string(),
    };
    builder.declare(r(1), variable("r", 2));
    builder.declare(r(2), variable("s", 3));
    builder.declare(r(5), Variable { name: None, line: 3, text: text[3].to_string() });
    builder.declare(r(11), variable("a", 7));
    builder.declare(r(12), variable("b", 8));
    (all_facts, output, builder)
}

#[test]
fn points_of_an_edge_leave_out_repetitions() {
    let outlives = vec![
        (r(1), r(2), p(3)),
        (r(1), r(2), p(3)),
        (r(2), r(1), p(4)),
        (r(1), r(2), p(5)),
        (r(1), r(2), p(3)),
    ];
    assert_eq!(points_of_edge(&outlives, r(1), r(2)), vec![p(3), p(5), p(3)]);
    assert_eq!(points_of_edge(&outlives, r(2), r(1)), vec![p(4)]);
    assert!(points_of_edge(&outlives, r(2), r(2)).is_empty());
}

#[test]
fn backward_path_becomes_forward_edges() {
    let (all_facts, _, _) = two_errors();
    let info = path_edges(&vec![r(2), r(5), r(1)], &all_facts.outlives);
    assert_eq!(info, vec![((r(1), r(5)), vec![p(3)]), ((r(5), r(2)), vec![p(3)])]);
    assert!(path_edges(&vec![r(2)], &all_facts.outlives).is_empty());
    assert!(path_edges(&Vec::new(), &all_facts.outlives).is_empty());
}

#[test]
fn loans_are_copied() {
    assert_eq!(copy_loans(&vec![l(3), l(1), l(3)]), vec![l(3), l(1), l(3)]);
    assert!(copy_loans(&Vec::new()).is_empty());
}

#[test]
fn each_error_is_explained_by_itself() {
    let (all_facts, output, _) = two_errors();
    let first = explain_error(&all_facts, &output, (p(4), vec![l(0)]));
    assert_eq!(first.path, vec![r(2), r(5), r(1)]);
    let mut edges = first.explanation.expl_outlives.clone();
    edges.sort();
    assert_eq!(edges, vec![(r(1), r(5), p(3)), (r(5), r(2), p(3))]);
    let second = explain_error(&all_facts, &output, (p(9), vec![l(1)]));
    assert_eq!(second.path, vec![r(12), r(11)]);
    assert_eq!(second.explanation.expl_outlives, vec![(r(11), r(12), p(8))]);
    // the first error is explained as before
    let again = explain_error(&all_facts, &output, (p(4), vec![l(0)]));
    assert_eq!(again.path, first.path);
    assert_eq!(again.explanation.expl_outlives, first.explanation.expl_outlives);
    assert_eq!(again.explanation.expl_requires, first.explanation.expl_requires);
}

#[test]
fn two_errors_give_two_graphs() {
    let (all_facts, output, builder) = two_errors();
    let first = error_graph(&builder, &all_facts, &output, (p(4), vec![l(0)])).unwrap();
    let second = error_graph(&builder, &all_facts, &output, (p(9), vec![l(1)])).unwrap();
    assert_eq!(first.edges, vec![(r(1), r(2))]);
    assert_eq!(first.lines_for_edges.get(&(r(1), r(2))), Some(&line(3, "let s = r;")));
    assert_eq!(second.edges, vec![(r(11), r(12))]);
    assert_eq!(second.lines_for_edges.get(&(r(11), r(12))), Some(&line(8, "let b = a;")));
    // neither graph knows a region of the other
    assert!(first.locals_for_regions.get(&r(11)).is_none());
    assert!(first.locals_for_regions.get(&r(12)).is_none());
    assert!(second.locals_for_regions.get(&r(1)).is_none());
    assert!(second.locals_for_regions.get(&r(2)).is_none());
    // in the other order the graphs are the same
    let (all_facts, output, builder) = two_errors();
    let second_again = error_graph(&builder, &all_facts, &output, (p(9), vec![l(1)])).unwrap();
    let first_again = error_graph(&builder, &all_facts, &output, (p(4), vec![l(0)])).unwrap();
    assert_eq!(first_again.edges, first.edges);
    assert_eq!(first_again.lines_for_edges.entries, first.lines_for_edges.entries);
    assert_eq!(first_again.lines_for_regions.entries, first.lines_for_regions.entries);
    assert_eq!(second_again.edges, second.edges);
    assert_eq!(second_again.lines_for_edges.entries, second.lines_for_edges.entries);
    assert_eq!(second_again.locals_info_for_regions.entries, second.locals_info_for_regions.entries);
}

#[test]
fn error_without_path_has_no_graph() {
    let (all_facts, output, builder) = two_errors();
    assert!(error_graph(&builder, &all_facts, &output, (p(5), vec![l(0)])).is_none());
    let found = explain_error(&all_facts, &output, (p(5), vec![l(0)]));
    assert!(found.path.is_empty());
    assert!(found.explanation.expl_outlives.is_empty());
}

#[test]
fn last_error_with_a_path_is_kept() {
    let (all_facts, mut output, builder) = two_errors();
    assert_eq!(path_to_explain_last_error(&all_facts, &output), vec![r(12), r(11)]);
    let graph = last_error_graph(&builder, &all_facts, &output).unwrap();
    assert_eq!(graph.edges, vec![(r(11), r(12))]);
    // an error without a path does not take the path away
    output.errors.push((p(5), vec![l(0)]));
    assert_eq!(path_to_explain_last_error(&all_facts, &output), vec![r(12), r(11)]);
    output.errors = vec![(p(9), vec![l(1)]), (p(4), vec![l(0)]), (p(1), vec![])];
    assert_eq!(path_to_explain_last_error(&all_facts, &output), vec![r(2), r(5), r(1)]);
    let graph = last_error_graph(&builder, &all_facts, &output).unwrap();
    assert_eq!(graph.edges, vec![(r(1), r(2))]);
}

#[test]
fn no_error_gives_no_graph() {
    let (all_facts, mut output, builder) = two_errors();
    output.errors = Vec::new();
    assert!(path_to_explain_last_error(&all_facts, &output).is_empty());
    assert!(last_error_graph(&builder, &all_facts, &output).is_none());
    output.errors = vec![(p(5), vec![l(0)])];
    assert!(last_error_graph(&builder, &all_facts, &output).is_none());
}

#[test]
fn graph_of_a_path_is_improved() {
    let (all_facts, _, builder) = two_errors();
    let graph = graph_of_path(&builder, &all_facts, &vec![r(2), r(5), r(1)]).unwrap();
    assert_eq!(graph.edges, vec![(r(1), r(2))]);
    assert_eq!(graph.function_name, "main");
    assert_eq!(
        graph.lines_for_regions.get(&r(1)),
        Some(&vec![line(2, "let r = &x;")])
    );
    assert!(graph_of_path(&builder, &all_facts, &Vec::new()).is_none());
    // a path of one region has a graph without edges
    let single = graph_of_path(&builder, &all_facts, &vec![r(2)]).unwrap();
    assert!(single.edges.is_empty());
}

#[test]
fn all_edges_come_once_with_their_points() {
    let (all_facts, _, _) = two_errors();
    assert_eq!(
        all_edges(&all_facts.outlives),
        vec![
            ((r(1), r(5)), vec![p(3)]),
            ((r(5), r(2)), vec![p(3)]),
            ((r(11), r(12)), vec![p(8), p(9)]),
        ]
    );
    assert!(all_edges(&Vec::new()).is_empty());
}

#[test]
fn graph_of_all_outlives_facts_keeps_every_region() {
    let (all_facts, _, builder) = two_errors();
    let graph = outlives_graph(&builder, &all_facts);
    assert_eq!(graph.edges, vec![(r(1), r(5)), (r(5), r(2)), (r(11), r(12))]);
    assert_eq!(graph.lines_for_edges.get(&(r(11), r(12))), Some(&line(8, "let b = a;")));
    assert_eq!(graph.locals_for_regions.len(), 5);
    assert_eq!(
        graph.locals_info_for_regions.get(&r(5)),
        Some(&(3, "anonymous Variable".to_string(), "let s = r;".to_string()))
    );
}

use rust_life::atoms::{Loan, PointIndex, Region};
use rust_life::graph::{EdgeInfo, EnrichedErrorGraph, GraphBuilder, Variable};
use rust_life::simplify::splice_region;

fn r(n: usize) -> Region {
    Region(n)
}

fn l(n: usize) -> Loan {
    Loan(n)
}

fn p(n: usize) -> PointIndex {
    PointIndex(n)
}

fn named(name: &str, line: usize, text: &str) -> Variable {
    Variable { name: Some(name.to_string()), line, text: text.to_string() }
}

fn temporary(line: usize, text: &str) -> Variable {
    Variable { name: None, line, text: text.to_string() }
}

fn line(number: usize, text: &str) -> (usize, String) {
    (number, text.to_string())
}

/// ```text
/// 1  let mut x = 4;
/// 2  let r = &x;
/// 3  let s = r;
/// 4  x = 5;
/// 5  take(s);
/// ```
fn builder() -> GraphBuilder {
    let mut builder = GraphBuilder::new("main".to_string());
    builder.declare(r(1), named("r", 2, "let r = &x;"));
    builder.declare(r(2), named("s", 3, "let s = r;"));
    builder.declare(r(5), temporary(3, "let s = r;"));
    builder.locate(p(1), 2, "let r = &x;".to_string());
    builder.locate(p(2), 3, "let s = r;".to_string());
    builder.locate(p(3), 4, "x = 5;".to_string());
    builder.locate(p(4), 5, "take(s);".to_string());
    builder
}

fn facts() -> Vec<(Region, Loan, PointIndex)> {
    vec![
        (r(1), l(0), p(2)),
        (r(1), l(0), p(1)),
        (r(2), l(0), p(3)),
        (r(1), l(0), p(2)),
        (r(2), l(0), p(9)),
        (r(2), l(0), p(4)),
    ]
}

fn edge(from: usize, to: usize, points: &[usize]) -> EdgeInfo {
    ((r(from), r(to)), points.iter().map(|&n| p(n)).collect())
}

fn path_graph(regions: &[usize]) -> EnrichedErrorGraph {
    let info: Vec<EdgeInfo> =
        regions.windows(2).map(|pair| edge(pair[0], pair[1], &[pair[0]])).collect();
    let mut builder = GraphBuilder::new("f".to_string());
    for &n in regions {
        builder.locate(p(n), 10 + n, format!("line {}", 10 + n));
    }
    builder.create_enriched_graph(&info, &Vec::new())
}

#[test]
fn local_of_a_region_is_found() {
    let builder = builder();
    let (variable, number, name, text) = builder.find_local_for_region(&r(1));
    assert_eq!(variable.unwrap().name, Some("r".to_string()));
    assert_eq!((number, name.as_str(), text.as_str()), (2, "r", "let r = &x;"));
}

#[test]
fn local_without_name_is_called_anonymous() {
    let builder = builder();
    let (variable, number, name, text) = builder.find_local_for_region(&r(5));
    assert_eq!(variable.unwrap().name, None);
    assert_eq!((number, name.as_str(), text.as_str()), (3, "anonymous Variable", "let s = r;"));
}

#[test]
fn unknown_region_has_empty_local() {
    let builder = builder();
    let (variable, number, name, text) = builder.find_local_for_region(&r(8));
    assert!(variable.is_none());
    assert_eq!((number, name.as_str(), text.as_str()), (0, "", ""));
}

#[test]
fn line_of_a_point_is_looked_up() {
    let builder = builder();
    assert_eq!(builder.get_line_for_point(p(3)), Some(line(4, "x = 5;")));
    assert_eq!(builder.get_line_for_point(p(0)), None);
}

#[test]
fn first_line_is_the_lowest() {
    let builder = builder();
    assert_eq!(builder.find_first_line_for_points(&vec![p(3), p(1), p(4)]), line(2, "let r = &x;"));
    assert_eq!(builder.find_first_line_for_points(&vec![p(4)]), line(5, "take(s);"));
    // a point without a line is passed over
    assert_eq!(builder.find_first_line_for_points(&vec![p(9), p(3)]), line(4, "x = 5;"));
}

#[test]
fn first_line_of_no_points_is_empty() {
    let builder = builder();
    assert_eq!(builder.find_first_line_for_points(&vec![]), line(usize::MAX, ""));
    assert_eq!(builder.find_first_line_for_points(&vec![p(9)]), line(usize::MAX, ""));
}

#[test]
fn first_line_takes_the_text_of_the_first_point() {
    let mut builder = GraphBuilder::new("f".to_string());
    builder.locate(p(0), 7, "first".to_string());
    builder.locate(p(1), 7, "second".to_string());
    assert_eq!(builder.find_first_line_for_points(&vec![p(1), p(0)]), line(7, "second"));
}

#[test]
fn points_of_a_region_come_in_the_order_of_the_facts() {
    let builder = builder();
    assert_eq!(builder.get_points_for_region(r(1), &facts()), vec![p(2), p(1), p(2)]);
    assert_eq!(builder.get_points_for_region(r(2), &facts()), vec![p(3), p(9), p(4)]);
    assert!(builder.get_points_for_region(r(3), &facts()).is_empty());
}

#[test]
fn lines_of_a_region_are_ascending_and_distinct() {
    let builder = builder();
    assert_eq!(
        builder.get_lines_for_region(r(1), &facts()),
        vec![line(2, "let r = &x;"), line(3, "let s = r;")]
    );
    assert_eq!(
        builder.get_lines_for_region(r(2), &facts()),
        vec![line(4, "x = 5;"), line(5, "take(s);")]
    );
    assert!(builder.get_lines_for_region(r(3), &facts()).is_empty());
}

#[test]
fn graph_without_temporaries_keeps_both_regions() {
    let builder = builder();
    let info = vec![edge(1, 2, &[2])];
    let mut graph = builder.create_enriched_graph(&info, &facts());
    assert_eq!(graph.function_name, "main");
    assert_eq!(graph.edges, vec![(r(1), r(2))]);
    assert_eq!(
        graph.locals_info_for_regions.entries,
        vec![
            (r(1), (2, "r".to_string(), "let r = &x;".to_string())),
            (r(2), (3, "s".to_string(), "let s = r;".to_string())),
        ]
    );
    assert_eq!(
        graph.lines_for_regions.entries,
        vec![
            (r(1), vec![line(2, "let r = &x;"), line(3, "let s = r;")]),
            (r(2), vec![line(4, "x = 5;"), line(5, "take(s);")]),
        ]
    );
    assert_eq!(graph.lines_for_edges.entries, vec![((r(1), r(2)), line(3, "let s = r;"))]);
    assert_eq!(graph.lines_for_edges_start.entries, vec![(r(1), line(3, "let s = r;"))]);
    assert_eq!(graph.find_entry_region(), Some(r(1)));
    assert_eq!(graph.find_exit_region(), Some(r(2)));
    graph.improve_graph();
    assert_eq!(graph.edges, vec![(r(1), r(2))]);
    assert_eq!(graph.lines_for_edges.entries, vec![((r(1), r(2)), line(3, "let s = r;"))]);
    assert_eq!(graph.locals_for_regions.entries.len(), 2);
    assert!(graph.locals_for_regions.entries.iter().all(|(_, v)| v.as_ref().unwrap().name.is_some()));
}

#[test]
fn temporary_between_two_regions_is_collapsed() {
    let builder = builder();
    // the edge into the temporary stems from line 3, the edge out of it from line 4
    let info = vec![edge(1, 5, &[2]), edge(5, 2, &[3])];
    let mut graph = builder.create_enriched_graph(&info, &facts());
    assert_eq!(graph.edges, vec![(r(1), r(5)), (r(5), r(2))]);
    assert_eq!(
        graph.lines_for_edges.entries,
        vec![((r(1), r(5)), line(3, "let s = r;")), ((r(5), r(2)), line(4, "x = 5;"))]
    );
    graph.improve_graph();
    // the same two regions as without the temporary, joined by one edge
    assert_eq!(graph.edges, vec![(r(1), r(2))]);
    assert_eq!(graph.lines_for_edges.get(&(r(1), r(2))), Some(&line(3, "let s = r;")));
    assert_eq!(graph.find_entry_region(), Some(r(1)));
    assert_eq!(graph.find_exit_region(), Some(r(2)));
    // what was noted of the temporary is kept
    assert_eq!(
        graph.locals_info_for_regions.get(&r(5)),
        Some(&(3, "anonymous Variable".to_string(), "let s = r;".to_string()))
    );
    assert_eq!(graph.lines_for_edges_start.get(&r(5)), Some(&line(4, "x = 5;")));
}

#[test]
fn collapsed_graph_equals_graph_without_temporary() {
    let builder = builder();
    let mut with = builder.create_enriched_graph(&vec![edge(1, 5, &[2]), edge(5, 2, &[3])], &facts());
    with.improve_graph();
    let mut without = builder.create_enriched_graph(&vec![edge(1, 2, &[2])], &facts());
    without.improve_graph();
    assert_eq!(with.edges, without.edges);
    assert_eq!(with.lines_for_edges.get(&(r(1), r(2))), without.lines_for_edges.get(&(r(1), r(2))));
    assert_eq!(with.locals_info_for_regions.get(&r(1)), without.locals_info_for_regions.get(&r(1)));
    assert_eq!(with.locals_info_for_regions.get(&r(2)), without.locals_info_for_regions.get(&r(2)));
}

#[test]
fn region_without_variable_is_collapsed() {
    let builder = builder();
    let info = vec![edge(1, 8, &[1]), edge(8, 2, &[3])];
    let mut graph = builder.create_enriched_graph(&info, &facts());
    assert_eq!(graph.locals_info_for_regions.get(&r(8)), Some(&(0, String::new(), String::new())));
    graph.improve_graph();
    assert_eq!(graph.edges, vec![(r(1), r(2))]);
    assert_eq!(graph.lines_for_edges.get(&(r(1), r(2))), Some(&line(2, "let r = &x;")));
}

#[test]
fn entry_and_exit_stay_even_without_names() {
    // no region of this path has a variable
    let mut graph = path_graph(&[4, 6, 7, 9]);
    assert_eq!(graph.find_entry_region(), Some(r(4)));
    assert_eq!(graph.find_exit_region(), Some(r(9)));
    graph.improve_graph();
    assert_eq!(graph.edges, vec![(r(4), r(9))]);
    assert_eq!(graph.find_entry_region(), Some(r(4)));
    assert_eq!(graph.find_exit_region(), Some(r(9)));
    // the edge that is left has the line of the edge that left region 4
    assert_eq!(graph.lines_for_edges.get(&(r(4), r(9))), Some(&line(14, "line 14")));
}

#[test]
fn path_of_two_regions_is_left_alone() {
    let mut graph = path_graph(&[4, 9]);
    graph.improve_graph();
    assert_eq!(graph.edges, vec![(r(4), r(9))]);
}

#[test]
fn simplified_edges_lead_from_entry_to_exit() {
    let mut builder = GraphBuilder::new("f".to_string());
    for n in [1, 4, 6] {
        builder.declare(r(n), named("v", n, "text"));
    }
    builder.declare(r(3), temporary(3, "text"));
    let regions = [1, 2, 3, 4, 5, 6];
    let info: Vec<EdgeInfo> =
        regions.windows(2).map(|pair| edge(pair[0], pair[1], &[])).collect();
    let mut graph = builder.create_enriched_graph(&info, &Vec::new());
    graph.improve_graph();
    let mut edges = graph.edges.clone();
    edges.sort();
    assert_eq!(edges, vec![(r(1), r(4)), (r(4), r(6))]);
    // walk from the entry along the edges
    let mut at = graph.find_entry_region().unwrap();
    let exit = graph.find_exit_region().unwrap();
    let mut steps = 0;
    while at != exit {
        at = graph.edges.iter().find(|e| e.0 == at).unwrap().1;
        steps += 1;
        assert!(steps <= graph.edges.len());
    }
    assert_eq!((graph.find_entry_region(), graph.find_exit_region()), (Some(r(1)), Some(r(6))));
    assert_eq!(graph.lines_for_edges.get(&(r(1), r(4))), Some(&line(usize::MAX, "")));
}

#[test]
fn graph_without_edges_has_no_entry() {
    let builder = builder();
    let mut graph = builder.create_enriched_graph(&Vec::new(), &facts());
    assert!(graph.edges.is_empty());
    assert_eq!(graph.find_entry_region(), None);
    assert_eq!(graph.find_exit_region(), None);
    graph.improve_graph();
    assert!(graph.edges.is_empty());
}

#[test]
fn cycle_has_no_entry_and_no_exit() {
    let builder = builder();
    let info = vec![edge(1, 2, &[1]), edge(2, 1, &[2])];
    let graph = builder.create_enriched_graph(&info, &facts());
    assert_eq!(graph.find_entry_region(), None);
    assert_eq!(graph.find_exit_region(), None);
}

#[test]
fn edge_that_comes_twice_is_kept_once_with_its_last_points() {
    let builder = builder();
    let info = vec![edge(1, 2, &[1]), edge(1, 2, &[3])];
    let graph = builder.create_enriched_graph(&info, &facts());
    assert_eq!(graph.edges, vec![(r(1), r(2))]);
    assert_eq!(graph.lines_for_edges.entries, vec![((r(1), r(2)), line(4, "x = 5;"))]);
}

#[test]
fn splicing_joins_all_before_with_all_behind() {
    let mut edges = vec![(r(1), r(5)), (r(2), r(5)), (r(5), r(3)), (r(5), r(4)), (r(1), r(2))];
    let mut lines = rust_life::assoc::AssocMap::new();
    for (i, e) in edges.iter().enumerate() {
        lines.insert(*e, line(i, "text"));
    }
    splice_region(&mut edges, &mut lines, r(5));
    assert_eq!(
        edges,
        vec![(r(1), r(2)), (r(1), r(3)), (r(1), r(4)), (r(2), r(3)), (r(2), r(4))]
    );
    assert_eq!(lines.get(&(r(1), r(3))), Some(&line(0, "text")));
    assert_eq!(lines.get(&(r(1), r(4))), Some(&line(0, "text")));
    assert_eq!(lines.get(&(r(2), r(3))), Some(&line(1, "text")));
    assert_eq!(lines.get(&(r(2), r(4))), Some(&line(1, "text")));
    assert_eq!(lines.get(&(r(1), r(2))), Some(&line(4, "text")));
    // the lines of the edges that left are kept
    assert_eq!(lines.get(&(r(5), r(3))), Some(&line(2, "text")));
}

#[test]
fn splicing_a_region_without_edges_changes_nothing() {
    let mut edges = vec![(r(1), r(2)), (r(2), r(3))];
    let mut lines = rust_life::assoc::AssocMap::new();
    lines.insert((r(1), r(2)), line(1, "a"));
    lines.insert((r(2), r(3)), line(2, "b"));
    splice_region(&mut edges, &mut lines, r(7));
    assert_eq!(edges, vec![(r(1), r(2)), (r(2), r(3))]);
    assert_eq!(lines.len(), 2);
}

#[test]
fn variable_is_copied() {
    let v = named("r", 2, "let r = &x;");
    let copy = v.duplicate();
    assert_eq!(copy.name, v.name);
    assert!(copy.is_named());
    assert_eq!((copy.line, copy.text), (v.line, v.text));
    assert!(!temporary(1, "").is_named());
}

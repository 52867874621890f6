use rust_life::atoms::{Loan, PointIndex, Region};
use rust_life::graph::{EdgeInfo, GraphBuilder, Variable};
use rust_life::recovery::{
    definition_of, load_region_to_local_map, number_of_group, region_name, regions_of,
    variable_definition,
};
use rust_life::render::{copy_lines, escape_markup};

fn r(n: usize) -> Region {
    Region(n)
}

fn p(n: usize) -> PointIndex {
    PointIndex(n)
}

fn line(number: usize, text: &str) -> (usize, String) {
    (number, text.to_string())
}

fn text(s: &str) -> Option<String> {
    Some(s.to_string())
}

#[test]
fn markup_is_escaped() {
    assert_eq!(escape_markup("let r = &x;"), "let r = &amp;x;");
    assert_eq!(escape_markup("Vec<&'a T>"), "Vec&lt;&amp;'a T&gt;");
    assert_eq!(escape_markup("a && b"), "a &amp;&amp; b");
    assert_eq!(escape_markup("&amp;"), "&amp;amp;");
    assert_eq!(escape_markup("plain"), "plain");
    assert_eq!(escape_markup(""), "");
    assert_eq!(escape_markup("gr\u{fc}n < bl\u{e4}u"), "gr\u{fc}n &lt; bl\u{e4}u");
}

#[test]
fn lines_are_copied() {
    let lines = vec![line(2, "a"), line(5, "b")];
    assert_eq!(copy_lines(&lines), lines);
    assert!(copy_lines(&Vec::new()).is_empty());
}

#[test]
fn diagram_shows_each_edge_with_its_regions() {
    let mut builder = GraphBuilder::new("main".to_string());
    builder.declare(r(1), Variable { name: Some("r".to_string()), line: 2, text: "let r = &x;".to_string() });
    builder.declare(r(5), Variable { name: None, line: 3, text: "let s = r;".to_string() });
    builder.locate(p(2), 3, "let s = r;".to_string());
    builder.locate(p(3), 4, "x = 5;".to_string());
    let info: Vec<EdgeInfo> = vec![((r(1), r(5)), vec![p(2)]), ((r(5), r(2)), vec![p(3)])];
    let facts = vec![(r(1), Loan(0), p(2)), (r(1), Loan(0), p(3))];
    let graph = builder.create_enriched_graph(&info, &facts);
    let boxes = graph.diagram();
    assert_eq!(boxes.len(), 2);
    assert_eq!(boxes[0].from.region, r(1));
    assert_eq!(boxes[0].from.line_number, 2);
    assert_eq!(boxes[0].from.name, "r");
    assert_eq!(boxes[0].from.source, "let r = &x;");
    assert_eq!(boxes[0].from.lines, vec![line(3, "let s = r;"), line(4, "x = 5;")]);
    assert_eq!(boxes[0].to.region, r(5));
    assert_eq!(boxes[0].to.name, "anonymous Variable");
    assert_eq!(boxes[0].origin, line(3, "let s = r;"));
    assert_eq!(boxes[1].from.region, r(5));
    assert_eq!(boxes[1].to.region, r(2));
    assert_eq!(boxes[1].to.line_number, 0);
    assert_eq!(boxes[1].to.name, "");
    assert_eq!(boxes[1].to.source, "");
    assert!(boxes[1].to.lines.is_empty());
    assert_eq!(boxes[1].origin, line(4, "x = 5;"));
    let shown = graph.region_box(r(9));
    assert_eq!((shown.region, shown.line_number, shown.name.as_str()), (r(9), 0, ""));
}

#[test]
fn diagram_of_improved_graph_has_the_merged_edge() {
    let mut builder = GraphBuilder::new("main".to_string());
    builder.declare(r(1), Variable { name: Some("r".to_string()), line: 2, text: "let r = &x;".to_string() });
    builder.declare(r(2), Variable { name: Some("s".to_string()), line: 3, text: "let s = r;".to_string() });
    builder.locate(p(2), 3, "let s = r;".to_string());
    builder.locate(p(3), 4, "x = 5;".to_string());
    let info: Vec<EdgeInfo> = vec![((r(1), r(5)), vec![p(2)]), ((r(5), r(2)), vec![p(3)])];
    let mut graph = builder.create_enriched_graph(&info, &Vec::new());
    graph.improve_graph();
    let boxes = graph.diagram();
    assert_eq!(boxes.len(), 1);
    assert_eq!((boxes[0].from.region, boxes[0].to.region), (r(1), r(2)));
    assert_eq!(boxes[0].from.name, "r");
    assert_eq!(boxes[0].to.name, "s");
    assert_eq!(boxes[0].origin, line(3, "let s = r;"));
}

#[test]
fn number_of_a_group_is_read() {
    assert_eq!(number_of_group(&text("12")), Some(12));
    assert_eq!(number_of_group(&text("")), None);
    assert_eq!(number_of_group(&text("1a")), None);
    assert_eq!(number_of_group(&None), None);
}

#[test]
fn definition_is_read_from_groups() {
    let groups = Some(vec![text("    let mut _3: &'_#5r i32;"), text("mut "), text("3"), text("&'_#5r i32;")]);
    assert_eq!(definition_of(&groups), Some((3, "&'_#5r i32;".to_string())));
    let groups = Some(vec![text("    let _3: i32;"), None, text("3"), text("i32;")]);
    assert_eq!(definition_of(&groups), Some((3, "i32;".to_string())));
    assert_eq!(definition_of(&None), None);
    assert_eq!(definition_of(&Some(vec![text("x"), None, text("3")])), None);
    assert_eq!(definition_of(&Some(vec![text("x"), None, None, text("i32")])), None);
    assert_eq!(definition_of(&Some(vec![text("x"), None, text("3"), None])), None);
    assert_eq!(definition_of(&Some(vec![text("x"), None, text("x"), text("i32")])), None);
}

#[test]
fn regions_are_read_from_matches() {
    let matches = vec![
        vec![text("'_#5r"), text("5")],
        vec![text("'_#12r"), text("12")],
        vec![text("'_#r"), text("")],
        vec![text("'_#5r")],
        vec![text("'_#5r"), text("5")],
    ];
    assert_eq!(regions_of(&matches), vec![r(5), r(12), r(5)]);
    assert!(regions_of(&Vec::new()).is_empty());
}

#[test]
fn expressions_are_as_written() {
    assert_eq!(variable_definition(), r"^\s+let (mut )?_(?P<local>\d+): (?P<type>.+)$");
    assert_eq!(region_name(), r"'_#(\d+)r");
}

#[test]
fn locals_are_recovered_from_the_body() {
    let body: Vec<String> = [
        "fn main() -> () {",
        "    let mut _0: ();",
        "    let mut _1: i32;",
        "    let _2: &'_#3r i32;",
        "    let mut _4: std::vec::Vec<&'_#6r &'_#7r mut i32>;",
        "    scope 1 {",
        "        let _5: &'_#8r i32;",
        "    }",
        "    bb0: {",
        "        _2 = &'_#2r _1;",
        "        let this is no local: &'_#9r",
        "    }",
        "}",
    ]
    .iter()
    .map(|s| s.to_string())
    .collect();
    let map = load_region_to_local_map(&body).unwrap();
    assert_eq!(map.entries, vec![(r(3), 2), (r(6), 4), (r(7), 4), (r(8), 5)]);
    assert_eq!(map.get(&r(2)), None);
}

#[test]
fn last_local_of_a_region_is_kept() {
    let body: Vec<String> =
        ["    let _2: &'_#3r i32;", "    let _7: &'_#3r &'_#4r i32;"].iter().map(|s| s.to_string()).collect();
    let map = load_region_to_local_map(&body).unwrap();
    assert_eq!(map.entries, vec![(r(3), 7), (r(4), 7)]);
    assert!(load_region_to_local_map(&Vec::new()).unwrap().entries.is_empty());
}

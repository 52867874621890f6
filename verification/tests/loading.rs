use rust_life::atoms::{Loan, Location, Point, PointIndex, PointType, Region};
use rust_life::loader::{load_facts_from_file, schema, AtomKind, FactError, FactLoader, RawFacts};

fn rows(table: &[&[&str]]) -> Vec<Vec<String>> {
    table.iter().map(|row| row.iter().map(|field| field.to_string()).collect()).collect()
}

fn no_rows() -> Vec<Vec<String>> {
    Vec::new()
}

fn sample() -> RawFacts {
    RawFacts {
        borrow_region: rows(&[&["\\'_#1r", "bw0", "Mid(bb0[1])"]]),
        universal_region: rows(&[&["\\'_#0r"]]),
        cfg_edge: rows(&[
            &["Start(bb0[0])", "Mid(bb0[0])"],
            &["Mid(bb0[0])", "Start(bb0[1])"],
            &["Start(bb0[1])", "Mid(bb0[1])"],
        ]),
        killed: rows(&[&["bw0", "Mid(bb0[0])"]]),
        outlives: rows(&[&["\\'_#1r", "\\'_#2r", "Mid(bb0[1])"]]),
        region_live_at: rows(&[&["\\'_#2r", "Start(bb0[1])"]]),
        invalidates: rows(&[&["Start(bb0[1])", "bw0"]]),
    }
}

#[test]
fn text_of_a_fact_file_is_taken_apart() {
    let text = b"\"\\'_#1r\"\t\"bw0\"\t\"Mid(bb0[1])\"\n\"\\'_#2r\"\t\"bw1\"\t\"Start(bb3[0])\"\n";
    let found = load_facts_from_file(text).unwrap();
    assert_eq!(
        found,
        rows(&[&["\\'_#1r", "bw0", "Mid(bb0[1])"], &["\\'_#2r", "bw1", "Start(bb3[0])"]])
    );
}

#[test]
fn first_row_is_no_header() {
    let found = load_facts_from_file(b"a\tb\nc\td\n").unwrap();
    assert_eq!(found, rows(&[&["a", "b"], &["c", "d"]]));
}

#[test]
fn fields_are_parted_by_tabs_only() {
    let found = load_facts_from_file(b"a,b c\td\n").unwrap();
    assert_eq!(found, rows(&[&["a,b c", "d"]]));
}

#[test]
fn empty_text_has_no_rows() {
    assert_eq!(load_facts_from_file(b"").unwrap(), no_rows());
}

#[test]
fn rows_of_unequal_length_are_no_table() {
    assert_eq!(load_facts_from_file(b"a\tb\nc\n"), Err(FactError::Table));
}

#[test]
fn text_that_is_no_utf8_is_no_table() {
    assert_eq!(load_facts_from_file(b"a\t\xff\xfe\n"), Err(FactError::Table));
}

#[test]
fn schemas_name_the_kinds_of_fields() {
    assert_eq!(schema(0), vec![AtomKind::Region, AtomKind::Loan, AtomKind::Point]);
    assert_eq!(schema(1), vec![AtomKind::Region]);
    assert_eq!(schema(2), vec![AtomKind::Point, AtomKind::Point]);
    assert_eq!(schema(3), vec![AtomKind::Loan, AtomKind::Point]);
    assert_eq!(schema(4), vec![AtomKind::Region, AtomKind::Region, AtomKind::Point]);
    assert_eq!(schema(5), vec![AtomKind::Region, AtomKind::Point]);
    assert_eq!(schema(6), vec![AtomKind::Point, AtomKind::Loan]);
}

#[test]
fn facts_are_loaded() {
    let mut loader = FactLoader::new();
    assert_eq!(loader.load_all_facts(&sample()), Ok(()));
    // points in the order in which they are met:
    // Mid(bb0[1]) = 0, Start(bb0[0]) = 1, Mid(bb0[0]) = 2, Start(bb0[1]) = 3
    assert_eq!(loader.facts.borrow_region, vec![(Region(1), Loan(0), PointIndex(0))]);
    assert_eq!(loader.facts.universal_region, vec![Region(0)]);
    assert_eq!(
        loader.facts.cfg_edge,
        vec![
            (PointIndex(1), PointIndex(2)),
            (PointIndex(2), PointIndex(3)),
            (PointIndex(3), PointIndex(0)),
        ]
    );
    assert_eq!(loader.facts.killed, vec![(Loan(0), PointIndex(2))]);
    assert_eq!(loader.facts.outlives, vec![(Region(1), Region(2), PointIndex(0))]);
    assert_eq!(loader.facts.region_live_at, vec![(Region(2), PointIndex(3))]);
    assert_eq!(loader.facts.invalidates, vec![(PointIndex(3), Loan(0))]);
    assert_eq!(
        loader.interner.points.interned_elements,
        vec![
            Point { location: Location { block: 0, statement_index: 1 }, typ: PointType::Mid },
            Point { location: Location { block: 0, statement_index: 0 }, typ: PointType::Start },
            Point { location: Location { block: 0, statement_index: 0 }, typ: PointType::Mid },
            Point { location: Location { block: 0, statement_index: 1 }, typ: PointType::Start },
        ]
    );
}

#[test]
fn loading_twice_puts_facts_behind_facts() {
    let mut loader = FactLoader::new();
    assert_eq!(loader.load_all_facts(&sample()), Ok(()));
    assert_eq!(loader.load_all_facts(&sample()), Ok(()));
    assert_eq!(
        loader.facts.borrow_region,
        vec![(Region(1), Loan(0), PointIndex(0)), (Region(1), Loan(0), PointIndex(0))]
    );
    assert_eq!(loader.facts.cfg_edge.len(), 6);
    assert_eq!(loader.interner.points.interned_elements.len(), 4);
}

#[test]
fn first_bad_row_is_named() {
    let mut raw = sample();
    raw.cfg_edge = rows(&[
        &["Start(bb0[0])", "Mid(bb0[0])"],
        &["Mid(bb0[0])", "bw1"],
        &["nothing", "Mid(bb0[1])"],
    ]);
    raw.outlives = rows(&[&["\\'_#1r", "Mid(bb0[1])"]]);
    let mut loader = FactLoader::new();
    assert_eq!(loader.load_all_facts(&raw), Err(FactError::Row { relation: 2, row: 1 }));
    assert!(loader.facts.borrow_region.is_empty());
    assert!(loader.facts.cfg_edge.is_empty());
    assert!(loader.facts.invalidates.is_empty());
}

#[test]
fn row_with_too_few_fields_is_bad() {
    let mut raw = sample();
    raw.invalidates = rows(&[&["Start(bb0[1])", "bw0"], &["Start(bb0[1])"]]);
    let mut loader = FactLoader::new();
    assert_eq!(loader.load_all_facts(&raw), Err(FactError::Row { relation: 6, row: 1 }));
}

#[test]
fn row_with_too_many_fields_is_bad() {
    let mut raw = sample();
    raw.universal_region = rows(&[&["\\'_#0r", "\\'_#1r"]]);
    let mut loader = FactLoader::new();
    assert_eq!(loader.load_all_facts(&raw), Err(FactError::Row { relation: 1, row: 0 }));
}

#[test]
fn rows_are_interned_in_order() {
    let mut loader = FactLoader::new();
    let kinds = schema(2);
    let found = loader
        .interner
        .intern_rows(
            &kinds,
            &rows(&[&["Mid(bb1[0])", "Mid(bb2[0])"], &["Mid(bb2[0])", "Mid(bb3[0])"]]),
        )
        .unwrap();
    assert_eq!(found, vec![vec![0, 1], vec![1, 2]]);
    let again = loader.interner.intern_row(&kinds, &vec!["Mid(bb3[0])".to_string(), "Mid(bb0[0])".to_string()]);
    assert_eq!(again, Ok(vec![2, 3]));
    let bad = loader.interner.intern_rows(&kinds, &rows(&[&["Mid(bb1[0])", "Mid(bb2[0])"], &["x", "y"]]));
    assert_eq!(bad, Err(1));
}

#[test]
fn facts_from_text_to_relations() {
    let mut raw = RawFacts {
        borrow_region: no_rows(),
        universal_region: no_rows(),
        cfg_edge: no_rows(),
        killed: no_rows(),
        outlives: no_rows(),
        region_live_at: no_rows(),
        invalidates: no_rows(),
    };
    raw.outlives = load_facts_from_file(
        b"\"\\'_#3r\"\t\"\\'_#4r\"\t\"Mid(bb0[2])\"\n\"\\'_#4r\"\t\"\\'_#5r\"\t\"Mid(bb0[3])\"\n",
    )
    .unwrap();
    let mut loader = FactLoader::new();
    assert_eq!(loader.load_all_facts(&raw), Ok(()));
    assert_eq!(
        loader.facts.outlives,
        vec![(Region(3), Region(4), PointIndex(0)), (Region(4), Region(5), PointIndex(1))]
    );
}

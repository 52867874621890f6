use rust_life::assoc::AssocMap;
use rust_life::atoms::{same, Atom, Loan, Location, Point, PointIndex, PointType, Region};
use rust_life::interner::{Internable, InternerTable};
use rust_life::loader::{AtomKind, Interner};

fn point(block: usize, statement_index: usize, typ: PointType) -> Point {
    Point { location: Location { block, statement_index }, typ }
}

#[test]
fn atoms_have_numbers() {
    assert_eq!(Region(5).index(), 5);
    assert_eq!(Loan::from_index(7), Loan(7));
    assert_eq!(PointIndex::from_index(0).index(), 0);
    assert!(same(Region(3), Region(3)));
    assert!(!same(Region(3), Region(4)));
}

#[test]
fn atoms_convert_from_and_into_numbers() {
    assert_eq!(Region::from(5), Region(5));
    assert_eq!(Loan::from(0), Loan(0));
    assert_eq!(PointIndex::from(12), PointIndex(12));
    assert_eq!(usize::from(Region(5)), 5);
    let loan: usize = Loan(3).into();
    assert_eq!(loan, 3);
    let point: usize = PointIndex(9).into();
    assert_eq!(point, 9);
    let region: Region = 8.into();
    assert_eq!(region, Region(8));
}

#[test]
fn atoms_are_ordered_by_their_numbers() {
    assert!(Region(2) < Region(10));
    assert!(Loan(1) > Loan(0));
    let mut points = vec![PointIndex(3), PointIndex(1), PointIndex(2)];
    points.sort();
    assert_eq!(points, vec![PointIndex(1), PointIndex(2), PointIndex(3)]);
}

#[test]
fn first_sight_gives_next_index() {
    let mut table: InternerTable<Point, PointIndex> = InternerTable::new();
    let a = point(0, 0, PointType::Start);
    let b = point(0, 0, PointType::Mid);
    let c = point(1, 0, PointType::Start);
    assert_eq!(table.get_or_create_index(a), PointIndex(0));
    assert_eq!(table.get_or_create_index(b), PointIndex(1));
    assert_eq!(table.get_or_create_index(c), PointIndex(2));
    assert_eq!(table.interned_elements.len(), 3);
}

#[test]
fn second_sight_gives_same_index() {
    let mut table: InternerTable<Point, PointIndex> = InternerTable::new();
    let a = point(3, 1, PointType::Mid);
    let b = point(3, 2, PointType::Mid);
    assert_eq!(table.get_or_create_index(a), PointIndex(0));
    assert_eq!(table.get_or_create_index(b), PointIndex(1));
    assert_eq!(table.get_or_create_index(a), PointIndex(0));
    assert_eq!(table.get_or_create_index(b), PointIndex(1));
    assert_eq!(table.interned_elements.len(), 2);
}

#[test]
fn lookup_goes_both_ways() {
    let mut table: InternerTable<Point, PointIndex> = InternerTable::new();
    let a = point(3, 1, PointType::Mid);
    let b = point(3, 2, PointType::Start);
    table.get_or_create_index(a);
    table.get_or_create_index(b);
    assert_eq!(table.get_index(&b), PointIndex(1));
    assert_eq!(table.get_index(&a), PointIndex(0));
    assert_eq!(*table.get_element(PointIndex(1)), b);
    assert_eq!(*table.get_element(PointIndex(0)), a);
    assert_eq!(table.find_index(&a), Some(PointIndex(0)));
    assert_eq!(table.find_index(&point(9, 9, PointType::Mid)), None);
}

#[test]
fn points_with_the_same_code_are_told_apart() {
    // the code of a point takes the block modulo 2^32 only
    let a = point(1, 0, PointType::Start);
    let b = point(1 + (1usize << 32), 0, PointType::Start);
    assert_eq!(a.code(), b.code());
    assert!(!a.same_as(&b));
    let mut table: InternerTable<Point, PointIndex> = InternerTable::new();
    assert_eq!(table.get_or_create_index(a), PointIndex(0));
    assert_eq!(table.get_or_create_index(b), PointIndex(1));
    assert_eq!(table.get_index(&a), PointIndex(0));
    assert_eq!(table.get_index(&b), PointIndex(1));
}

#[test]
fn many_points_are_interned() {
    let mut table: InternerTable<Point, PointIndex> = InternerTable::new();
    for block in 0..40 {
        for statement in 0..5 {
            let index = table.get_or_create_index(point(block, statement, PointType::Mid));
            assert_eq!(index, PointIndex(block * 5 + statement));
        }
    }
    for block in 0..40 {
        for statement in 0..5 {
            let p = point(block, statement, PointType::Mid);
            assert_eq!(table.get_index(&p), PointIndex(block * 5 + statement));
            assert_eq!(table.get_or_create_index(p), PointIndex(block * 5 + statement));
        }
    }
    assert_eq!(table.interned_elements.len(), 200);
}

#[test]
fn interner_reads_labels() {
    let mut interner = Interner::new();
    assert_eq!(interner.intern(AtomKind::Region, "\\'_#4r"), Ok(4));
    assert_eq!(interner.intern(AtomKind::Loan, "bw2"), Ok(2));
    assert_eq!(interner.intern(AtomKind::Point, "Mid(bb1[2])"), Ok(0));
    assert_eq!(interner.intern(AtomKind::Point, "Start(bb1[2])"), Ok(1));
    assert_eq!(interner.intern(AtomKind::Point, "Mid(bb1[2])"), Ok(0));
    assert_eq!(interner.intern(AtomKind::Point, "bw2"), Err(()));
    assert_eq!(interner.intern(AtomKind::Loan, "\\'_#4r"), Err(()));
    assert_eq!(*interner.get_point(PointIndex(1)), point(1, 2, PointType::Start));
    assert_eq!(interner.get_point_index(&point(1, 2, PointType::Mid)), PointIndex(0));
}

#[test]
fn assoc_map_keeps_order_of_keys() {
    let mut map: AssocMap<Region, usize> = AssocMap::new();
    map.insert(Region(5), 50);
    map.insert(Region(2), 20);
    map.insert(Region(9), 90);
    map.insert(Region(2), 21);
    assert_eq!(map.len(), 3);
    assert_eq!(map.entries, vec![(Region(5), 50), (Region(2), 21), (Region(9), 90)]);
    assert_eq!(map.get(&Region(2)), Some(&21));
    assert_eq!(map.get(&Region(3)), None);
    assert!(map.contains_key(&Region(9)));
    assert!(!map.contains_key(&Region(1)));
    assert_eq!(map.find(&Region(9)), Some(2));
}

#[test]
fn assoc_map_takes_edges_as_keys() {
    let mut map: AssocMap<(Region, Region), usize> = AssocMap::new();
    map.insert((Region(1), Region(2)), 12);
    map.insert((Region(2), Region(1)), 21);
    assert_eq!(map.get(&(Region(1), Region(2))), Some(&12));
    assert_eq!(map.get(&(Region(2), Region(1))), Some(&21));
    assert_eq!(map.get(&(Region(1), Region(1))), None);
}

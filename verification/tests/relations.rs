use rust_life::atoms::{Loan, PointIndex, Region};
use rust_life::relation::{
    contains1, contains2, contains3, merge3, push_new2, push_new3, sorted_insert,
};
use rust_life::samples::{bar, foo, foobar, inside_closure, outside_closure, take, Cnt};

#[test]
fn membership_is_tested() {
    let ones = vec![Region(1), Region(4)];
    assert!(contains1(&ones, Region(4)));
    assert!(!contains1(&ones, Region(2)));
    let pairs = vec![(Region(1), PointIndex(2)), (Region(2), PointIndex(1))];
    assert!(contains2(&pairs, Region(2), PointIndex(1)));
    assert!(!contains2(&pairs, Region(1), PointIndex(1)));
    let triples = vec![(Region(1), Loan(0), PointIndex(2))];
    assert!(contains3(&triples, Region(1), Loan(0), PointIndex(2)));
    assert!(!contains3(&triples, Region(1), Loan(1), PointIndex(2)));
    assert!(!contains3(&Vec::new(), Region(1), Loan(1), PointIndex(2)));
}

#[test]
fn sorted_insert_keeps_order_and_adds_nothing_twice() {
    let mut v: Vec<Region> = Vec::new();
    for n in [5, 1, 9, 5, 3, 1, 10, 0] {
        sorted_insert(&mut v, Region(n));
    }
    assert_eq!(v, vec![Region(0), Region(1), Region(3), Region(5), Region(9), Region(10)]);
}

#[test]
fn new_tuples_go_to_the_end() {
    let mut pairs = vec![(Loan(1), PointIndex(1))];
    assert!(push_new2(&mut pairs, Loan(2), PointIndex(1)));
    assert!(!push_new2(&mut pairs, Loan(1), PointIndex(1)));
    assert_eq!(pairs, vec![(Loan(1), PointIndex(1)), (Loan(2), PointIndex(1))]);
    let mut triples = vec![(Region(1), Loan(1), PointIndex(1))];
    assert!(push_new3(&mut triples, Region(1), Loan(1), PointIndex(2)));
    assert!(!push_new3(&mut triples, Region(1), Loan(1), PointIndex(2)));
    assert_eq!(triples.len(), 2);
}

#[test]
fn merge_puts_new_tuples_behind() {
    let mut rel = vec![(Region(1), Loan(1), PointIndex(1)), (Region(2), Loan(1), PointIndex(1))];
    let items = vec![
        (Region(3), Loan(1), PointIndex(1)),
        (Region(1), Loan(1), PointIndex(1)),
        (Region(3), Loan(1), PointIndex(1)),
        (Region(0), Loan(1), PointIndex(1)),
    ];
    merge3(&mut rel, &items);
    assert_eq!(
        rel,
        vec![
            (Region(1), Loan(1), PointIndex(1)),
            (Region(2), Loan(1), PointIndex(1)),
            (Region(3), Loan(1), PointIndex(1)),
            (Region(0), Loan(1), PointIndex(1)),
        ]
    );
}

#[test]
fn sample_functions_hand_back_what_they_get() {
    assert_eq!(foo(5), 5);
    assert_eq!(bar("text"), "text");
    let x = 7;
    assert_eq!(*foobar(&x), 7);
    assert_eq!(foo(bar(foobar(vec![1, 2]))), vec![1, 2]);
    take(x);
    take(vec![1]);
}

#[test]
fn sample_actions_leave_their_argument() {
    let mut x = 3;
    inside_closure(&mut x);
    outside_closure(&mut x);
    assert_eq!(x, 3);
}

#[test]
fn sample_counter_counts() {
    let mut cnt = Cnt { x: 8 };
    assert!(cnt.chk());
    cnt.inc();
    assert!(cnt.chk());
    cnt.inc();
    assert!(!cnt.chk());
    assert_eq!(cnt.x, 10);
}

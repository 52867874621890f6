use rust_life::atoms::{Loan, Location, Point, PointType, Region};
use rust_life::labels::{parse_number, scan_digits};

#[test]
fn region_label_is_read() {
    assert_eq!(Region::from_str("\\'_#12r"), Ok(Region(12)));
    assert_eq!(Region::from_str("\\'_#0r"), Ok(Region(0)));
    assert_eq!(Region::from_str("\\'_#007r"), Ok(Region(7)));
}

#[test]
fn region_label_is_refused() {
    assert_eq!(Region::from_str(""), Err(()));
    assert_eq!(Region::from_str("'_#12r"), Err(()));
    assert_eq!(Region::from_str("\\'_#r"), Err(()));
    assert_eq!(Region::from_str("\\'_#12"), Err(()));
    assert_eq!(Region::from_str("\\'_#1x2r"), Err(()));
    assert_eq!(Region::from_str("\\'_#12r "), Err(()));
    assert_eq!(Region::from_str("x\\'_#12r"), Err(()));
    // digits of another script are no decimal digits of a label
    assert_eq!(Region::from_str("\\'_#\u{0661}r"), Err(()));
}

#[test]
fn region_number_must_fit() {
    let greatest = format!("\\'_#{}r", usize::MAX);
    assert_eq!(Region::from_str(&greatest), Ok(Region(usize::MAX)));
    let too_great = format!("\\'_#{}0r", usize::MAX);
    assert_eq!(Region::from_str(&too_great), Err(()));
    assert_eq!(Region::from_str("\\'_#99999999999999999999999999r"), Err(()));
}

#[test]
fn loan_label_is_read() {
    assert_eq!(Loan::from_str("bw3"), Ok(Loan(3)));
    assert_eq!(Loan::from_str("bw120"), Ok(Loan(120)));
}

#[test]
fn loan_label_is_refused() {
    assert_eq!(Loan::from_str("bw"), Err(()));
    assert_eq!(Loan::from_str("b3"), Err(()));
    assert_eq!(Loan::from_str("bw3 "), Err(()));
    assert_eq!(Loan::from_str("Bw3"), Err(()));
    assert_eq!(Loan::from_str("bw-3"), Err(()));
}

#[test]
fn point_type_is_read() {
    assert_eq!(PointType::from_str("Start").unwrap(), PointType::Start);
    assert_eq!(PointType::from_str("Mid").unwrap(), PointType::Mid);
}

#[test]
fn unknown_point_type_is_handed_back() {
    let error = PointType::from_str("End").unwrap_err();
    assert_eq!(error.0, "End");
    let error = PointType::from_str("start").unwrap_err();
    assert_eq!(error.0, "start");
    let error = PointType::from_str("").unwrap_err();
    assert_eq!(error.0, "");
}

#[test]
fn point_label_is_read() {
    assert_eq!(
        Point::from_str("Mid(bb4[7])"),
        Ok(Point { location: Location { block: 4, statement_index: 7 }, typ: PointType::Mid })
    );
    assert_eq!(
        Point::from_str("Start(bb0[0])"),
        Ok(Point { location: Location { block: 0, statement_index: 0 }, typ: PointType::Start })
    );
    assert_eq!(
        Point::from_str("Start(bb12[345])"),
        Ok(Point { location: Location { block: 12, statement_index: 345 }, typ: PointType::Start })
    );
}

#[test]
fn point_label_is_refused() {
    assert_eq!(Point::from_str(""), Err(()));
    assert_eq!(Point::from_str("Mid"), Err(()));
    assert_eq!(Point::from_str("End(bb4[7])"), Err(()));
    assert_eq!(Point::from_str("Mid(bb[7])"), Err(()));
    assert_eq!(Point::from_str("Mid(bb4[])"), Err(()));
    assert_eq!(Point::from_str("Mid(bb4[7]"), Err(()));
    assert_eq!(Point::from_str("Mid(bb4[7]) "), Err(()));
    assert_eq!(Point::from_str("Mid(b4[7])"), Err(()));
    assert_eq!(Point::from_str("Mid(bb4(7))"), Err(()));
    assert_eq!(Point::from_str("Mid(bb4[7])x"), Err(()));
    assert_eq!(Point::from_str("Mid(bb4[7]])"), Err(()));
}

#[test]
fn number_is_read_between_places() {
    let text = b"ab1234cd";
    assert_eq!(parse_number(text, 2, 6), Some(1234));
    assert_eq!(parse_number(text, 2, 3), Some(1));
    assert_eq!(parse_number(text, 2, 2), None);
    assert_eq!(parse_number(text, 1, 6), None);
    assert_eq!(parse_number(text, 2, 7), None);
}

#[test]
fn digits_are_scanned() {
    let text = b"ab1234cd";
    assert_eq!(scan_digits(text, 2), 6);
    assert_eq!(scan_digits(text, 0), 0);
    assert_eq!(scan_digits(text, 6), 6);
    assert_eq!(scan_digits(text, 8), 8);
    assert_eq!(scan_digits(b"123", 0), 3);
}

//! The labels under which the facts name regions, loans and points.
//!
//! A region is written `\'_#12r`, a loan `bw3`, and a point `Mid(bb4[7])` or
//! `Start(bb4[7])`: the kind of the point, the number of its basic block, and
//! the place of its statement in the block. Numbers are decimal.

use vstd::prelude::*;
use vstd::string::StringSliceAdditionalSpecFns;
use crate::atoms::{Loan, Location, Point, PointType, Region, UnknownPointTypeError};

verus! {

/// Whether `b` is a decimal digit.
pub open spec fn is_digit(b: u8) -> bool {
    48 <= b <= 57
}

/// Whether `s` holds decimal digits only.
pub open spec fn all_digits(s: Seq<u8>) -> bool {
    forall|i: int| 0 <= i < s.len() ==> is_digit(#[trigger] s[i])
}

/// The number that the decimal digits `digits` write.
pub open spec fn decimal_value(digits: Seq<u8>) -> nat
    decreases digits.len(),
{
    if digits.len() == 0 {
        0
    } else {
        decimal_value(digits.drop_last()) * 10 + (digits.last() - 48) as nat
    }
}

/// The number that `digits` writes, where it holds one digit at least,
/// digits only, and the number fits the machine.
pub open spec fn number_of(digits: Seq<u8>) -> Option<usize> {
    if digits.len() > 0 && all_digits(digits) && decimal_value(digits) <= usize::MAX {
        Some(decimal_value(digits) as usize)
    } else {
        None
    }
}

/// The first place from `from` on at which `label` holds no digit.
pub open spec fn digits_end(label: Seq<u8>, from: int) -> int
    decreases label.len() - from,
{
    if from < 0 || from >= label.len() || !is_digit(label[from]) {
        from
    } else {
        digits_end(label, from + 1)
    }
}

/// A number does not get smaller when digits follow it.
proof fn lemma_value_grows(digits: Seq<u8>, n: int)
    requires
        0 <= n <= digits.len(),
        all_digits(digits),
    ensures
        decimal_value(digits.take(n)) <= decimal_value(digits),
    decreases digits.len() - n,
{
    if n == digits.len() {
        assert(digits.take(n) =~= digits);
    } else {
        lemma_value_grows(digits, n + 1);
        let longer = digits.take(n + 1);
        assert(longer.drop_last() =~= digits.take(n));
    }
}

/// Reads the decimal number that `label` holds from `from` up to `to`.
pub fn parse_number(label: &[u8], from: usize, to: usize) -> (number: Option<usize>)
    requires
        from <= to <= label@.len(),
    ensures
        number == number_of(label@.subrange(from as int, to as int)),
{
    let ghost digits = label@.subrange(from as int, to as int);
    if from == to {
        return None;
    }
    let mut value: usize = 0;
    let mut i: usize = from;
    while i < to
        invariant
            from <= i <= to <= label@.len(),
            digits == label@.subrange(from as int, to as int),
            all_digits(digits.take(i - from)),
            value == decimal_value(digits.take(i - from)),
        decreases to - i,
    {
        let b = label[i];
        proof {
            let longer = digits.take(i - from + 1);
            assert(longer.drop_last() =~= digits.take(i - from));
        }
        if b < 48 || b > 57 {
            assert(!all_digits(digits)) by {
                assert(!is_digit(digits[i - from]));
            }
            return None;
        }
        let d: usize = (b - 48) as usize;
        if value > (usize::MAX - d) / 10 {
            proof {
                if all_digits(digits) {
                    lemma_value_grows(digits, i - from + 1);
                }
            }
            return None;
        }
        value = value * 10 + d;
        i += 1;
    }
    assert(digits.take(i - from) =~= digits);
    Some(value)
}

/// The place of the first byte from `from` on that is no digit.
pub fn scan_digits(label: &[u8], from: usize) -> (end: usize)
    requires
        from <= label@.len(),
    ensures
        end == digits_end(label@, from as int),
        from <= end <= label@.len(),
{
    let mut i: usize = from;
    while i < label.len() && 48 <= label[i] && label[i] <= 57
        invariant
            from <= i <= label@.len(),
            digits_end(label@, from as int) == digits_end(label@, i as int),
        decreases label.len() - i,
    {
        i += 1;
    }
    i
}

/// The number of the region that `label` names: the label is `\'_#`, the
/// number, and `r`.
pub open spec fn region_number(label: Seq<u8>) -> Option<usize> {
    if label.len() >= 5 && label[0] == 92 && label[1] == 39 && label[2] == 95 && label[3] == 35
        && label.last() == 114 {
        number_of(label.subrange(4, label.len() - 1))
    } else {
        None
    }
}

/// The number of the loan that `label` names: the label is `bw` and the
/// number.
pub open spec fn loan_number(label: Seq<u8>) -> Option<usize> {
    if label.len() >= 2 && label[0] == 98 && label[1] == 119 {
        number_of(label.subrange(2, label.len() as int))
    } else {
        None
    }
}

impl Region {
    /// Reads the label of a region. A text that is no such label is
    /// refused.
    pub fn from_str(region: &str) -> (parsed: Result<Region, ()>)
        ensures
            parsed == (match region_number(region.spec_bytes()) {
                Some(id) => Ok::<Region, ()>(Region(id)),
                None => Err::<Region, ()>(()),
            }),
    {
        let label = region.as_bytes();
        let n = label.len();
        if n >= 5 && label[0] == 92 && label[1] == 39 && label[2] == 95 && label[3] == 35
            && label[n - 1] == 114 {
            match parse_number(label, 4, n - 1) {
                Some(id) => Ok(Region(id)),
                None => Err(()),
            }
        } else {
            Err(())
        }
    }
}

impl Loan {
    /// Reads the label of a loan. A text that is no such label is refused.
    pub fn from_str(loan: &str) -> (parsed: Result<Loan, ()>)
        ensures
            parsed == (match loan_number(loan.spec_bytes()) {
                Some(id) => Ok::<Loan, ()>(Loan(id)),
                None => Err::<Loan, ()>(()),
            }),
    {
        let label = loan.as_bytes();
        let n = label.len();
        if n >= 2 && label[0] == 98 && label[1] == 119 {
            match parse_number(label, 2, n) {
                Some(id) => Ok(Loan(id)),
                None => Err(()),
            }
        } else {
            Err(())
        }
    }
}

/// The word `Start`.
pub open spec fn start_word() -> Seq<u8> {
    seq![83u8, 116u8, 97u8, 114u8, 116u8]
}

/// The word `Mid`.
pub open spec fn mid_word() -> Seq<u8> {
    seq![77u8, 105u8, 100u8]
}

/// The type of point that `word` names.
pub open spec fn point_type_of(word: Seq<u8>) -> Option<PointType> {
    if word == start_word() {
        Some(PointType::Start)
    } else if word == mid_word() {
        Some(PointType::Mid)
    } else {
        None
    }
}

/// Whether `label` holds `word` from `from` on.
pub open spec fn holds_at(label: Seq<u8>, from: int, word: Seq<u8>) -> bool {
    0 <= from && from + word.len() <= label.len() && label.subrange(from, from + word.len())
        == word
}

/// Whether `label` holds `word` from `from` on.
fn matches_at(label: &[u8], from: usize, word: &[u8]) -> (found: bool)
    requires
        from <= label@.len(),
    ensures
        found == holds_at(label@, from as int, word@),
{
    if word.len() > label.len() - from {
        return false;
    }
    let mut i: usize = 0;
    while i < word.len()
        invariant
            i <= word.len(),
            from + word.len() <= label.len(),
            forall|k: int| 0 <= k < i ==> label@[from + k] == word@[k],
        decreases word.len() - i,
    {
        if label[from + i] != word[i] {
            return false;
        }
        i += 1;
    }
    assert(label@.subrange(from as int, from + word@.len()) =~= word@);
    true
}

impl PointType {
    /// Reads the type of a point: `Start` or `Mid`. Any other text is
    /// handed back as an error.
    pub fn from_str(point_type: &str) -> (parsed: Result<PointType, UnknownPointTypeError>)
        ensures
            parsed matches Ok(t) ==> point_type_of(point_type.spec_bytes()) == Some(t),
            parsed matches Err(e) ==> point_type_of(point_type.spec_bytes()) is None && e.0@
                == point_type@,
    {
        let word = point_type.as_bytes();
        let start: [u8; 5] = [83, 116, 97, 114, 116];
        let mid: [u8; 3] = [77, 105, 100];
        if word.len() == 5 && matches_at(word, 0, start.as_slice()) {
            assert(word@.subrange(0, 5) =~= word@);
            Ok(PointType::Start)
        } else if word.len() == 3 && matches_at(word, 0, mid.as_slice()) {
            Ok(PointType::Mid)
        } else {
            proof {
                if word@.len() == 5 {
                    assert(word@.subrange(0, 5) =~= word@);
                }
                if word@.len() == 3 {
                    assert(word@.subrange(0, 3) =~= word@);
                }
            }
            Err(UnknownPointTypeError(point_type.to_owned()))
        }
    }
}

/// The point that `label` names, read from the place `from` at which the
/// number of the block begins; `typ` is the type that was read before it.
pub open spec fn point_from(label: Seq<u8>, typ: PointType, from: int) -> Option<Point> {
    let open = digits_end(label, from);
    let close = digits_end(label, open + 1);
    if open < label.len() && label[open] == 91 && close == label.len() - 2 && label[close] == 93
        && label[close + 1] == 41 {
        match (number_of(label.subrange(from, open)), number_of(label.subrange(open + 1, close))) {
            (Some(block), Some(statement_index)) => Some(
                Point { location: Location { block, statement_index }, typ },
            ),
            _ => None,
        }
    } else {
        None
    }
}

/// The word `Mid(bb`.
pub open spec fn mid_head() -> Seq<u8> {
    seq![77u8, 105u8, 100u8, 40u8, 98u8, 98u8]
}

/// The word `Start(bb`.
pub open spec fn start_head() -> Seq<u8> {
    seq![83u8, 116u8, 97u8, 114u8, 116u8, 40u8, 98u8, 98u8]
}

/// The point that `label` names: the label is the type of the point, `(bb`,
/// the number of the block, `[`, the place of the statement, and `])`.
pub open spec fn point_of(label: Seq<u8>) -> Option<Point> {
    if holds_at(label, 0, mid_head()) {
        point_from(label, PointType::Mid, 6)
    } else if holds_at(label, 0, start_head()) {
        point_from(label, PointType::Start, 8)
    } else {
        None
    }
}

/// Reads what follows the head of the label of a point.
fn parse_point_from(label: &[u8], typ: PointType, from: usize) -> (parsed: Option<Point>)
    requires
        from <= label@.len(),
    ensures
        parsed == point_from(label@, typ, from as int),
{
    let n = label.len();
    let open = scan_digits(label, from);
    if open >= n || label[open] != 91 {
        return None;
    }
    let close = scan_digits(label, open + 1);
    if n < 2 || close != n - 2 || label[close] != 93 || label[close + 1] != 41 {
        return None;
    }
    let block = parse_number(label, from, open);
    let statement_index = parse_number(label, open + 1, close);
    match (block, statement_index) {
        (Some(block), Some(statement_index)) => Some(
            Point { location: Location { block, statement_index }, typ },
        ),
        _ => None,
    }
}

impl Point {
    /// Reads the label of a point. A text that is no such label is refused.
    pub fn from_str(point: &str) -> (parsed: Result<Point, ()>)
        ensures
            parsed == (match point_of(point.spec_bytes()) {
                Some(p) => Ok::<Point, ()>(p),
                None => Err::<Point, ()>(()),
            }),
    {
        let label = point.as_bytes();
        let mid: [u8; 6] = [77, 105, 100, 40, 98, 98];
        let start: [u8; 8] = [83, 116, 97, 114, 116, 40, 98, 98];
        let parsed = if matches_at(label, 0, mid.as_slice()) {
            parse_point_from(label, PointType::Mid, 6)
        } else if matches_at(label, 0, start.as_slice()) {
            parse_point_from(label, PointType::Start, 8)
        } else {
            None
        };
        match parsed {
            Some(p) => Ok(p),
            None => Err(()),
        }
    }
}

} // verus!

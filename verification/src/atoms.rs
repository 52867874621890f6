//! Atoms of the analysis: regions, loans and program points.
//!
//! An atom is an opaque identifier that stands for a number. Relations over
//! atoms are plain vectors of tuples; all joins go by the atoms' numbers.

use vstd::prelude::*;

verus! {

/// An identifier that is determined by a machine-sized number.
pub trait Atom: Copy + Sized {
    /// The number of this atom.
    spec fn spec_index(self) -> usize;

    /// The number of this atom.
    fn index(self) -> (i: usize)
        ensures
            i == self.spec_index(),
    ;

    /// The atom with the given number.
    fn from_index(i: usize) -> (a: Self)
        ensures
            a.spec_index() == i,
    ;

    /// Two atoms with the same number are the same atom.
    proof fn index_is_injective(a: Self, b: Self)
        requires
            a.spec_index() == b.spec_index(),
        ensures
            a == b,
    ;
}

/// A unique identifier of a region.
#[derive(Clone, Copy, Debug, PartialEq, Eq, Structural, PartialOrd, Ord, Hash)]
pub struct Region(pub usize);

/// A unique identifier of a loan.
#[derive(Clone, Copy, Debug, PartialEq, Eq, Structural, PartialOrd, Ord, Hash)]
pub struct Loan(pub usize);

/// The dense index under which a program point was interned.
#[derive(Clone, Copy, Debug, PartialEq, Eq, Structural, PartialOrd, Ord, Hash)]
pub struct PointIndex(pub usize);

impl Atom for Region {
    open spec fn spec_index(self) -> usize {
        self.0
    }

    fn index(self) -> (i: usize) {
        self.0
    }

    fn from_index(i: usize) -> (a: Self) {
        Region(i)
    }

    proof fn index_is_injective(a: Self, b: Self) {
    }
}

impl Atom for Loan {
    open spec fn spec_index(self) -> usize {
        self.0
    }

    fn index(self) -> (i: usize) {
        self.0
    }

    fn from_index(i: usize) -> (a: Self) {
        Loan(i)
    }

    proof fn index_is_injective(a: Self, b: Self) {
    }
}

impl Atom for PointIndex {
    open spec fn spec_index(self) -> usize {
        self.0
    }

    fn index(self) -> (i: usize) {
        self.0
    }

    fn from_index(i: usize) -> (a: Self) {
        PointIndex(i)
    }

    proof fn index_is_injective(a: Self, b: Self) {
    }
}

impl From<usize> for Region {
    fn from(index: usize) -> (region: Region) {
        Region(index)
    }
}

impl vstd::std_specs::convert::FromSpecImpl<usize> for Region {
    open spec fn obeys_from_spec() -> bool {
        true
    }

    open spec fn from_spec(index: usize) -> Region {
        Region(index)
    }
}

impl From<usize> for Loan {
    fn from(index: usize) -> (loan: Loan) {
        Loan(index)
    }
}

impl vstd::std_specs::convert::FromSpecImpl<usize> for Loan {
    open spec fn obeys_from_spec() -> bool {
        true
    }

    open spec fn from_spec(index: usize) -> Loan {
        Loan(index)
    }
}

impl From<usize> for PointIndex {
    fn from(index: usize) -> (point: PointIndex) {
        PointIndex(index)
    }
}

impl vstd::std_specs::convert::FromSpecImpl<usize> for PointIndex {
    open spec fn obeys_from_spec() -> bool {
        true
    }

    open spec fn from_spec(index: usize) -> PointIndex {
        PointIndex(index)
    }
}

impl From<Region> for usize {
    fn from(region: Region) -> (index: usize) {
        region.0
    }
}

impl vstd::std_specs::convert::FromSpecImpl<Region> for usize {
    open spec fn obeys_from_spec() -> bool {
        true
    }

    open spec fn from_spec(region: Region) -> usize {
        region.0
    }
}

impl From<Loan> for usize {
    fn from(loan: Loan) -> (index: usize) {
        loan.0
    }
}

impl vstd::std_specs::convert::FromSpecImpl<Loan> for usize {
    open spec fn obeys_from_spec() -> bool {
        true
    }

    open spec fn from_spec(loan: Loan) -> usize {
        loan.0
    }
}

impl From<PointIndex> for usize {
    fn from(point: PointIndex) -> (index: usize) {
        point.0
    }
}

impl vstd::std_specs::convert::FromSpecImpl<PointIndex> for usize {
    open spec fn obeys_from_spec() -> bool {
        true
    }

    open spec fn from_spec(point: PointIndex) -> usize {
        point.0
    }
}

/// The type of the point. Either the start of a statement or in the middle
/// of it.
#[derive(Clone, Copy, Debug, PartialEq, Eq, Structural, Hash)]
pub enum PointType {
    /// The start of the statement.
    Start,
    /// The middle of the statement.
    Mid,
}

/// The text that was found where the type of a point was expected.
#[derive(Debug)]
pub struct UnknownPointTypeError(pub String);

/// A place in the control-flow graph of a function: a statement of a basic
/// block, by the number of the block and the place of the statement in it.
#[derive(Clone, Copy, Debug, PartialEq, Eq, Structural, Hash)]
pub struct Location {
    /// The number of the basic block.
    pub block: usize,
    /// The place of the statement in the block.
    pub statement_index: usize,
}

/// A program point used in the borrow checker analysis.
#[derive(Clone, Copy, Debug, PartialEq, Eq, Structural, Hash)]
pub struct Point {
    /// The statement at which the point lies.
    pub location: Location,
    /// Whether the point lies at the start of the statement or in its
    /// middle.
    pub typ: PointType,
}

/// Whether two atoms are the same.
pub fn same<A: Atom>(a: A, b: A) -> (r: bool)
    ensures
        r == (a == b),
{
    let r = a.index() == b.index();
    proof {
        if r {
            A::index_is_injective(a, b);
        }
    }
    r
}

} // verus!

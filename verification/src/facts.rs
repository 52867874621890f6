//! The base relations of one analysed function.

use vstd::prelude::*;
use crate::atoms::{Loan, PointIndex, Region};

verus! {

/// The facts that the region inference starts from.
pub struct AllInputFacts {
    /// `borrow_region(R, L, P)`: region `R` may refer to data of loan `L`
    /// from point `P` on.
    pub borrow_region: Vec<(Region, Loan, PointIndex)>,
    /// `universal_region(R)`: `R` is a free region of the function.
    pub universal_region: Vec<Region>,
    /// `cfg_edge(P, Q)`: control may pass from `P` to `Q`.
    pub cfg_edge: Vec<(PointIndex, PointIndex)>,
    /// `killed(L, P)`: the path that loan `L` borrowed is overwritten at `P`.
    pub killed: Vec<(Loan, PointIndex)>,
    /// `outlives(R1, R2, P)`: what `R1` holds must be held by `R2` at `P`.
    pub outlives: Vec<(Region, Region, PointIndex)>,
    /// `region_live_at(R, P)`: `R` occurs in a variable that is live at `P`.
    pub region_live_at: Vec<(Region, PointIndex)>,
    /// `invalidates(P, L)`: an access at `P` conflicts with loan `L`.
    pub invalidates: Vec<(PointIndex, Loan)>,
}

/// What the region inference derived from the input facts.
pub struct AllOutputFacts {
    /// Each point at which a loan that is still required was invalidated,
    /// with those loans.
    pub errors: Vec<(PointIndex, Vec<Loan>)>,
    /// `restricts(R, L, P)`: region `R` depends on loan `L` at `P`.
    pub restricts: Vec<(Region, Loan, PointIndex)>,
    /// `borrow_live_at(L, P)`: loan `L` is live at `P`.
    pub borrow_live_at: Vec<(Loan, PointIndex)>,
}

impl AllInputFacts {
    /// A fact set without any fact.
    pub fn new() -> (facts: Self)
        ensures
            facts.borrow_region@.len() == 0,
            facts.universal_region@.len() == 0,
            facts.cfg_edge@.len() == 0,
            facts.killed@.len() == 0,
            facts.outlives@.len() == 0,
            facts.region_live_at@.len() == 0,
            facts.invalidates@.len() == 0,
    {
        AllInputFacts {
            borrow_region: Vec::new(),
            universal_region: Vec::new(),
            cfg_edge: Vec::new(),
            killed: Vec::new(),
            outlives: Vec::new(),
            region_live_at: Vec::new(),
            invalidates: Vec::new(),
        }
    }
}

impl AllOutputFacts {
    /// An output without any fact.
    pub fn new() -> (facts: Self)
        ensures
            facts.errors@.len() == 0,
            facts.restricts@.len() == 0,
            facts.borrow_live_at@.len() == 0,
    {
        AllOutputFacts { errors: Vec::new(), restricts: Vec::new(), borrow_live_at: Vec::new() }
    }
}

/// The relation that ties a region to the loans it depends on: the input
/// `borrow_region` facts followed by the derived `restricts` facts.
pub open spec fn requires_of(all_facts: &AllInputFacts, output: &AllOutputFacts) -> Seq<
    (Region, Loan, PointIndex),
> {
    all_facts.borrow_region@ + output.restricts@
}

} // verus!

//! The rules by which an error is explained.
//!
//! An explanation is the part of the base relations that leads to one
//! error. It is derived from a seed, the loans of the error at the error
//! point, by rules that run against the direction of the region inference:
//!
//! 1. `expl_borrow_live_at(L, P)` holds for a seed `(L, P)` where `P`
//!    invalidates `L` and `L` is live at `P`.
//! 2. `expl_requires(R, L, P)` holds where `expl_borrow_live_at(L, P)`, `R`
//!    is live at `P` and `R` requires `L` at `P`.
//! 3. `expl_requires(R1, L, P)` holds where `expl_requires(R, L, P)` and
//!    `outlives(R1, R, P)`.
//! 4. `expl_requires(R, L, Q)` holds where `expl_requires(R, L, P)`,
//!    `cfg_edge(Q, P)`, `L` is not killed at `Q`, and `R` is live at `Q`.
//! 5. `expl_subset(R1, R2, P)` holds where `expl_requires(R2, L, P)`, `R1`
//!    requires `L` at `P`, and `outlives(R1, R2, P)`; and where
//!    `expl_subset(R1, R, P)` and `expl_subset(R, R2, P)`.
//! 6. `expl_subset(R1, R2, Q)` holds where `expl_subset(R1, R2, P)`, the
//!    points `P` and `Q` are joined by a `cfg_edge` in either direction, both
//!    regions are live at `Q`, and `outlives(R1, R2, Q)`.
//! 7. `expl_outlives(R1, R2, P)` holds where `expl_subset(R1, R2, P)` and
//!    `outlives(R1, R2, P)`.
//!
//! The explanation is the least family of relations that these rules are
//! satisfied by: it is closed under them, and it lies within every family
//! that is closed under them, so each of its tuples has a derivation.

use vstd::prelude::*;
use crate::atoms::{Loan, PointIndex, Region};
use crate::facts::{requires_of, AllInputFacts, AllOutputFacts};

verus! {

/// What is to be explained: the base relations as sets, and the seed.
pub struct Problem {
    /// `outlives(R1, R2, P)`.
    pub outlives: Set<(Region, Region, PointIndex)>,
    /// `requires(R, L, P)`.
    pub requires: Set<(Region, Loan, PointIndex)>,
    /// `borrow_live_at(L, P)`.
    pub borrow_live_at: Set<(Loan, PointIndex)>,
    /// `region_live_at(R, P)`.
    pub region_live_at: Set<(Region, PointIndex)>,
    /// `invalidates(P, L)`.
    pub invalidates: Set<(PointIndex, Loan)>,
    /// `killed(L, P)`.
    pub killed: Set<(Loan, PointIndex)>,
    /// `cfg_edge(P, Q)`.
    pub cfg_edge: Set<(PointIndex, PointIndex)>,
    /// The point of the error.
    pub error_point: PointIndex,
    /// The loans of the error.
    pub error_loans: Set<Loan>,
}

/// A family of explanation relations, as sets.
pub struct ExplRelations {
    /// `expl_borrow_live_at(L, P)`.
    pub borrow_live_at: Set<(Loan, PointIndex)>,
    /// `expl_requires(R, L, P)`.
    pub requires: Set<(Region, Loan, PointIndex)>,
    /// `expl_subset(R1, R2, P)`.
    pub subset: Set<(Region, Region, PointIndex)>,
    /// `expl_outlives(R1, R2, P)`.
    pub outlives: Set<(Region, Region, PointIndex)>,
}

/// The problem that the fact bundles pose for the error `error_fact`.
pub open spec fn problem_of(
    all_facts: &AllInputFacts,
    output: &AllOutputFacts,
    error_fact: (PointIndex, Vec<Loan>),
) -> Problem {
    Problem {
        outlives: all_facts.outlives@.to_set(),
        requires: requires_of(all_facts, output).to_set(),
        borrow_live_at: output.borrow_live_at@.to_set(),
        region_live_at: all_facts.region_live_at@.to_set(),
        invalidates: all_facts.invalidates@.to_set(),
        killed: all_facts.killed@.to_set(),
        cfg_edge: all_facts.cfg_edge@.to_set(),
        error_point: error_fact.0,
        error_loans: error_fact.1@.to_set(),
    }
}

/// Rule 1 is satisfied by `e`.
pub open spec fn rule_seed(pb: Problem, e: ExplRelations) -> bool {
    forall|l: Loan|
        #![trigger pb.error_loans.contains(l)]
        pb.error_loans.contains(l) && pb.invalidates.contains((pb.error_point, l))
            && pb.borrow_live_at.contains((l, pb.error_point)) ==> e.borrow_live_at.contains(
            (l, pb.error_point),
        )
}

/// Rule 2 is satisfied by `e`.
pub open spec fn rule_requires_base(pb: Problem, e: ExplRelations) -> bool {
    forall|r: Region, l: Loan, p: PointIndex|
        #![trigger pb.requires.contains((r, l, p))]
        e.borrow_live_at.contains((l, p)) && pb.region_live_at.contains((r, p))
            && pb.requires.contains((r, l, p)) ==> e.requires.contains((r, l, p))
}

/// Rule 3 is satisfied by `e`.
pub open spec fn rule_requires_outlives(pb: Problem, e: ExplRelations) -> bool {
    forall|r1: Region, r: Region, l: Loan, p: PointIndex|
        #![trigger e.requires.contains((r, l, p)), pb.outlives.contains((r1, r, p))]
        e.requires.contains((r, l, p)) && pb.outlives.contains((r1, r, p))
            ==> e.requires.contains((r1, l, p))
}

/// Rule 4 is satisfied by `e`.
pub open spec fn rule_requires_cfg(pb: Problem, e: ExplRelations) -> bool {
    forall|r: Region, l: Loan, later: PointIndex, earlier: PointIndex|
        #![trigger e.requires.contains((r, l, later)), pb.cfg_edge.contains((earlier, later))]
        e.requires.contains((r, l, later)) && pb.cfg_edge.contains((earlier, later))
            && !pb.killed.contains((l, earlier)) && pb.region_live_at.contains((r, earlier))
            ==> e.requires.contains((r, l, earlier))
}

/// The first part of rule 5 is satisfied by `e`.
pub open spec fn rule_subset_base(pb: Problem, e: ExplRelations) -> bool {
    forall|r1: Region, r2: Region, l: Loan, p: PointIndex|
        #![trigger e.requires.contains((r2, l, p)), pb.outlives.contains((r1, r2, p))]
        e.requires.contains((r2, l, p)) && pb.requires.contains((r1, l, p))
            && pb.outlives.contains((r1, r2, p)) ==> e.subset.contains((r1, r2, p))
}

/// The second part of rule 5 is satisfied by `e`.
pub open spec fn rule_subset_trans(pb: Problem, e: ExplRelations) -> bool {
    forall|r1: Region, r: Region, r2: Region, p: PointIndex|
        #![trigger e.subset.contains((r1, r, p)), e.subset.contains((r, r2, p))]
        e.subset.contains((r1, r, p)) && e.subset.contains((r, r2, p)) ==> e.subset.contains(
            (r1, r2, p),
        )
}

/// Whether control may pass from one of the two points to the other.
pub open spec fn joined(pb: Problem, p: PointIndex, q: PointIndex) -> bool {
    pb.cfg_edge.contains((p, q)) || pb.cfg_edge.contains((q, p))
}

/// Rule 6 is satisfied by `e`.
pub open spec fn rule_subset_cfg(pb: Problem, e: ExplRelations) -> bool {
    forall|r1: Region, r2: Region, p: PointIndex, q: PointIndex|
        #![trigger e.subset.contains((r1, r2, p)), pb.outlives.contains((r1, r2, q))]
        e.subset.contains((r1, r2, p)) && joined(pb, p, q) && pb.region_live_at.contains((r1, q))
            && pb.region_live_at.contains((r2, q)) && pb.outlives.contains((r1, r2, q))
            ==> e.subset.contains((r1, r2, q))
}

/// Rule 7 is satisfied by `e`.
pub open spec fn rule_outlives(pb: Problem, e: ExplRelations) -> bool {
    forall|r1: Region, r2: Region, p: PointIndex|
        #![trigger e.subset.contains((r1, r2, p))]
        e.subset.contains((r1, r2, p)) && pb.outlives.contains((r1, r2, p))
            ==> e.outlives.contains((r1, r2, p))
}

/// Whether all rules are satisfied by `e`.
pub open spec fn closed(pb: Problem, e: ExplRelations) -> bool {
    &&& rule_seed(pb, e)
    &&& rule_requires_base(pb, e)
    &&& rule_requires_outlives(pb, e)
    &&& rule_requires_cfg(pb, e)
    &&& rule_subset_base(pb, e)
    &&& rule_subset_trans(pb, e)
    &&& rule_subset_cfg(pb, e)
    &&& rule_outlives(pb, e)
}

/// Whether each relation of `a` lies within that of `b`.
pub open spec fn contained(a: ExplRelations, b: ExplRelations) -> bool {
    &&& a.borrow_live_at.subset_of(b.borrow_live_at)
    &&& a.requires.subset_of(b.requires)
    &&& a.subset.subset_of(b.subset)
    &&& a.outlives.subset_of(b.outlives)
}

/// Whether `e` is the explanation of `pb`: the least family that all rules
/// are satisfied by.
pub open spec fn is_explanation(pb: Problem, e: ExplRelations) -> bool {
    &&& closed(pb, e)
    &&& forall|other: ExplRelations| #[trigger] closed(pb, other) ==> contained(e, other)
}

/// Whether `expl_borrow_live_at(t)` has a derivation: it holds in every
/// family that is closed under the rules.
pub open spec fn derives_borrow_live_at(pb: Problem, t: (Loan, PointIndex)) -> bool {
    forall|e: ExplRelations| #[trigger] closed(pb, e) ==> e.borrow_live_at.contains(t)
}

/// Whether `expl_requires(t)` has a derivation.
pub open spec fn derives_requires(pb: Problem, t: (Region, Loan, PointIndex)) -> bool {
    forall|e: ExplRelations| #[trigger] closed(pb, e) ==> e.requires.contains(t)
}

/// Whether `expl_subset(t)` has a derivation.
pub open spec fn derives_subset(pb: Problem, t: (Region, Region, PointIndex)) -> bool {
    forall|e: ExplRelations| #[trigger] closed(pb, e) ==> e.subset.contains(t)
}

/// Whether `expl_outlives(t)` has a derivation.
pub open spec fn derives_outlives(pb: Problem, t: (Region, Region, PointIndex)) -> bool {
    forall|e: ExplRelations| #[trigger] closed(pb, e) ==> e.outlives.contains(t)
}

/// Rule 1 as a step of a derivation.
pub proof fn lemma_derive_seed(pb: Problem, l: Loan)
    requires
        pb.error_loans.contains(l),
        pb.invalidates.contains((pb.error_point, l)),
        pb.borrow_live_at.contains((l, pb.error_point)),
    ensures
        derives_borrow_live_at(pb, (l, pb.error_point)),
{
}

/// Rule 2 as a step of a derivation.
pub proof fn lemma_derive_requires_base(pb: Problem, r: Region, l: Loan, p: PointIndex)
    requires
        derives_borrow_live_at(pb, (l, p)),
        pb.region_live_at.contains((r, p)),
        pb.requires.contains((r, l, p)),
    ensures
        derives_requires(pb, (r, l, p)),
{
}

/// Rule 3 as a step of a derivation.
pub proof fn lemma_derive_requires_outlives(
    pb: Problem,
    r1: Region,
    r: Region,
    l: Loan,
    p: PointIndex,
)
    requires
        derives_requires(pb, (r, l, p)),
        pb.outlives.contains((r1, r, p)),
    ensures
        derives_requires(pb, (r1, l, p)),
{
}

/// Rule 4 as a step of a derivation.
pub proof fn lemma_derive_requires_cfg(
    pb: Problem,
    r: Region,
    l: Loan,
    later: PointIndex,
    earlier: PointIndex,
)
    requires
        derives_requires(pb, (r, l, later)),
        pb.cfg_edge.contains((earlier, later)),
        !pb.killed.contains((l, earlier)),
        pb.region_live_at.contains((r, earlier)),
    ensures
        derives_requires(pb, (r, l, earlier)),
{
}

/// The first part of rule 5 as a step of a derivation.
pub proof fn lemma_derive_subset_base(
    pb: Problem,
    r1: Region,
    r2: Region,
    l: Loan,
    p: PointIndex,
)
    requires
        derives_requires(pb, (r2, l, p)),
        pb.requires.contains((r1, l, p)),
        pb.outlives.contains((r1, r2, p)),
    ensures
        derives_subset(pb, (r1, r2, p)),
{
}

/// The second part of rule 5 as a step of a derivation.
pub proof fn lemma_derive_subset_trans(
    pb: Problem,
    r1: Region,
    r: Region,
    r2: Region,
    p: PointIndex,
)
    requires
        derives_subset(pb, (r1, r, p)),
        derives_subset(pb, (r, r2, p)),
    ensures
        derives_subset(pb, (r1, r2, p)),
{
}

/// Rule 6 as a step of a derivation.
pub proof fn lemma_derive_subset_cfg(
    pb: Problem,
    r1: Region,
    r2: Region,
    p: PointIndex,
    q: PointIndex,
)
    requires
        derives_subset(pb, (r1, r2, p)),
        joined(pb, p, q),
        pb.region_live_at.contains((r1, q)),
        pb.region_live_at.contains((r2, q)),
        pb.outlives.contains((r1, r2, q)),
    ensures
        derives_subset(pb, (r1, r2, q)),
{
}

/// Rule 7 as a step of a derivation.
pub proof fn lemma_derive_outlives(pb: Problem, r1: Region, r2: Region, p: PointIndex)
    requires
        derives_subset(pb, (r1, r2, p)),
        pb.outlives.contains((r1, r2, p)),
    ensures
        derives_outlives(pb, (r1, r2, p)),
{
}

/// A closed family of which every tuple has a derivation is the explanation.
pub proof fn lemma_closed_and_derived_is_explanation(pb: Problem, e: ExplRelations)
    requires
        closed(pb, e),
        forall|t: (Loan, PointIndex)|
            e.borrow_live_at.contains(t) ==> derives_borrow_live_at(pb, t),
        forall|t: (Region, Loan, PointIndex)| e.requires.contains(t) ==> derives_requires(pb, t),
        forall|t: (Region, Region, PointIndex)| e.subset.contains(t) ==> derives_subset(pb, t),
        forall|t: (Region, Region, PointIndex)| e.outlives.contains(t) ==> derives_outlives(pb, t),
    ensures
        is_explanation(pb, e),
{
    assert forall|other: ExplRelations| #[trigger] closed(pb, other) implies contained(
        e,
        other,
    ) by {
        assert forall|t: (Loan, PointIndex)|
            e.borrow_live_at.contains(t) implies other.borrow_live_at.contains(t) by {
            assert(derives_borrow_live_at(pb, t));
        }
        assert forall|t: (Region, Loan, PointIndex)|
            e.requires.contains(t) implies other.requires.contains(t) by {
            assert(derives_requires(pb, t));
        }
        assert forall|t: (Region, Region, PointIndex)|
            e.subset.contains(t) implies other.subset.contains(t) by {
            assert(derives_subset(pb, t));
        }
        assert forall|t: (Region, Region, PointIndex)|
            e.outlives.contains(t) implies other.outlives.contains(t) by {
            assert(derives_outlives(pb, t));
        }
    }
}

/// Soundness: every tuple of the explanation holds in every family that the
/// rules are satisfied by. No tuple is there without a derivation from the
/// seed.
pub proof fn lemma_explanation_is_sound(pb: Problem, e: ExplRelations, other: ExplRelations)
    requires
        is_explanation(pb, e),
        closed(pb, other),
    ensures
        contained(e, other),
{
}

/// A problem has one explanation only.
pub proof fn lemma_explanation_is_unique(pb: Problem, e1: ExplRelations, e2: ExplRelations)
    requires
        is_explanation(pb, e1),
        is_explanation(pb, e2),
    ensures
        e1 == e2,
{
    assert(e1.borrow_live_at =~= e2.borrow_live_at);
    assert(e1.requires =~= e2.requires);
    assert(e1.subset =~= e2.subset);
    assert(e1.outlives =~= e2.outlives);
}

/// Where the seed holds no loan that is invalidated and live at the error
/// point, every relation of the explanation is empty.
pub proof fn lemma_no_seed_gives_empty_explanation(pb: Problem, e: ExplRelations)
    requires
        is_explanation(pb, e),
        forall|l: Loan|
            !(pb.error_loans.contains(l) && pb.invalidates.contains((pb.error_point, l))
                && pb.borrow_live_at.contains((l, pb.error_point))),
    ensures
        e.borrow_live_at == Set::<(Loan, PointIndex)>::empty(),
        e.requires == Set::<(Region, Loan, PointIndex)>::empty(),
        e.subset == Set::<(Region, Region, PointIndex)>::empty(),
        e.outlives == Set::<(Region, Region, PointIndex)>::empty(),
{
    let none = ExplRelations {
        borrow_live_at: Set::empty(),
        requires: Set::empty(),
        subset: Set::empty(),
        outlives: Set::empty(),
    };
    assert(closed(pb, none));
}

/// The explanation lies within the facts: every explained outlives edge is
/// an outlives fact, and every explained live loan is a live loan of the
/// facts.
pub proof fn lemma_explanation_lies_within_facts(pb: Problem, e: ExplRelations)
    requires
        is_explanation(pb, e),
    ensures
        e.outlives.subset_of(pb.outlives),
        e.borrow_live_at.subset_of(pb.borrow_live_at),
{
    let all = ExplRelations {
        borrow_live_at: pb.borrow_live_at,
        requires: Set::full(),
        subset: Set::full(),
        outlives: pb.outlives,
    };
    assert(closed(pb, all));
}

} // verus!

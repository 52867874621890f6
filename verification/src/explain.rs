//! The engine that derives the explanation of one error.
//!
//! The engine works through the rules of `crate::rules` stage by stage:
//! first the seed, then `expl_requires`, then `expl_subset`, at last
//! `expl_outlives`. Within a stage each tuple is taken up once and joined
//! with the base relations and with the tuples before it; what this yields
//! goes to the end of the relation. A relation never loses a tuple, and each
//! step brings the engine nearer to the end.

use vstd::prelude::*;
use crate::atoms::{same, Loan, PointIndex, Region};
use crate::facts::{requires_of, AllInputFacts, AllOutputFacts};
use crate::relation::{
    ascending_pairs,
    ascending_triples,
    canonical2,
    canonical3,
    contains2,
    lemma_ascending_pairs_are_canonical,
    lemma_ascending_triples_are_canonical,
    contains3,
    lemma_distinct_triples_are_bounded,
    lemma_take_contains,
    merge3,
    push_new2,
    push_new3,
};
use crate::rules::{
    closed,
    contained,
    derives_borrow_live_at,
    derives_outlives,
    derives_requires,
    derives_subset,
    is_explanation,
    joined,
    lemma_derive_requires_base,
    lemma_derive_requires_cfg,
    lemma_derive_requires_outlives,
    lemma_derive_seed,
    lemma_derive_subset_base,
    lemma_derive_subset_cfg,
    lemma_derive_subset_trans,
    problem_of,
    ExplRelations,
    Problem,
};

verus! {

/// The seeds that rule 1 admits.
fn seed_borrow_live_at(
    point: PointIndex,
    loans: &Vec<Loan>,
    invalidates: &Vec<(PointIndex, Loan)>,
    borrow_live_at: &Vec<(Loan, PointIndex)>,
) -> (heads: Vec<(Loan, PointIndex)>)
    ensures
        heads@.no_duplicates(),
        forall|t: (Loan, PointIndex)|
            #![trigger heads@.contains(t)]
            heads@.contains(t) <==> (t.1 == point && loans@.contains(t.0)
                && invalidates@.contains((point, t.0)) && borrow_live_at@.contains((t.0, point))),
{
    let mut heads: Vec<(Loan, PointIndex)> = Vec::new();
    let mut i: usize = 0;
    while i < loans.len()
        invariant
            i <= loans.len(),
            heads@.no_duplicates(),
            forall|t: (Loan, PointIndex)|
                #![trigger heads@.contains(t)]
                heads@.contains(t) <==> (t.1 == point && loans@.take(i as int).contains(t.0)
                    && invalidates@.contains((point, t.0)) && borrow_live_at@.contains(
                    (t.0, point),
                )),
        decreases loans.len() - i,
    {
        let l = loans[i];
        let ghost start = heads@;
        proof {
            lemma_take_contains(loans@, i as int);
        }
        if contains2(invalidates, point, l) && contains2(borrow_live_at, l, point) {
            let ghost before = heads@;
            let added = push_new2(&mut heads, l, point);
            proof {
                assert forall|t: (Loan, PointIndex)|
                    #![trigger heads@.contains(t)]
                    heads@.contains(t) <==> (before.contains(t) || t == (l, point)) by {
                    vstd::seq_lib::lemma_seq_contains_after_push(before, (l, point), t);
                }
            }
        }
        i += 1;
    }
    assert(loans@.take(i as int) =~= loans@);
    heads
}

/// Of the tuples of `rel`, those that rule 2 admits.
fn heads_requires_base(
    rel: &Vec<(Region, Loan, PointIndex)>,
    expl_borrow_live_at: &Vec<(Loan, PointIndex)>,
    region_live_at: &Vec<(Region, PointIndex)>,
) -> (heads: Vec<(Region, Loan, PointIndex)>)
    ensures
        forall|t: (Region, Loan, PointIndex)|
            #![trigger heads@.contains(t)]
            heads@.contains(t) <==> (rel@.contains(t) && expl_borrow_live_at@.contains((t.1, t.2))
                && region_live_at@.contains((t.0, t.2))),
{
    let mut heads: Vec<(Region, Loan, PointIndex)> = Vec::new();
    let mut i: usize = 0;
    while i < rel.len()
        invariant
            i <= rel.len(),
            forall|t: (Region, Loan, PointIndex)|
                #![trigger heads@.contains(t)]
                heads@.contains(t) <==> (rel@.take(i as int).contains(t)
                    && expl_borrow_live_at@.contains((t.1, t.2)) && region_live_at@.contains(
                    (t.0, t.2),
                )),
        decreases rel.len() - i,
    {
        let (r, l, p) = rel[i];
        proof {
            lemma_take_contains(rel@, i as int);
        }
        if contains2(expl_borrow_live_at, l, p) && contains2(region_live_at, r, p) {
            let ghost before = heads@;
            heads.push((r, l, p));
            proof {
                assert forall|t: (Region, Loan, PointIndex)|
                    #![trigger heads@.contains(t)]
                    heads@.contains(t) <==> (before.contains(t) || t == (r, l, p)) by {
                    vstd::seq_lib::lemma_seq_contains_after_push(before, (r, l, p), t);
                }
            }
        }
        i += 1;
    }
    assert(rel@.take(i as int) =~= rel@);
    heads
}

/// What rule 3 derives from `t`.
fn heads_requires_outlives(
    t: (Region, Loan, PointIndex),
    outlives: &Vec<(Region, Region, PointIndex)>,
) -> (heads: Vec<(Region, Loan, PointIndex)>)
    ensures
        forall|h: (Region, Loan, PointIndex)|
            #![trigger heads@.contains(h)]
            heads@.contains(h) <==> (h.1 == t.1 && h.2 == t.2 && outlives@.contains(
                (h.0, t.0, t.2),
            )),
{
    let mut heads: Vec<(Region, Loan, PointIndex)> = Vec::new();
    let mut i: usize = 0;
    while i < outlives.len()
        invariant
            i <= outlives.len(),
            forall|h: (Region, Loan, PointIndex)|
                #![trigger heads@.contains(h)]
                heads@.contains(h) <==> (h.1 == t.1 && h.2 == t.2 && outlives@.take(
                    i as int,
                ).contains((h.0, t.0, t.2))),
        decreases outlives.len() - i,
    {
        let (r1, r2, p) = outlives[i];
        proof {
            lemma_take_contains(outlives@, i as int);
        }
        if same(r2, t.0) && same(p, t.2) {
            let ghost before = heads@;
            heads.push((r1, t.1, t.2));
            proof {
                assert forall|h: (Region, Loan, PointIndex)|
                    #![trigger heads@.contains(h)]
                    heads@.contains(h) <==> (before.contains(h) || h == (r1, t.1, t.2)) by {
                    vstd::seq_lib::lemma_seq_contains_after_push(before, (r1, t.1, t.2), h);
                }
            }
        }
        i += 1;
    }
    assert(outlives@.take(i as int) =~= outlives@);
    heads
}

/// What rule 4 derives from `t`.
fn heads_requires_cfg(
    t: (Region, Loan, PointIndex),
    cfg_edge: &Vec<(PointIndex, PointIndex)>,
    killed: &Vec<(Loan, PointIndex)>,
    region_live_at: &Vec<(Region, PointIndex)>,
) -> (heads: Vec<(Region, Loan, PointIndex)>)
    ensures
        forall|h: (Region, Loan, PointIndex)|
            #![trigger heads@.contains(h)]
            heads@.contains(h) <==> (h.0 == t.0 && h.1 == t.1 && cfg_edge@.contains((h.2, t.2))
                && !killed@.contains((t.1, h.2)) && region_live_at@.contains((t.0, h.2))),
{
    let mut heads: Vec<(Region, Loan, PointIndex)> = Vec::new();
    let mut i: usize = 0;
    while i < cfg_edge.len()
        invariant
            i <= cfg_edge.len(),
            forall|h: (Region, Loan, PointIndex)|
                #![trigger heads@.contains(h)]
                heads@.contains(h) <==> (h.0 == t.0 && h.1 == t.1 && cfg_edge@.take(
                    i as int,
                ).contains((h.2, t.2)) && !killed@.contains((t.1, h.2))
                    && region_live_at@.contains((t.0, h.2))),
        decreases cfg_edge.len() - i,
    {
        let (earlier, later) = cfg_edge[i];
        proof {
            lemma_take_contains(cfg_edge@, i as int);
        }
        if same(later, t.2) && !contains2(killed, t.1, earlier) && contains2(region_live_at, t.0, earlier) {
            let ghost before = heads@;
            heads.push((t.0, t.1, earlier));
            proof {
                assert forall|h: (Region, Loan, PointIndex)|
                    #![trigger heads@.contains(h)]
                    heads@.contains(h) <==> (before.contains(h) || h == (t.0, t.1, earlier)) by {
                    vstd::seq_lib::lemma_seq_contains_after_push(before, (t.0, t.1, earlier), h);
                }
            }
        }
        i += 1;
    }
    assert(cfg_edge@.take(i as int) =~= cfg_edge@);
    heads
}

/// Whether some loan links the edge from `r1` to `r2` at `p` to the error:
/// `r2` is explained to require it there, and `r1` requires it there.
pub open spec fn is_linked(
    expl_requires: Seq<(Region, Loan, PointIndex)>,
    base: Seq<(Region, Loan, PointIndex)>,
    r1: Region,
    r2: Region,
    p: PointIndex,
) -> bool {
    exists|l: Loan| #[trigger] expl_requires.contains((r2, l, p)) && base.contains((r1, l, p))
}

/// Whether some loan links the edge from `r1` to `r2` at `p` to the error.
fn linked(
    expl_requires: &Vec<(Region, Loan, PointIndex)>,
    all_facts: &AllInputFacts,
    output: &AllOutputFacts,
    r1: Region,
    r2: Region,
    p: PointIndex,
) -> (found: bool)
    ensures
        found == is_linked(expl_requires@, requires_of(all_facts, output), r1, r2, p),
{
    let ghost req = requires_of(all_facts, output);
    let mut i: usize = 0;
    while i < expl_requires.len()
        invariant
            i <= expl_requires.len(),
            req == requires_of(all_facts, output),
            forall|k: int|
                0 <= k < i ==> !((#[trigger] expl_requires@[k]).0 == r2 && expl_requires@[k].2 == p
                    && req.contains((r1, expl_requires@[k].1, p))),
        decreases expl_requires.len() - i,
    {
        let (r, l, q) = expl_requires[i];
        if same(r, r2) && same(q, p) {
            let in_input = contains3(&all_facts.borrow_region, r1, l, p);
            let in_output = contains3(&output.restricts, r1, l, p);
            proof {
                lemma_requires_of_contains(all_facts, output, (r1, l, p));
            }
            if in_input || in_output {
                assert(expl_requires@.contains((r2, l, p)));
                return true;
            }
        }
        i += 1;
    }
    false
}

/// The relation `requires` holds what one of its two parts holds.
pub proof fn lemma_requires_of_contains(
    all_facts: &AllInputFacts,
    output: &AllOutputFacts,
    t: (Region, Loan, PointIndex),
)
    ensures
        requires_of(all_facts, output).contains(t) <==> (all_facts.borrow_region@.contains(t)
            || output.restricts@.contains(t)),
{
    let a = all_facts.borrow_region@;
    let b = output.restricts@;
    let req = requires_of(all_facts, output);
    if a.contains(t) {
        let k = choose|k: int| 0 <= k < a.len() && a[k] == t;
        assert(req[k] == t);
    }
    if b.contains(t) {
        let k = choose|k: int| 0 <= k < b.len() && b[k] == t;
        assert(req[a.len() + k] == t);
    }
}

/// What the first part of rule 5 derives.
fn heads_subset_base(
    expl_requires: &Vec<(Region, Loan, PointIndex)>,
    all_facts: &AllInputFacts,
    output: &AllOutputFacts,
) -> (heads: Vec<(Region, Region, PointIndex)>)
    ensures
        forall|h: (Region, Region, PointIndex)|
            #![trigger heads@.contains(h)]
            heads@.contains(h) <==> (all_facts.outlives@.contains(h) && is_linked(
                expl_requires@,
                requires_of(all_facts, output),
                h.0,
                h.1,
                h.2,
            )),
{
    let ghost req = requires_of(all_facts, output);
    let mut heads: Vec<(Region, Region, PointIndex)> = Vec::new();
    let mut i: usize = 0;
    while i < all_facts.outlives.len()
        invariant
            i <= all_facts.outlives.len(),
            req == requires_of(all_facts, output),
            forall|h: (Region, Region, PointIndex)|
                #![trigger heads@.contains(h)]
                heads@.contains(h) <==> (all_facts.outlives@.take(i as int).contains(h)
                    && is_linked(expl_requires@, req, h.0, h.1, h.2)),
        decreases all_facts.outlives.len() - i,
    {
        let (r1, r2, p) = all_facts.outlives[i];
        proof {
            lemma_take_contains(all_facts.outlives@, i as int);
        }
        if linked(expl_requires, all_facts, output, r1, r2, p) {
            let ghost before = heads@;
            heads.push((r1, r2, p));
            proof {
                assert forall|h: (Region, Region, PointIndex)|
                    #![trigger heads@.contains(h)]
                    heads@.contains(h) <==> (before.contains(h) || h == (r1, r2, p)) by {
                    vstd::seq_lib::lemma_seq_contains_after_push(before, (r1, r2, p), h);
                }
            }
        }
        i += 1;
    }
    assert(all_facts.outlives@.take(i as int) =~= all_facts.outlives@);
    heads
}

/// Whether the second part of rule 5 derives `h` from `t` and `u`, in this
/// order or the other.
pub open spec fn is_chained(
    t: (Region, Region, PointIndex),
    u: (Region, Region, PointIndex),
    h: (Region, Region, PointIndex),
) -> bool {
    u.2 == t.2 && h.2 == t.2 && ((u.1 == t.0 && h.0 == u.0 && h.1 == t.1) || (t.1 == u.0 && h.0
        == t.0 && h.1 == u.1))
}

/// What the second part of rule 5 derives from `t` and the first `upto`
/// tuples of `expl_subset`.
fn heads_subset_trans(
    t: (Region, Region, PointIndex),
    expl_subset: &Vec<(Region, Region, PointIndex)>,
    upto: usize,
) -> (heads: Vec<(Region, Region, PointIndex)>)
    requires
        upto <= expl_subset.len(),
    ensures
        forall|h: (Region, Region, PointIndex)|
            #![trigger heads@.contains(h)]
            heads@.contains(h) <==> exists|j: int|
                0 <= j < upto && is_chained(t, #[trigger] expl_subset@[j], h),
{
    let mut heads: Vec<(Region, Region, PointIndex)> = Vec::new();
    let mut i: usize = 0;
    while i < upto
        invariant
            i <= upto <= expl_subset.len(),
            forall|h: (Region, Region, PointIndex)|
                #![trigger heads@.contains(h)]
                heads@.contains(h) <==> exists|j: int|
                    0 <= j < i && is_chained(t, #[trigger] expl_subset@[j], h),
        decreases upto - i,
    {
        let u = expl_subset[i];
        let ghost start = heads@;
        if same(u.2, t.2) && same(u.1, t.0) {
            heads.push((u.0, t.1, t.2));
        }
        let ghost middle = heads@;
        if same(u.2, t.2) && same(t.1, u.0) {
            heads.push((t.0, u.1, t.2));
        }
        proof {
            assert forall|h: (Region, Region, PointIndex)|
                #![trigger heads@.contains(h)]
                heads@.contains(h) <==> exists|j: int|
                    0 <= j < i + 1 && is_chained(t, #[trigger] expl_subset@[j], h) by {
                vstd::seq_lib::lemma_seq_contains_after_push(start, (u.0, t.1, t.2), h);
                vstd::seq_lib::lemma_seq_contains_after_push(middle, (t.0, u.1, t.2), h);
                if heads@.contains(h) {
                    if start.contains(h) {
                        let j = choose|j: int|
                            0 <= j < i && is_chained(t, #[trigger] expl_subset@[j], h);
                    }
                }
                if exists|j: int| 0 <= j < i + 1 && is_chained(t, #[trigger] expl_subset@[j], h) {
                    let j = choose|j: int|
                        0 <= j < i + 1 && is_chained(t, #[trigger] expl_subset@[j], h);
                    if j < i {
                    }
                }
            }
        }
        i += 1;
    }
    heads
}

/// What rule 6 derives from `t`.
fn heads_subset_cfg(t: (Region, Region, PointIndex), all_facts: &AllInputFacts) -> (heads: Vec<
    (Region, Region, PointIndex),
>)
    ensures
        forall|h: (Region, Region, PointIndex)|
            #![trigger heads@.contains(h)]
            heads@.contains(h) <==> (h.0 == t.0 && h.1 == t.1 && (all_facts.cfg_edge@.contains(
                (t.2, h.2),
            ) || all_facts.cfg_edge@.contains((h.2, t.2))) && all_facts.region_live_at@.contains(
                (t.0, h.2),
            ) && all_facts.region_live_at@.contains((t.1, h.2)) && all_facts.outlives@.contains(
                h,
            )),
{
    let mut heads: Vec<(Region, Region, PointIndex)> = Vec::new();
    let mut i: usize = 0;
    while i < all_facts.outlives.len()
        invariant
            i <= all_facts.outlives.len(),
            forall|h: (Region, Region, PointIndex)|
                #![trigger heads@.contains(h)]
                heads@.contains(h) <==> (h.0 == t.0 && h.1 == t.1 && (
                all_facts.cfg_edge@.contains((t.2, h.2)) || all_facts.cfg_edge@.contains(
                    (h.2, t.2),
                )) && all_facts.region_live_at@.contains((t.0, h.2))
                    && all_facts.region_live_at@.contains((t.1, h.2))
                    && all_facts.outlives@.take(i as int).contains(h)),
        decreases all_facts.outlives.len() - i,
    {
        let (r1, r2, q) = all_facts.outlives[i];
        proof {
            lemma_take_contains(all_facts.outlives@, i as int);
        }
        if same(r1, t.0) && same(r2, t.1) && (contains2(&all_facts.cfg_edge, t.2, q) || contains2(
            &all_facts.cfg_edge,
            q,
            t.2,
        )) && contains2(&all_facts.region_live_at, t.0, q) && contains2(
            &all_facts.region_live_at,
            t.1,
            q,
        ) {
            let ghost before = heads@;
            heads.push((r1, r2, q));
            proof {
                assert forall|h: (Region, Region, PointIndex)|
                    #![trigger heads@.contains(h)]
                    heads@.contains(h) <==> (before.contains(h) || h == (r1, r2, q)) by {
                    vstd::seq_lib::lemma_seq_contains_after_push(before, (r1, r2, q), h);
                }
            }
        }
        i += 1;
    }
    assert(all_facts.outlives@.take(i as int) =~= all_facts.outlives@);
    heads
}

/// What rule 7 derives: the tuples of `outlives` that `expl_subset` holds,
/// each once, in the order of `outlives`.
fn heads_outlives(
    outlives: &Vec<(Region, Region, PointIndex)>,
    expl_subset: &Vec<(Region, Region, PointIndex)>,
) -> (heads: Vec<(Region, Region, PointIndex)>)
    ensures
        heads@.no_duplicates(),
        forall|h: (Region, Region, PointIndex)|
            #![trigger heads@.contains(h)]
            heads@.contains(h) <==> (outlives@.contains(h) && expl_subset@.contains(h)),
{
    let mut heads: Vec<(Region, Region, PointIndex)> = Vec::new();
    let mut i: usize = 0;
    while i < outlives.len()
        invariant
            i <= outlives.len(),
            heads@.no_duplicates(),
            forall|h: (Region, Region, PointIndex)|
                #![trigger heads@.contains(h)]
                heads@.contains(h) <==> (outlives@.take(i as int).contains(h)
                    && expl_subset@.contains(h)),
        decreases outlives.len() - i,
    {
        let (r1, r2, p) = outlives[i];
        proof {
            lemma_take_contains(outlives@, i as int);
        }
        if contains3(expl_subset, r1, r2, p) {
            let ghost before = heads@;
            let added = push_new3(&mut heads, r1, r2, p);
            proof {
                assert forall|h: (Region, Region, PointIndex)|
                    #![trigger heads@.contains(h)]
                    heads@.contains(h) <==> (before.contains(h) || h == (r1, r2, p)) by {
                    vstd::seq_lib::lemma_seq_contains_after_push(before, (r1, r2, p), h);
                }
            }
        }
        i += 1;
    }
    assert(outlives@.take(i as int) =~= outlives@);
    heads
}

/// The regions that a tuple of `expl_requires` can hold.
pub closed spec fn requires_regions(all_facts: &AllInputFacts, output: &AllOutputFacts) -> Seq<
    Region,
> {
    requires_of(all_facts, output).map_values(|t: (Region, Loan, PointIndex)| t.0)
        + all_facts.outlives@.map_values(|t: (Region, Region, PointIndex)| t.0)
}

/// The loans that a tuple of `expl_requires` can hold.
pub closed spec fn requires_loans(all_facts: &AllInputFacts, output: &AllOutputFacts) -> Seq<Loan> {
    requires_of(all_facts, output).map_values(|t: (Region, Loan, PointIndex)| t.1)
}

/// The points that a tuple of `expl_requires` can hold.
pub closed spec fn requires_points(all_facts: &AllInputFacts, output: &AllOutputFacts) -> Seq<
    PointIndex,
> {
    requires_of(all_facts, output).map_values(|t: (Region, Loan, PointIndex)| t.2)
        + all_facts.cfg_edge@.map_values(|t: (PointIndex, PointIndex)| t.0)
}

/// Whether the atoms of `t` are such as a tuple of `expl_requires` can hold.
pub closed spec fn requires_known(
    all_facts: &AllInputFacts,
    output: &AllOutputFacts,
    t: (Region, Loan, PointIndex),
) -> bool {
    &&& requires_regions(all_facts, output).contains(t.0)
    &&& requires_loans(all_facts, output).contains(t.1)
    &&& requires_points(all_facts, output).contains(t.2)
}

/// The regions that a tuple of `expl_subset` can hold in the first place.
pub closed spec fn subset_firsts(all_facts: &AllInputFacts) -> Seq<Region> {
    all_facts.outlives@.map_values(|t: (Region, Region, PointIndex)| t.0)
}

/// The regions that a tuple of `expl_subset` can hold in the second place.
pub closed spec fn subset_seconds(all_facts: &AllInputFacts) -> Seq<Region> {
    all_facts.outlives@.map_values(|t: (Region, Region, PointIndex)| t.1)
}

/// The points that a tuple of `expl_subset` can hold.
pub closed spec fn subset_points(all_facts: &AllInputFacts) -> Seq<PointIndex> {
    all_facts.outlives@.map_values(|t: (Region, Region, PointIndex)| t.2)
}

/// Whether the atoms of `t` are such as a tuple of `expl_subset` can hold.
pub closed spec fn subset_known(all_facts: &AllInputFacts, t: (Region, Region, PointIndex)) -> bool {
    &&& subset_firsts(all_facts).contains(t.0)
    &&& subset_seconds(all_facts).contains(t.1)
    &&& subset_points(all_facts).contains(t.2)
}

/// No more tuples than this can `expl_requires` hold.
pub closed spec fn requires_bound(all_facts: &AllInputFacts, output: &AllOutputFacts) -> nat {
    requires_regions(all_facts, output).len() * requires_loans(all_facts, output).len()
        * requires_points(all_facts, output).len()
}

/// No more tuples than this can `expl_subset` hold.
pub closed spec fn subset_bound(all_facts: &AllInputFacts) -> nat {
    all_facts.outlives@.len() * all_facts.outlives@.len() * all_facts.outlives@.len()
}

/// The atoms of a fact of `requires` are such as a tuple of `expl_requires`
/// can hold.
proof fn lemma_known_from_requires(
    all_facts: &AllInputFacts,
    output: &AllOutputFacts,
    t: (Region, Loan, PointIndex),
)
    requires
        requires_of(all_facts, output).contains(t),
    ensures
        requires_known(all_facts, output, t),
{
    let req = requires_of(all_facts, output);
    let k = choose|k: int| 0 <= k < req.len() && req[k] == t;
    assert(requires_regions(all_facts, output)[k] == t.0);
    assert(requires_loans(all_facts, output)[k] == t.1);
    assert(requires_points(all_facts, output)[k] == t.2);
}

/// The regions and the point of an outlives fact are such as the tuples of
/// the explanation can hold.
proof fn lemma_known_from_outlives(
    all_facts: &AllInputFacts,
    output: &AllOutputFacts,
    t: (Region, Region, PointIndex),
)
    requires
        all_facts.outlives@.contains(t),
    ensures
        requires_regions(all_facts, output).contains(t.0),
        subset_known(all_facts, t),
{
    let out = all_facts.outlives@;
    let k = choose|k: int| 0 <= k < out.len() && out[k] == t;
    assert(requires_regions(all_facts, output)[requires_of(all_facts, output).len() + k] == t.0);
    assert(subset_seconds(all_facts)[k] == t.1);
    assert(subset_points(all_facts)[k] == t.2);
}

/// The point at which an edge of the control flow starts is such as a tuple
/// of `expl_requires` can hold.
proof fn lemma_known_from_cfg_edge(
    all_facts: &AllInputFacts,
    output: &AllOutputFacts,
    t: (PointIndex, PointIndex),
)
    requires
        all_facts.cfg_edge@.contains(t),
    ensures
        requires_points(all_facts, output).contains(t.0),
{
    let cfg = all_facts.cfg_edge@;
    let k = choose|k: int| 0 <= k < cfg.len() && cfg[k] == t;
    assert(requires_points(all_facts, output)[requires_of(all_facts, output).len() + k] == t.0);
}

/// Rules 3 and 4 have been applied to `t`.
pub closed spec fn requires_item_closed(
    pb: Problem,
    req: Seq<(Region, Loan, PointIndex)>,
    t: (Region, Loan, PointIndex),
) -> bool {
    &&& forall|r1: Region|
        #![trigger pb.outlives.contains((r1, t.0, t.2))]
        pb.outlives.contains((r1, t.0, t.2)) ==> req.contains((r1, t.1, t.2))
    &&& forall|earlier: PointIndex|
        #![trigger pb.cfg_edge.contains((earlier, t.2))]
        pb.cfg_edge.contains((earlier, t.2)) && !pb.killed.contains((t.1, earlier))
            && pb.region_live_at.contains((t.0, earlier)) ==> req.contains((t.0, t.1, earlier))
}

/// Rules 3 and 4 have been applied to the first `n` tuples of `req`.
pub closed spec fn requires_closed_upto(
    pb: Problem,
    req: Seq<(Region, Loan, PointIndex)>,
    n: int,
) -> bool {
    forall|k: int| 0 <= k < n ==> requires_item_closed(pb, req, #[trigger] req[k])
}

/// Rule 6 has been applied to `t`.
pub closed spec fn subset_item_closed(
    pb: Problem,
    sub: Seq<(Region, Region, PointIndex)>,
    t: (Region, Region, PointIndex),
) -> bool {
    forall|q: PointIndex|
        #![trigger pb.outlives.contains((t.0, t.1, q))]
        joined(pb, t.2, q) && pb.region_live_at.contains((t.0, q)) && pb.region_live_at.contains(
            (t.1, q),
        ) && pb.outlives.contains((t.0, t.1, q)) ==> sub.contains((t.0, t.1, q))
}

/// The second part of rule 5 has been applied to `t` before `u`.
pub closed spec fn subset_pair_closed(
    sub: Seq<(Region, Region, PointIndex)>,
    t: (Region, Region, PointIndex),
    u: (Region, Region, PointIndex),
) -> bool {
    t.2 == u.2 && t.1 == u.0 ==> sub.contains((t.0, u.1, t.2))
}

/// Rules 5 and 6 have been applied to the first `n` tuples of `sub`.
pub closed spec fn subset_closed_upto(
    pb: Problem,
    sub: Seq<(Region, Region, PointIndex)>,
    n: int,
) -> bool {
    &&& forall|k: int| 0 <= k < n ==> subset_item_closed(pb, sub, #[trigger] sub[k])
    &&& forall|k1: int, k2: int|
        0 <= k1 < n && 0 <= k2 < n ==> subset_pair_closed(sub, #[trigger] sub[k1], #[trigger] sub[k2])
}

/// How far the engine has come.
#[derive(Clone, Copy, Debug, PartialEq, Eq, Structural)]
pub enum Stage {
    /// Nothing is derived yet.
    Seed,
    /// `expl_borrow_live_at` is complete; `expl_requires` grows.
    Requires,
    /// `expl_requires` is complete; `expl_subset` grows.
    Subset,
    /// All relations are complete.
    Done,
}

/// The relations that explain one error.
pub struct Explanation {
    /// `expl_borrow_live_at(L, P)`.
    pub expl_borrow_live_at: Vec<(Loan, PointIndex)>,
    /// `expl_requires(R, L, P)`.
    pub expl_requires: Vec<(Region, Loan, PointIndex)>,
    /// `expl_subset(R1, R2, P)`.
    pub expl_subset: Vec<(Region, Region, PointIndex)>,
    /// `expl_outlives(R1, R2, P)`: the edges that the path search uses.
    pub expl_outlives: Vec<(Region, Region, PointIndex)>,
}

impl Explanation {
    /// Whether each relation holds its tuples in strictly ascending order.
    pub open spec fn is_canonical(&self) -> bool {
        &&& ascending_pairs(self.expl_borrow_live_at@)
        &&& ascending_triples(self.expl_requires@)
        &&& ascending_triples(self.expl_subset@)
        &&& ascending_triples(self.expl_outlives@)
    }
}

impl View for Explanation {
    type V = ExplRelations;

    open spec fn view(&self) -> ExplRelations {
        ExplRelations {
            borrow_live_at: self.expl_borrow_live_at@.to_set(),
            requires: self.expl_requires@.to_set(),
            subset: self.expl_subset@.to_set(),
            outlives: self.expl_outlives@.to_set(),
        }
    }
}

/// The engine: the facts, the error, and what is derived so far.
pub struct ExplanationEngine<'a> {
    /// The input facts of the analysed function.
    pub all_facts: &'a AllInputFacts,
    /// What the region inference derived from them.
    pub output: &'a AllOutputFacts,
    /// The error to explain: its point, and the loans invalidated there.
    pub error_fact: (PointIndex, Vec<Loan>),
    /// How far the engine has come.
    pub stage: Stage,
    /// How many tuples of the relation that grows have been taken up.
    pub cursor: usize,
    /// What is derived so far.
    pub derived: Explanation,
}

impl<'a> ExplanationEngine<'a> {
    /// The problem that this engine works on.
    pub open spec fn problem(&self) -> Problem {
        problem_of(self.all_facts, self.output, self.error_fact)
    }

    /// The relations that are derived so far, as sets.
    pub open spec fn relations(&self) -> ExplRelations {
        self.derived@
    }

    /// Whether the engine has come to its end.
    pub open spec fn converged(&self) -> bool {
        self.stage == Stage::Done
    }

    /// What every tuple that is derived so far satisfies.
    pub closed spec fn all_derived(&self) -> bool {
        let pb = self.problem();
        &&& self.derived.expl_borrow_live_at@.no_duplicates()
        &&& self.derived.expl_requires@.no_duplicates()
        &&& self.derived.expl_subset@.no_duplicates()
        &&& self.derived.expl_outlives@.no_duplicates()
        &&& forall|t: (Loan, PointIndex)|
            #![trigger self.derived.expl_borrow_live_at@.contains(t)]
            self.derived.expl_borrow_live_at@.contains(t) ==> derives_borrow_live_at(pb, t)
        &&& forall|t: (Region, Loan, PointIndex)|
            #![trigger self.derived.expl_requires@.contains(t)]
            self.derived.expl_requires@.contains(t) ==> derives_requires(pb, t) && requires_known(
                self.all_facts,
                self.output,
                t,
            )
        &&& forall|t: (Region, Region, PointIndex)|
            #![trigger self.derived.expl_subset@.contains(t)]
            self.derived.expl_subset@.contains(t) ==> derives_subset(pb, t) && subset_known(
                self.all_facts,
                t,
            )
        &&& forall|t: (Region, Region, PointIndex)|
            #![trigger self.derived.expl_outlives@.contains(t)]
            self.derived.expl_outlives@.contains(t) ==> derives_outlives(pb, t)
    }

    /// What the stage of the engine says of the relations.
    pub closed spec fn stage_holds(&self) -> bool {
        let pb = self.problem();
        let e = self.relations();
        match self.stage {
            Stage::Seed => {
                &&& self.cursor == 0
                &&& self.derived.expl_borrow_live_at@.len() == 0
                &&& self.derived.expl_requires@.len() == 0
                &&& self.derived.expl_subset@.len() == 0
                &&& self.derived.expl_outlives@.len() == 0
            },
            Stage::Requires => {
                &&& self.cursor <= self.derived.expl_requires@.len()
                &&& self.derived.expl_subset@.len() == 0
                &&& self.derived.expl_outlives@.len() == 0
                &&& crate::rules::rule_seed(pb, e)
                &&& crate::rules::rule_requires_base(pb, e)
                &&& requires_closed_upto(pb, self.derived.expl_requires@, self.cursor as int)
            },
            Stage::Subset => {
                &&& self.cursor <= self.derived.expl_subset@.len()
                &&& self.derived.expl_outlives@.len() == 0
                &&& crate::rules::rule_seed(pb, e)
                &&& crate::rules::rule_requires_base(pb, e)
                &&& crate::rules::rule_requires_outlives(pb, e)
                &&& crate::rules::rule_requires_cfg(pb, e)
                &&& crate::rules::rule_subset_base(pb, e)
                &&& subset_closed_upto(pb, self.derived.expl_subset@, self.cursor as int)
            },
            Stage::Done => closed(pb, e),
        }
    }

    /// The invariant of the engine: every tuple that is derived so far has a
    /// derivation, and the rules of the stages that lie behind are satisfied.
    pub open spec fn wf(&self) -> bool {
        self.all_derived() && self.stage_holds()
    }

    /// A bound on the number of steps that the engine still takes.
    pub closed spec fn remaining(&self) -> nat {
        let rb = requires_bound(self.all_facts, self.output) as int;
        let sb = subset_bound(self.all_facts) as int;
        let left = match self.stage {
            Stage::Seed => rb + sb + 3,
            Stage::Requires => (rb - self.cursor) + sb + 2,
            Stage::Subset => (sb - self.cursor) + 1,
            Stage::Done => 0,
        };
        if left >= 0 {
            left as nat
        } else {
            0
        }
    }

    /// An engine for the error `error_fact`, with nothing derived yet.
    pub fn new(
        all_facts: &'a AllInputFacts,
        output: &'a AllOutputFacts,
        error_fact: (PointIndex, Vec<Loan>),
    ) -> (engine: Self)
        ensures
            engine.wf(),
            engine.all_facts == all_facts,
            engine.output == output,
            engine.error_fact == error_fact,
            engine.stage == Stage::Seed,
            engine.derived.expl_borrow_live_at@.len() == 0,
            engine.derived.expl_requires@.len() == 0,
            engine.derived.expl_subset@.len() == 0,
            engine.derived.expl_outlives@.len() == 0,
    {
        ExplanationEngine {
            all_facts,
            output,
            error_fact,
            stage: Stage::Seed,
            cursor: 0,
            derived: Explanation {
                expl_borrow_live_at: Vec::new(),
                expl_requires: Vec::new(),
                expl_subset: Vec::new(),
                expl_outlives: Vec::new(),
            },
        }
    }

    /// The number of tuples of `expl_requires` stays within its bound.
    proof fn lemma_requires_bounded(&self)
        requires
            self.all_derived(),
        ensures
            self.derived.expl_requires@.len() <= requires_bound(self.all_facts, self.output),
    {
        let req = self.derived.expl_requires@;
        assert forall|k: int| 0 <= k < req.len() implies requires_known(
            self.all_facts,
            self.output,
            #[trigger] req[k],
        ) by {
            assert(req.contains(req[k]));
        }
        lemma_distinct_triples_are_bounded(
            self.derived.expl_requires@,
            requires_regions(self.all_facts, self.output),
            requires_loans(self.all_facts, self.output),
            requires_points(self.all_facts, self.output),
        );
    }

    /// The number of tuples of `expl_subset` stays within its bound.
    proof fn lemma_subset_bounded(&self)
        requires
            self.all_derived(),
        ensures
            self.derived.expl_subset@.len() <= subset_bound(self.all_facts),
    {
        let sub = self.derived.expl_subset@;
        assert forall|k: int| 0 <= k < sub.len() implies subset_known(
            self.all_facts,
            #[trigger] sub[k],
        ) by {
            assert(sub.contains(sub[k]));
        }
        lemma_distinct_triples_are_bounded(
            sub,
            subset_firsts(self.all_facts),
            subset_seconds(self.all_facts),
            subset_points(self.all_facts),
        );
        let n = self.all_facts.outlives@.len();
    }
    /// Whether a step has led from `before` to this engine: all that was
    /// derived is still there, and the end has come nearer.
    pub open spec fn follows(&self, before: &Self) -> bool {
        &&& self.wf()
        &&& self.all_facts == before.all_facts
        &&& self.output == before.output
        &&& self.error_fact == before.error_fact
        &&& contained(before.relations(), self.relations())
        &&& self.remaining() < before.remaining()
    }

    /// The step of the first stage: rules 1 and 2.
    fn step_seed(&mut self)
        requires
            old(self).wf(),
            old(self).stage == Stage::Seed,
        ensures
            final(self).follows(old(self)),
    {
        let seeds = seed_borrow_live_at(
            self.error_fact.0,
            &self.error_fact.1,
            &self.all_facts.invalidates,
            &self.output.borrow_live_at,
        );
        let from_input = heads_requires_base(
            &self.all_facts.borrow_region,
            &seeds,
            &self.all_facts.region_live_at,
        );
        let from_output = heads_requires_base(
            &self.output.restricts,
            &seeds,
            &self.all_facts.region_live_at,
        );
        self.derived.expl_borrow_live_at = seeds;
        merge3(&mut self.derived.expl_requires, &from_input);
        let ghost middle = self.derived.expl_requires@;
        merge3(&mut self.derived.expl_requires, &from_output);
        self.stage = Stage::Requires;
        proof {
            let pb = self.problem();
            let blv = self.derived.expl_borrow_live_at@;
            let req = self.derived.expl_requires@;
            assert forall|t: (Loan, PointIndex)| #![trigger blv.contains(t)] blv.contains(t) implies
                derives_borrow_live_at(pb, t) by {
                lemma_derive_seed(pb, t.0);
            }
            assert forall|t: (Region, Loan, PointIndex)| #![trigger req.contains(t)] req.contains(
                t,
            ) implies derives_requires(pb, t) && requires_known(self.all_facts, self.output, t) by {
                assert(from_input@.contains(t) || from_output@.contains(t));
                lemma_requires_of_contains(self.all_facts, self.output, t);
                lemma_derive_requires_base(pb, t.0, t.1, t.2);
                lemma_known_from_requires(self.all_facts, self.output, t);
            }
            let e = self.relations();
            assert(crate::rules::rule_requires_base(pb, e)) by {
                assert forall|r: Region, l: Loan, p: PointIndex|
                    #![trigger pb.requires.contains((r, l, p))]
                    e.borrow_live_at.contains((l, p)) && pb.region_live_at.contains((r, p))
                        && pb.requires.contains((r, l, p)) implies e.requires.contains(
                    (r, l, p),
                ) by {
                    lemma_requires_of_contains(self.all_facts, self.output, (r, l, p));
                    assert(from_input@.contains((r, l, p)) || from_output@.contains((r, l, p)));
                }
            }
        }
    }
    /// A step of the second stage: rules 3 and 4 for the next tuple of
    /// `expl_requires`, or, where none is left, the first part of rule 5.
    fn step_requires(&mut self)
        requires
            old(self).wf(),
            old(self).stage == Stage::Requires,
        ensures
            final(self).follows(old(self)),
    {
        proof {
            self.lemma_requires_bounded();
        }
        let ghost pb = self.problem();
        let ghost old_req = self.derived.expl_requires@;
        if self.cursor < self.derived.expl_requires.len() {
            let t = self.derived.expl_requires[self.cursor];
            let over_outlives = heads_requires_outlives(t, &self.all_facts.outlives);
            let over_cfg = heads_requires_cfg(
                t,
                &self.all_facts.cfg_edge,
                &self.all_facts.killed,
                &self.all_facts.region_live_at,
            );
            merge3(&mut self.derived.expl_requires, &over_outlives);
            let ghost middle = self.derived.expl_requires@;
            merge3(&mut self.derived.expl_requires, &over_cfg);
            self.cursor = self.cursor + 1;
            proof {
                let req = self.derived.expl_requires@;
                assert(old_req.contains(t));
                assert forall|x: (Region, Loan, PointIndex)|
                    #![trigger req.contains(x)]
                    req.contains(x) implies derives_requires(pb, x) && requires_known(
                    self.all_facts,
                    self.output,
                    x,
                ) by {
                    assert(old_req.contains(x) || over_outlives@.contains(x) || over_cfg@.contains(
                        x,
                    ));
                    if old_req.contains(x) {
                    } else if over_outlives@.contains(x) {
                        lemma_derive_requires_outlives(pb, x.0, t.0, t.1, t.2);
                        lemma_known_from_outlives(self.all_facts, self.output, (x.0, t.0, t.2));
                    } else {
                        lemma_derive_requires_cfg(pb, t.0, t.1, t.2, x.2);
                        lemma_known_from_cfg_edge(self.all_facts, self.output, (x.2, t.2));
                    }
                }
                assert(self.all_derived());
                let e = self.relations();
                assert(crate::rules::rule_seed(pb, e));
                assert(requires_closed_upto(pb, req, self.cursor as int)) by {
                    assert forall|k: int| 0 <= k < self.cursor implies requires_item_closed(
                        pb,
                        req,
                        #[trigger] req[k],
                    ) by {
                        if k < self.cursor - 1 {
                        } else {
                            assert(req[k] == t);
                            assert forall|r1: Region|
                                #![trigger pb.outlives.contains((r1, t.0, t.2))]
                                pb.outlives.contains((r1, t.0, t.2)) implies req.contains(
                                (r1, t.1, t.2),
                            ) by {
                                assert(over_outlives@.contains((r1, t.1, t.2)));
                            }
                            assert forall|earlier: PointIndex|
                                #![trigger pb.cfg_edge.contains((earlier, t.2))]
                                pb.cfg_edge.contains((earlier, t.2)) && !pb.killed.contains((t.1, earlier))
                                    && pb.region_live_at.contains((t.0, earlier)) implies req.contains(
                                (t.0, t.1, earlier),
                            ) by {
                                assert(over_cfg@.contains((t.0, t.1, earlier)));
                            }
                        }
                    }
                }
                assert(self.stage_holds());
                assert(contained(old(self).relations(), self.relations()));
            }
        } else {
            let base = heads_subset_base(&self.derived.expl_requires, self.all_facts, self.output);
            merge3(&mut self.derived.expl_subset, &base);
            self.stage = Stage::Subset;
            self.cursor = 0;
            proof {
                let sub = self.derived.expl_subset@;
                let req = self.derived.expl_requires@;
                assert forall|x: (Region, Region, PointIndex)|
                    #![trigger sub.contains(x)]
                    sub.contains(x) implies derives_subset(pb, x) && subset_known(
                    self.all_facts,
                    x,
                ) by {
                    assert(base@.contains(x));
                    let l = choose|l: Loan| #[trigger]
                        req.contains((x.1, l, x.2)) && requires_of(
                            self.all_facts,
                            self.output,
                        ).contains((x.0, l, x.2));
                    lemma_derive_subset_base(pb, x.0, x.1, l, x.2);
                    lemma_known_from_outlives(self.all_facts, self.output, x);
                }
                assert(self.all_derived());
                let e = self.relations();
                assert(crate::rules::rule_subset_base(pb, e)) by {
                    assert forall|r1: Region, r2: Region, l: Loan, p: PointIndex|
                        #![trigger e.requires.contains((r2, l, p)), pb.outlives.contains((r1, r2, p))]
                        e.requires.contains((r2, l, p)) && pb.requires.contains((r1, l, p))
                            && pb.outlives.contains((r1, r2, p)) implies e.subset.contains(
                        (r1, r2, p),
                    ) by {
                        assert(is_linked(
                            req,
                            requires_of(self.all_facts, self.output),
                            r1,
                            r2,
                            p,
                        ));
                        assert(base@.contains((r1, r2, p)));
                    }
                }
                assert(crate::rules::rule_seed(pb, e));
                assert(crate::rules::rule_requires_base(pb, e)) by {
                    let oe = old(self).relations();
                    assert forall|r: Region, l: Loan, p: PointIndex|
                        #![trigger pb.requires.contains((r, l, p))]
                        e.borrow_live_at.contains((l, p)) && pb.region_live_at.contains((r, p))
                            && pb.requires.contains((r, l, p)) implies e.requires.contains(
                        (r, l, p),
                    ) by {
                        assert(oe.requires.contains((r, l, p)));
                    }
                }
                assert(self.stage_holds());
                assert(contained(old(self).relations(), self.relations()));
            }
        }
    }
    /// A step of the third stage: the second part of rule 5 and rule 6 for
    /// the next tuple of `expl_subset`, or, where none is left, rule 7.
    fn step_subset(&mut self)
        requires
            old(self).wf(),
            old(self).stage == Stage::Subset,
        ensures
            final(self).follows(old(self)),
    {
        proof {
            self.lemma_subset_bounded();
        }
        let ghost pb = self.problem();
        let ghost old_sub = self.derived.expl_subset@;
        let ghost oe = self.relations();
        if self.cursor < self.derived.expl_subset.len() {
            let t = self.derived.expl_subset[self.cursor];
            let chained = heads_subset_trans(t, &self.derived.expl_subset, self.cursor + 1);
            let over_cfg = heads_subset_cfg(t, self.all_facts);
            merge3(&mut self.derived.expl_subset, &chained);
            let ghost middle = self.derived.expl_subset@;
            merge3(&mut self.derived.expl_subset, &over_cfg);
            self.cursor = self.cursor + 1;
            proof {
                let sub = self.derived.expl_subset@;
                assert(old_sub.contains(t));
                assert forall|x: (Region, Region, PointIndex)|
                    #![trigger sub.contains(x)]
                    sub.contains(x) implies derives_subset(pb, x) && subset_known(
                    self.all_facts,
                    x,
                ) by {
                    assert(middle.contains(x) || over_cfg@.contains(x));
                    assert(old_sub.contains(x) || chained@.contains(x) || over_cfg@.contains(x));
                    if old_sub.contains(x) {
                    } else if chained@.contains(x) {
                        let j = choose|j: int|
                            0 <= j < old(self).cursor + 1 && is_chained(
                                t,
                                #[trigger] old_sub[j],
                                x,
                            );
                        let u = old_sub[j];
                        assert(old_sub.contains(u));
                        assert(derives_subset(pb, u) && subset_known(self.all_facts, u));
                        if u.1 == t.0 && x.0 == u.0 && x.1 == t.1 {
                            assert(u == (u.0, t.0, t.2));
                            lemma_derive_subset_trans(pb, u.0, t.0, t.1, t.2);
                        } else {
                            assert(u == (t.1, u.1, t.2));
                            lemma_derive_subset_trans(pb, t.0, t.1, u.1, t.2);
                        }
                    } else {
                        lemma_derive_subset_cfg(pb, t.0, t.1, t.2, x.2);
                        lemma_known_from_outlives(self.all_facts, self.output, x);
                    }
                }
                assert(self.all_derived());
                let e = self.relations();
                assert(e.requires == oe.requires);
                assert(crate::rules::rule_seed(pb, e));
                assert(subset_closed_upto(pb, sub, self.cursor as int)) by {
                    assert forall|k: int| 0 <= k < self.cursor implies subset_item_closed(
                        pb,
                        sub,
                        #[trigger] sub[k],
                    ) by {
                        if k < self.cursor - 1 {
                            assert(sub[k] == old_sub[k]);
                            assert(subset_item_closed(pb, old_sub, old_sub[k]));
                        } else {
                            assert(sub[k] == t);
                            assert forall|q: PointIndex|
                                #![trigger pb.outlives.contains((t.0, t.1, q))]
                                joined(pb, t.2, q) && pb.region_live_at.contains((t.0, q))
                                    && pb.region_live_at.contains((t.1, q)) && pb.outlives.contains(
                                    (t.0, t.1, q),
                                ) implies sub.contains((t.0, t.1, q)) by {
                                assert(over_cfg@.contains((t.0, t.1, q)));
                            }
                        }
                    }
                    assert forall|k1: int, k2: int|
                        0 <= k1 < self.cursor && 0 <= k2 < self.cursor implies subset_pair_closed(
                        sub,
                        #[trigger] sub[k1],
                        #[trigger] sub[k2],
                    ) by {
                        assert(sub[k1] == old_sub[k1] && sub[k2] == old_sub[k2]);
                        let a = sub[k1];
                        let b = sub[k2];
                        if k1 < self.cursor - 1 && k2 < self.cursor - 1 {
                            assert(subset_pair_closed(old_sub, old_sub[k1], old_sub[k2]));
                        } else if a.2 == b.2 && a.1 == b.0 {
                            let h = (a.0, b.1, a.2);
                            if k1 == self.cursor - 1 {
                                assert(is_chained(t, old_sub[k2], h));
                            } else {
                                assert(is_chained(t, old_sub[k1], h));
                            }
                            assert(chained@.contains(h));
                            assert(middle.contains(h));
                        }
                    }
                }
                assert(self.stage_holds());
                assert(contained(old(self).relations(), self.relations()));
            }
        } else {
            let edges = heads_outlives(&self.all_facts.outlives, &self.derived.expl_subset);
            self.derived.expl_outlives = edges;
            self.stage = Stage::Done;
            proof {
                let sub = self.derived.expl_subset@;
                let out = self.derived.expl_outlives@;
                assert(self.all_derived());
                let e = self.relations();
                assert(e.borrow_live_at == oe.borrow_live_at);
                assert(e.requires == oe.requires);
                assert(crate::rules::rule_seed(pb, e));
                assert(crate::rules::rule_requires_base(pb, e));
                assert(crate::rules::rule_requires_outlives(pb, e));
                assert(crate::rules::rule_requires_cfg(pb, e));
                assert(self.stage_holds());
                assert(contained(old(self).relations(), self.relations()));
            }
        }
    }

    /// Takes one step, unless the engine has come to its end.
    ///
    /// A step never takes a tuple away, and it lowers the bound on the steps
    /// that are left. The result says whether a step was taken.
    pub fn step(&mut self) -> (progressed: bool)
        requires
            old(self).wf(),
        ensures
            final(self).wf(),
            final(self).all_facts == old(self).all_facts,
            final(self).output == old(self).output,
            final(self).error_fact == old(self).error_fact,
            contained(old(self).relations(), final(self).relations()),
            progressed == !old(self).converged(),
            progressed ==> final(self).remaining() < old(self).remaining(),
            !progressed ==> final(self).relations() == old(self).relations(),
            !progressed ==> final(self).converged(),
    {
        match self.stage {
            Stage::Seed => {
                self.step_seed();
                true
            },
            Stage::Requires => {
                self.step_requires();
                true
            },
            Stage::Subset => {
                self.step_subset();
                true
            },
            Stage::Done => false,
        }
    }

    /// Takes steps until the engine has come to its end. What is derived
    /// then is the explanation of the error.
    pub fn run(&mut self)
        requires
            old(self).wf(),
        ensures
            final(self).wf(),
            final(self).converged(),
            final(self).all_facts == old(self).all_facts,
            final(self).output == old(self).output,
            final(self).error_fact == old(self).error_fact,
            contained(old(self).relations(), final(self).relations()),
            is_explanation(final(self).problem(), final(self).relations()),
    {
        let mut progressed = true;
        while progressed
            invariant
                self.wf(),
                self.all_facts == old(self).all_facts,
                self.output == old(self).output,
                self.error_fact == old(self).error_fact,
                contained(old(self).relations(), self.relations()),
                !progressed ==> self.converged(),
            decreases self.remaining() + (if progressed { 1nat } else { 0nat }),
        {
            progressed = self.step();
        }
    }

    /// Once the engine has come to its end, what is derived is the
    /// explanation: the least family that all rules are satisfied by.
    pub proof fn lemma_converged_is_explanation(&self)
        requires
            self.wf(),
            self.converged(),
        ensures
            is_explanation(self.problem(), self.relations()),
    {
    }
}

/// Derives the explanation of the error `error_fact` from the facts.
///
/// The result is the least family of relations that the rules are satisfied
/// by. Each relation holds its tuples once and in ascending order, so the
/// result does not depend on the order of the facts.
pub fn explain(
    all_facts: &AllInputFacts,
    output: &AllOutputFacts,
    error_fact: (PointIndex, Vec<Loan>),
) -> (explanation: Explanation)
    ensures
        is_explanation(problem_of(all_facts, output, error_fact), explanation@),
        explanation.is_canonical(),
{
    let mut engine = ExplanationEngine::new(all_facts, output, error_fact);
    engine.run();
    let explanation = Explanation {
        expl_borrow_live_at: canonical2(&engine.derived.expl_borrow_live_at),
        expl_requires: canonical3(&engine.derived.expl_requires),
        expl_subset: canonical3(&engine.derived.expl_subset),
        expl_outlives: canonical3(&engine.derived.expl_outlives),
    };
    explanation
}

/// The explanation of a problem is one: two explanations in ascending order
/// hold the same tuples at the same places.
pub proof fn lemma_explanation_is_determined(pb: Problem, a: Explanation, b: Explanation)
    requires
        is_explanation(pb, a@),
        is_explanation(pb, b@),
        a.is_canonical(),
        b.is_canonical(),
    ensures
        a.expl_borrow_live_at@ == b.expl_borrow_live_at@,
        a.expl_requires@ == b.expl_requires@,
        a.expl_subset@ == b.expl_subset@,
        a.expl_outlives@ == b.expl_outlives@,
{
    assert forall|t: (Loan, PointIndex)|
        a.expl_borrow_live_at@.contains(t) <==> b.expl_borrow_live_at@.contains(t) by {
        assert(a@.borrow_live_at.contains(t) <==> b@.borrow_live_at.contains(t));
    }
    assert forall|t: (Region, Loan, PointIndex)|
        a.expl_requires@.contains(t) <==> b.expl_requires@.contains(t) by {
        assert(a@.requires.contains(t) <==> b@.requires.contains(t));
    }
    assert forall|t: (Region, Region, PointIndex)|
        a.expl_subset@.contains(t) <==> b.expl_subset@.contains(t) by {
        assert(a@.subset.contains(t) <==> b@.subset.contains(t));
    }
    assert forall|t: (Region, Region, PointIndex)|
        a.expl_outlives@.contains(t) <==> b.expl_outlives@.contains(t) by {
        assert(a@.outlives.contains(t) <==> b@.outlives.contains(t));
    }
    lemma_ascending_pairs_are_canonical(a.expl_borrow_live_at@, b.expl_borrow_live_at@);
    lemma_ascending_triples_are_canonical(a.expl_requires@, b.expl_requires@);
    lemma_ascending_triples_are_canonical(a.expl_subset@, b.expl_subset@);
    lemma_ascending_triples_are_canonical(a.expl_outlives@, b.expl_outlives@);
}

} // verus!

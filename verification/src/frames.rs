//! The depth-first search of the path finder, with its own stack.
//!
//! The search keeps the path that it is on, and for each region of the path
//! a frame: the place in the ascending list of sources at which it goes on
//! when it comes back to the region. No call is nested in another, so a long
//! path needs no deep stack of the machine.
//!
//! The frames, read as the digits of a number, grow with every step, and
//! the number is bounded: so the search ends.

use vstd::prelude::*;
use crate::atoms::{same, Atom, Loan, PointIndex, Region};
use crate::path::{
    has_edge,
    holds_loan,
    is_backward_path,
    is_source,
    lemma_lex_le_reflexive,
    lex_le,
};
use crate::relation::{contains1, strictly_ascending};

verus! {

/// The number that `digits` writes in the base `base`, the first digit
/// counting most.
pub open spec fn numeral(digits: Seq<int>, base: int) -> int
    decreases digits.len(),
{
    if digits.len() == 0 {
        0
    } else {
        numeral(digits.drop_last(), base) * base + digits.last()
    }
}

/// The greatest number that `len` digits write in the base `base`.
pub open spec fn greatest(len: nat, base: int) -> int
    decreases len,
{
    if len == 0 {
        0
    } else {
        greatest((len - 1) as nat, base) * base + (base - 1)
    }
}

/// Whether each of `digits` is a digit of the base `base`.
pub open spec fn are_digits(digits: Seq<int>, base: int) -> bool {
    forall|i: int| 0 <= i < digits.len() ==> 0 <= #[trigger] digits[i] < base
}

/// A numeral lies between 0 and the greatest numeral of its length.
pub proof fn lemma_numeral_bounds(digits: Seq<int>, base: int)
    requires
        base >= 1,
        are_digits(digits, base),
    ensures
        0 <= numeral(digits, base) <= greatest(digits.len(), base),
    decreases digits.len(),
{
    if digits.len() > 0 {
        let rest = digits.drop_last();
        lemma_numeral_bounds(rest, base);
        let n = numeral(rest, base);
        let g = greatest(rest.len(), base);
        assert(0 <= n * base && n * base <= g * base) by (nonlinear_arith)
            requires
                0 <= n <= g,
                base >= 1,
    }
}

/// Of two numerals that agree before the place `at`, the one with the
/// greater digit at this place is the greater.
pub proof fn lemma_numeral_grows(a: Seq<int>, b: Seq<int>, base: int, at: int)
    requires
        base >= 1,
        a.len() == b.len(),
        0 <= at < a.len(),
        are_digits(a, base),
        are_digits(b, base),
        forall|i: int| 0 <= i < at ==> a[i] == b[i],
        a[at] < b[at],
    ensures
        numeral(a, base) < numeral(b, base),
    decreases a.len(),
{
    let ra = a.drop_last();
    let rb = b.drop_last();
    let last = a.len() - 1;
    if at == last {
        assert(ra =~= rb);
    } else {
        lemma_numeral_grows(ra, rb, base, at);
        let x = numeral(ra, base);
        let y = numeral(rb, base);
        assert((x + 1) * base <= y * base) by (nonlinear_arith)
            requires
                x + 1 <= y,
                base >= 1,
        ;
        assert((x + 1) * base == x * base + base) by (nonlinear_arith);
    }
}

/// The frames as digits: the place of each frame, and behind the frames
/// the digit that no frame has.
pub open spec fn frame_digits(next: Seq<usize>, count: nat) -> Seq<int> {
    Seq::new(
        count + 1,
        |k: int|
            if k < next.len() {
                next[k] as int
            } else {
                count as int + 1
            },
    )
}

/// A bound on the steps that the search still takes.
pub open spec fn steps_left(next: Seq<usize>, count: nat) -> int {
    greatest(count + 1, count as int + 2) - numeral(frame_digits(next, count), count as int + 2)
}

/// Whether `trail` is a path as the search walks it: it holds no region
/// twice, each region has an edge to the one before it and is not one of
/// `avoid`, and no region before the last is given the loan. Where `checked`
/// holds, the last is not given the loan either.
pub open spec fn is_trail(
    edges: Seq<(Region, Region, PointIndex)>,
    borrow_region: Seq<(Region, Loan, PointIndex)>,
    loan: Loan,
    avoid: Seq<Region>,
    trail: Seq<Region>,
    checked: bool,
) -> bool {
    &&& trail.len() > 0
    &&& trail.no_duplicates()
    &&& forall|i: int|
        #![trigger trail[i]]
        1 <= i < trail.len() ==> has_edge(edges, trail[i], trail[i - 1]) && !avoid.contains(
            trail[i],
        )
    &&& forall|i: int|
        #![trigger trail[i]]
        0 <= i < trail.len() - 1 ==> !holds_loan(borrow_region, trail[i], loan)
    &&& checked ==> !holds_loan(borrow_region, trail.last(), loan)
}

/// Whether the frames fit the trail: each frame but the last stands behind
/// the source that follows its region on the trail.
pub open spec fn frames_fit(sources: Seq<Region>, trail: Seq<Region>, next: Seq<usize>) -> bool {
    &&& next.len() == trail.len()
    &&& forall|k: int| 0 <= k < next.len() ==> #[trigger] next[k] <= sources.len()
    &&& forall|k: int|
        #![trigger next[k]]
        0 <= k < next.len() - 1 ==> next[k] >= 1 && trail[k + 1] == sources[next[k] - 1]
}

/// The first place in the sources that is still open to the frame `k`.
pub open spec fn floor_of(next: Seq<usize>, k: int) -> int {
    if k < next.len() - 1 {
        next[k] - 1
    } else {
        next[k] as int
    }
}

/// Whether `q` follows the trail up to its place `k` and goes on from there.
pub open spec fn goes_on(trail: Seq<Region>, q: Seq<Region>, k: int) -> bool {
    &&& 0 <= k < trail.len()
    &&& q.len() > k + 1
    &&& forall|i: int| 0 <= i <= k ==> #[trigger] q[i] == trail[i]
}

/// Whether some source from the place `from` on is the region `r`.
pub open spec fn is_open(sources: Seq<Region>, from: int, r: Region) -> bool {
    exists|m: int| from <= m < sources.len() && 0 <= m && sources[m] == r
}

/// Whether every chain that follows the trail goes on with a source that
/// is still open to the frame at which it leaves the trail: the chains
/// that come before the trail are ruled out.
pub open spec fn earlier_ruled_out(
    edges: Seq<(Region, Region, PointIndex)>,
    borrow_region: Seq<(Region, Loan, PointIndex)>,
    loan: Loan,
    start: Region,
    avoid: Seq<Region>,
    sources: Seq<Region>,
    trail: Seq<Region>,
    next: Seq<usize>,
) -> bool {
    forall|q: Seq<Region>, k: int|
        #![trigger goes_on(trail, q, k), is_backward_path(edges, borrow_region, loan, start, avoid, q)]
        is_backward_path(edges, borrow_region, loan, start, avoid, q) && goes_on(trail, q, k)
            ==> is_open(sources, floor_of(next, k), q[k + 1])
}

/// Whether the source at the place `m` cannot follow `current`: it is on the
/// path already, or it has no edge to `current`.
pub open spec fn is_blocked(
    edges: Seq<(Region, Region, PointIndex)>,
    sources: Seq<Region>,
    on_path: Seq<Region>,
    current: Region,
    m: int,
) -> bool {
    on_path.contains(sources[m]) || !has_edge(edges, sources[m], current)
}

/// A sequence without repetition whose elements behind the first are among
/// `sources` is longer than `sources` by one at most.
proof fn lemma_trail_is_short(sources: Seq<Region>, trail: Seq<Region>)
    requires
        trail.no_duplicates(),
        forall|i: int| 1 <= i < trail.len() ==> sources.contains(#[trigger] trail[i]),
    ensures
        trail.len() <= sources.len() + 1,
{
    if trail.len() > 0 {
        let rest = trail.drop_first();
        rest.unique_seq_to_set();
        sources.lemma_cardinality_of_set();
        vstd::set_lib::lemma_len_subset(rest.to_set(), sources.to_set());
    }
}

/// A chain that leaves the trail with a greater region than the trail has
/// at this place comes behind the trail in lexicographic order.
proof fn lemma_lex_by_difference(a: Seq<Region>, b: Seq<Region>, d: int)
    requires
        0 <= d < a.len(),
        d < b.len(),
        forall|i: int| 0 <= i < d ==> a[i] == b[i],
        a[d].0 < b[d].0,
    ensures
        lex_le(a, b),
    decreases d,
{
    if d > 0 {
        let ra = a.drop_first();
        let rb = b.drop_first();
        lemma_lex_by_difference(ra, rb, d - 1);
    }
}

/// Two sequences agree as far as the shorter goes, or there is a first
/// place at which they differ.
proof fn lemma_first_difference(a: Seq<Region>, b: Seq<Region>) -> (d: int)
    ensures
        0 <= d <= a.len(),
        d <= b.len(),
        forall|i: int| 0 <= i < d ==> a[i] == b[i],
        d < a.len() && d < b.len() ==> a[d] != b[d],
    decreases a.len(),
{
    if a.len() == 0 || b.len() == 0 || a[0] != b[0] {
        0
    } else {
        let ra = a.drop_first();
        let rb = b.drop_first();
        let d = lemma_first_difference(ra, rb);
        assert forall|i: int| 0 <= i < d + 1 implies a[i] == b[i] by {
            if i > 0 {
                assert(ra[i - 1] == a[i] && rb[i - 1] == b[i]);
            }
        }
        d + 1
    }
}

/// At a region with the loan, the trail is the chain that comes first.
proof fn lemma_trail_is_least(
    edges: Seq<(Region, Region, PointIndex)>,
    borrow_region: Seq<(Region, Loan, PointIndex)>,
    loan: Loan,
    start: Region,
    avoid: Seq<Region>,
    sources: Seq<Region>,
    trail: Seq<Region>,
    next: Seq<usize>,
)
    requires
        strictly_ascending(sources),
        is_trail(edges, borrow_region, loan, avoid, trail, false),
        trail[0] == start,
        holds_loan(borrow_region, trail.last(), loan),
        frames_fit(sources, trail, next),
        earlier_ruled_out(edges, borrow_region, loan, start, avoid, sources, trail, next),
    ensures
        is_backward_path(edges, borrow_region, loan, start, avoid, trail),
        forall|q: Seq<Region>| #[trigger]
            is_backward_path(edges, borrow_region, loan, start, avoid, q) ==> lex_le(trail, q),
{
    assert forall|q: Seq<Region>| #[trigger]
        is_backward_path(edges, borrow_region, loan, start, avoid, q) implies lex_le(trail, q) by {
        let d = lemma_first_difference(trail, q);
        let top = trail.len() - 1;
        assert(trail[top] == trail.last());
        if d == q.len() {
            // `q` is a part of the trail: it ends at the first region with the loan
            if q.len() < trail.len() {
            }
            assert(q =~= trail);
            lemma_lex_le_reflexive(trail);
        } else if d == trail.len() {
            // the trail is a part of `q`, which goes on behind a region with the loan
        } else {
            assert(goes_on(trail, q, d - 1));
            let m = choose|m: int|
                floor_of(next, d - 1) <= m < sources.len() && 0 <= m && sources[m] == q[d];
            lemma_lex_by_difference(trail, q, d);
        }
    }
}

/// Where no source is open to the last frame, no chain follows the whole
/// trail and goes on.
proof fn lemma_dead_end(
    edges: Seq<(Region, Region, PointIndex)>,
    borrow_region: Seq<(Region, Loan, PointIndex)>,
    loan: Loan,
    start: Region,
    avoid: Seq<Region>,
    sources: Seq<Region>,
    trail: Seq<Region>,
    next: Seq<usize>,
    upto: int,
    q: Seq<Region>,
)
    requires
        is_trail(edges, borrow_region, loan, avoid, trail, true),
        frames_fit(sources, trail, next),
        earlier_ruled_out(edges, borrow_region, loan, start, avoid, sources, trail, next),
        next[trail.len() - 1] <= upto <= sources.len(),
        forall|m: int|
            next[trail.len() - 1] <= m < upto ==> #[trigger] is_blocked(
                edges,
                sources,
                avoid + trail,
                trail.last(),
                m,
            ),
        is_backward_path(edges, borrow_region, loan, start, avoid, q),
        goes_on(trail, q, trail.len() - 1),
    ensures
        is_open(sources, upto, q[trail.len() as int]),
{
    let top = trail.len() - 1;
    let m = choose|m: int|
        floor_of(next, top) <= m < sources.len() && 0 <= m && sources[m] == q[top + 1];
    if m < upto {
        assert(is_blocked(edges, sources, avoid + trail, trail.last(), m));
        assert(trail[top] == trail.last());
        let on_path = avoid + trail;
        let i = choose|i: int| 0 <= i < on_path.len() && on_path[i] == q[top + 1];
        if i < avoid.len() {
        } else {
            assert(q[i - avoid.len()] == trail[i - avoid.len()]);
        }
    }
}

/// After a step forward, the chains that come before the new trail are
/// ruled out.
proof fn lemma_step_forward(
    edges: Seq<(Region, Region, PointIndex)>,
    borrow_region: Seq<(Region, Loan, PointIndex)>,
    loan: Loan,
    start: Region,
    avoid: Seq<Region>,
    sources: Seq<Region>,
    trail: Seq<Region>,
    next: Seq<usize>,
    j: int,
)
    requires
        sources.len() <= usize::MAX,
        forall|r: Region| sources.contains(r) <==> is_source(edges, r),
        is_trail(edges, borrow_region, loan, avoid, trail, true),
        trail[0] == start,
        frames_fit(sources, trail, next),
        earlier_ruled_out(edges, borrow_region, loan, start, avoid, sources, trail, next),
        next[trail.len() - 1] <= j < sources.len(),
        forall|m: int|
            next[trail.len() - 1] <= m < j ==> #[trigger] is_blocked(
                edges,
                sources,
                avoid + trail,
                trail.last(),
                m,
            ),
        !(avoid + trail).contains(sources[j]),
        has_edge(edges, sources[j], trail.last()),
    ensures
        is_trail(edges, borrow_region, loan, avoid, trail.push(sources[j]), false),
        frames_fit(
            sources,
            trail.push(sources[j]),
            next.update(trail.len() - 1, (j + 1) as usize).push(0),
        ),
        earlier_ruled_out(
            edges,
            borrow_region,
            loan,
            start,
            avoid,
            sources,
            trail.push(sources[j]),
            next.update(trail.len() - 1, (j + 1) as usize).push(0),
        ),
        trail.len() + 1 <= sources.len() + 1,
{
    let top = trail.len() - 1;
    let c = sources[j];
    let on_path = avoid + trail;
    let longer = trail.push(c);
    let frames = next.update(top, (j + 1) as usize).push(0);
    assert(!trail.contains(c)) by {
        if trail.contains(c) {
            let i = choose|i: int| 0 <= i < trail.len() && trail[i] == c;
            assert(on_path[avoid.len() + i] == c);
        }
    }
    assert(!avoid.contains(c)) by {
        if avoid.contains(c) {
            let i = choose|i: int| 0 <= i < avoid.len() && avoid[i] == c;
            assert(on_path[i] == c);
        }
    }
    assert forall|q: Seq<Region>, k: int|
        #![trigger goes_on(longer, q, k), is_backward_path(edges, borrow_region, loan, start, avoid, q)]
        is_backward_path(edges, borrow_region, loan, start, avoid, q) && goes_on(
            longer,
            q,
            k,
        ) implies is_open(sources, floor_of(frames, k), q[k + 1]) by {
        if k <= top {
            assert(goes_on(trail, q, k));
            if k < top {
            } else {
                lemma_dead_end(edges, borrow_region, loan, start, avoid, sources, trail, next, j, q);
            }
        } else {
            assert(is_source(edges, q[k + 1]));
            assert(sources.contains(q[k + 1]));
            let m = choose|m: int| 0 <= m < sources.len() && sources[m] == q[k + 1];
            assert(0 <= m < sources.len() && 0 <= m && sources[m] == q[k + 1]);
        }
    }
    lemma_trail_is_short(sources, longer);
}

/// After a step back, the chains that come before the shorter trail are
/// ruled out.
proof fn lemma_step_back(
    edges: Seq<(Region, Region, PointIndex)>,
    borrow_region: Seq<(Region, Loan, PointIndex)>,
    loan: Loan,
    start: Region,
    avoid: Seq<Region>,
    sources: Seq<Region>,
    trail: Seq<Region>,
    next: Seq<usize>,
)
    requires
        is_trail(edges, borrow_region, loan, avoid, trail, true),
        trail.len() >= 2,
        frames_fit(sources, trail, next),
        earlier_ruled_out(edges, borrow_region, loan, start, avoid, sources, trail, next),
        forall|m: int|
            next[trail.len() - 1] <= m < sources.len() ==> #[trigger] is_blocked(
                edges,
                sources,
                avoid + trail,
                trail.last(),
                m,
            ),
    ensures
        is_trail(edges, borrow_region, loan, avoid, trail.drop_last(), true),
        frames_fit(sources, trail.drop_last(), next.drop_last()),
        earlier_ruled_out(
            edges,
            borrow_region,
            loan,
            start,
            avoid,
            sources,
            trail.drop_last(),
            next.drop_last(),
        ),
{
    let top = trail.len() - 1;
    let shorter = trail.drop_last();
    let frames = next.drop_last();
    assert(trail[top] == trail.last());
    assert forall|q: Seq<Region>, k: int|
        #![trigger goes_on(shorter, q, k), is_backward_path(edges, borrow_region, loan, start, avoid, q)]
        is_backward_path(edges, borrow_region, loan, start, avoid, q) && goes_on(
            shorter,
            q,
            k,
        ) implies is_open(sources, floor_of(frames, k), q[k + 1]) by {
        assert forall|i: int| 0 <= i <= k implies #[trigger] q[i] == trail[i] by {
            assert(q[i] == shorter[i]);
        }
        assert(goes_on(trail, q, k));
        assert(is_open(sources, floor_of(next, k), q[k + 1]));
        if k < top - 1 {
            assert(floor_of(frames, k) == floor_of(next, k));
        } else {
            // the one source that is open no more is the region that was left
            let m = choose|m: int|
                floor_of(next, k) <= m < sources.len() && 0 <= m && sources[m] == q[k + 1];
            assert(next[k] >= 1 && trail[k + 1] == sources[next[k] - 1]);
            if m == next[k] - 1 {
                assert(q[top] == trail[top]);
                assert(q[q.len() - 1] == q.last());
                if q.len() > top + 1 {
                    assert forall|i: int| 0 <= i <= top implies #[trigger] q[i] == trail[i] by {
                        if i < top {
                            assert(q[i] == shorter[i]);
                        }
                    }
                    assert(goes_on(trail, q, top));
                    lemma_dead_end(
                        edges,
                        borrow_region,
                        loan,
                        start,
                        avoid,
                        sources,
                        trail,
                        next,
                        sources.len() as int,
                        q,
                    );
                } else {
                    assert(!holds_loan(borrow_region, trail.last(), loan));
                }
            }
            assert(floor_of(frames, k) == next[k]);
        }
    }
}

/// A step forward brings the end of the search nearer.
proof fn lemma_forward_is_progress(next: Seq<usize>, count: nat, j: int)
    requires
        count <= usize::MAX,
        1 <= next.len() <= count,
        forall|k: int| 0 <= k < next.len() ==> #[trigger] next[k] <= count,
        next[next.len() - 1] <= j < count,
    ensures
        0 <= steps_left(next.update(next.len() - 1, (j + 1) as usize).push(0), count) < steps_left(
            next,
            count,
        ),
{
    let top = next.len() - 1;
    let frames = next.update(top, (j + 1) as usize).push(0);
    let a = frame_digits(next, count);
    let b = frame_digits(frames, count);
    let base = count as int + 2;
    lemma_numeral_grows(a, b, base, top);
    lemma_numeral_bounds(b, base);
}

/// A step back brings the end of the search nearer.
proof fn lemma_back_is_progress(next: Seq<usize>, count: nat)
    requires
        2 <= next.len() <= count + 1,
        forall|k: int| 0 <= k < next.len() ==> #[trigger] next[k] <= count,
    ensures
        0 <= steps_left(next.drop_last(), count) < steps_left(next, count),
{
    let top = next.len() - 1;
    let frames = next.drop_last();
    let a = frame_digits(next, count);
    let b = frame_digits(frames, count);
    let base = count as int + 2;
    assert(are_digits(a, base));
    assert(are_digits(b, base)) by {
        assert forall|i: int| 0 <= i < b.len() implies 0 <= #[trigger] b[i] < base by {
            if i < top {
                assert(frames[i] == next[i]);
            }
        }
    }
    assert forall|i: int| 0 <= i < top implies a[i] == b[i] by {
        assert(frames[i] == next[i]);
    }
    lemma_numeral_grows(a, b, base, top);
    lemma_numeral_bounds(b, base);
}

/// What the search knows at each step: the trail is a path as the search
/// walks it, the frames fit it, and the chains that come before it are
/// ruled out.
#[verifier::opaque]
pub open spec fn search_state(
    edges: Seq<(Region, Region, PointIndex)>,
    borrow_region: Seq<(Region, Loan, PointIndex)>,
    loan: Loan,
    start: Region,
    avoid: Seq<Region>,
    sources: Seq<Region>,
    trail: Seq<Region>,
    next: Seq<usize>,
    checked: bool,
) -> bool {
    &&& is_trail(edges, borrow_region, loan, avoid, trail, checked)
    &&& trail[0] == start
    &&& frames_fit(sources, trail, next)
    &&& earlier_ruled_out(edges, borrow_region, loan, start, avoid, sources, trail, next)
    &&& trail.len() <= sources.len() + 1
}

/// What the state says of the lengths and the frames.
proof fn lemma_state_shape(
    edges: Seq<(Region, Region, PointIndex)>,
    borrow_region: Seq<(Region, Loan, PointIndex)>,
    loan: Loan,
    start: Region,
    avoid: Seq<Region>,
    sources: Seq<Region>,
    trail: Seq<Region>,
    next: Seq<usize>,
    checked: bool,
)
    requires
        search_state(edges, borrow_region, loan, start, avoid, sources, trail, next, checked),
    ensures
        trail.len() >= 1,
        next.len() == trail.len(),
        trail.len() <= sources.len() + 1,
        trail[0] == start,
        forall|k: int| 0 <= k < next.len() ==> #[trigger] next[k] <= sources.len(),
        steps_left(next, sources.len()) >= 0,
{
    reveal(search_state);
    let base = sources.len() as int + 2;
    lemma_numeral_bounds(frame_digits(next, sources.len()), base);
}

/// The state in which the search starts.
proof fn lemma_state_start(
    edges: Seq<(Region, Region, PointIndex)>,
    borrow_region: Seq<(Region, Loan, PointIndex)>,
    loan: Loan,
    start: Region,
    avoid: Seq<Region>,
    sources: Seq<Region>,
)
    requires
        forall|r: Region| sources.contains(r) <==> is_source(edges, r),
    ensures
        search_state(
            edges,
            borrow_region,
            loan,
            start,
            avoid,
            sources,
            seq![start],
            seq![0usize],
            false,
        ),
{
    reveal(search_state);
    let trail = seq![start];
    let next = seq![0usize];
    assert forall|q: Seq<Region>, k: int|
        #![trigger goes_on(trail, q, k), is_backward_path(edges, borrow_region, loan, start, avoid, q)]
        is_backward_path(edges, borrow_region, loan, start, avoid, q) && goes_on(
            trail,
            q,
            k,
        ) implies is_open(sources, floor_of(next, k), q[k + 1]) by {
        assert(has_edge(edges, q[k + 1], q[k + 1 - 1]));
        assert(is_source(edges, q[k + 1]));
        assert(sources.contains(q[k + 1]));
        let m = choose|m: int| 0 <= m < sources.len() && sources[m] == q[k + 1];
        assert(0 <= m < sources.len() && 0 <= m && sources[m] == q[k + 1]);
    }
}

/// A region that was looked at and has not the loan is checked.
proof fn lemma_state_checked(
    edges: Seq<(Region, Region, PointIndex)>,
    borrow_region: Seq<(Region, Loan, PointIndex)>,
    loan: Loan,
    start: Region,
    avoid: Seq<Region>,
    sources: Seq<Region>,
    trail: Seq<Region>,
    next: Seq<usize>,
)
    requires
        search_state(edges, borrow_region, loan, start, avoid, sources, trail, next, false),
        !holds_loan(borrow_region, trail.last(), loan),
    ensures
        search_state(edges, borrow_region, loan, start, avoid, sources, trail, next, true),
{
    reveal(search_state);
}

/// At a region with the loan the search has found the chain that comes
/// first.
proof fn lemma_state_found(
    edges: Seq<(Region, Region, PointIndex)>,
    borrow_region: Seq<(Region, Loan, PointIndex)>,
    loan: Loan,
    start: Region,
    avoid: Seq<Region>,
    sources: Seq<Region>,
    trail: Seq<Region>,
    next: Seq<usize>,
)
    requires
        strictly_ascending(sources),
        search_state(edges, borrow_region, loan, start, avoid, sources, trail, next, false),
        holds_loan(borrow_region, trail.last(), loan),
    ensures
        is_backward_path(edges, borrow_region, loan, start, avoid, trail),
        forall|q: Seq<Region>| #[trigger]
            is_backward_path(edges, borrow_region, loan, start, avoid, q) ==> lex_le(trail, q),
{
    reveal(search_state);
    lemma_trail_is_least(edges, borrow_region, loan, start, avoid, sources, trail, next);
}

/// The state after a step forward to the source at the place `j`.
proof fn lemma_state_forward(
    edges: Seq<(Region, Region, PointIndex)>,
    borrow_region: Seq<(Region, Loan, PointIndex)>,
    loan: Loan,
    start: Region,
    avoid: Seq<Region>,
    sources: Seq<Region>,
    trail: Seq<Region>,
    next: Seq<usize>,
    j: int,
)
    requires
        sources.len() <= usize::MAX,
        forall|r: Region| sources.contains(r) <==> is_source(edges, r),
        search_state(edges, borrow_region, loan, start, avoid, sources, trail, next, true),
        next[trail.len() - 1] <= j < sources.len(),
        forall|m: int|
            next[trail.len() - 1] <= m < j ==> #[trigger] is_blocked(
                edges,
                sources,
                avoid + trail,
                trail.last(),
                m,
            ),
        !(avoid + trail).contains(sources[j]),
        has_edge(edges, sources[j], trail.last()),
    ensures
        search_state(
            edges,
            borrow_region,
            loan,
            start,
            avoid,
            sources,
            trail.push(sources[j]),
            next.update(trail.len() - 1, (j + 1) as usize).push(0),
            false,
        ),
        0 <= steps_left(
            next.update(trail.len() - 1, (j + 1) as usize).push(0),
            sources.len(),
        ) < steps_left(next, sources.len()),
{
    reveal(search_state);
    lemma_step_forward(edges, borrow_region, loan, start, avoid, sources, trail, next, j);
    lemma_forward_is_progress(next, sources.len(), j);
}

/// The state after a step back.
proof fn lemma_state_back(
    edges: Seq<(Region, Region, PointIndex)>,
    borrow_region: Seq<(Region, Loan, PointIndex)>,
    loan: Loan,
    start: Region,
    avoid: Seq<Region>,
    sources: Seq<Region>,
    trail: Seq<Region>,
    next: Seq<usize>,
)
    requires
        search_state(edges, borrow_region, loan, start, avoid, sources, trail, next, true),
        trail.len() >= 2,
        forall|m: int|
            next[trail.len() - 1] <= m < sources.len() ==> #[trigger] is_blocked(
                edges,
                sources,
                avoid + trail,
                trail.last(),
                m,
            ),
    ensures
        search_state(
            edges,
            borrow_region,
            loan,
            start,
            avoid,
            sources,
            trail.drop_last(),
            next.drop_last(),
            true,
        ),
        0 <= steps_left(next.drop_last(), sources.len()) < steps_left(next, sources.len()),
{
    reveal(search_state);
    lemma_step_back(edges, borrow_region, loan, start, avoid, sources, trail, next);
    lemma_back_is_progress(next, sources.len());
}

/// Where the search cannot go on from the start, there is no chain.
proof fn lemma_state_failed(
    edges: Seq<(Region, Region, PointIndex)>,
    borrow_region: Seq<(Region, Loan, PointIndex)>,
    loan: Loan,
    start: Region,
    avoid: Seq<Region>,
    sources: Seq<Region>,
    trail: Seq<Region>,
    next: Seq<usize>,
)
    requires
        search_state(edges, borrow_region, loan, start, avoid, sources, trail, next, true),
        trail.len() == 1,
        forall|m: int|
            next[trail.len() - 1] <= m < sources.len() ==> #[trigger] is_blocked(
                edges,
                sources,
                avoid + trail,
                trail.last(),
                m,
            ),
    ensures
        trail == seq![start],
        forall|q: Seq<Region>| !is_backward_path(edges, borrow_region, loan, start, avoid, q),
{
    reveal(search_state);
    assert forall|q: Seq<Region>|
        !is_backward_path(edges, borrow_region, loan, start, avoid, q) by {
        if is_backward_path(edges, borrow_region, loan, start, avoid, q) {
            assert(q[q.len() - 1] == q.last());
            assert(q.len() > 1);
            assert(goes_on(trail, q, 0));
            lemma_dead_end(
                edges,
                borrow_region,
                loan,
                start,
                avoid,
                sources,
                trail,
                next,
                sources.len() as int,
                q,
            );
        }
    }
}

/// Whether `borrow_region` gives `loan` to `region`.
fn holds(borrow_region: &Vec<(Region, Loan, PointIndex)>, region: Region, loan: Loan) -> (held: bool)
    ensures
        held == holds_loan(borrow_region@, region, loan),
{
    let mut i: usize = 0;
    while i < borrow_region.len()
        invariant
            i <= borrow_region.len(),
            forall|k: int|
                0 <= k < i ==> !((#[trigger] borrow_region@[k]).0 == region && borrow_region@[k].1
                    == loan),
        decreases borrow_region.len() - i,
    {
        let (r, l, p) = borrow_region[i];
        if same(r, region) && same(l, loan) {
            assert(borrow_region@[i as int] == (region, loan, p));
            assert(borrow_region@.contains((region, loan, p)));
            return true;
        }
        i += 1;
    }
    false
}

/// Whether `edges` holds an edge from `from` to `to`.
fn edge_exists(edges: &Vec<(Region, Region, PointIndex)>, from: Region, to: Region) -> (found: bool)
    ensures
        found == has_edge(edges@, from, to),
{
    let mut i: usize = 0;
    while i < edges.len()
        invariant
            i <= edges.len(),
            forall|k: int| 0 <= k < i ==> !((#[trigger] edges@[k]).0 == from && edges@[k].1 == to),
        decreases edges.len() - i,
    {
        let (r1, r2, p) = edges[i];
        if same(r1, from) && same(r2, to) {
            assert(edges@[i as int] == (from, to, p));
            assert(edges@.contains((from, to, p)));
            return true;
        }
        i += 1;
    }
    false
}

/// The first place from `from` on at which a source stands that is not on
/// the path and has an edge to `current`; the number of the sources where
/// there is none.
fn next_open(
    edges: &Vec<(Region, Region, PointIndex)>,
    sources: &Vec<Region>,
    on_path: &Vec<Region>,
    current: Region,
    from: usize,
) -> (place: usize)
    requires
        from <= sources.len(),
    ensures
        from <= place <= sources.len(),
        forall|m: int|
            from <= m < place ==> #[trigger] is_blocked(edges@, sources@, on_path@, current, m),
        place < sources.len() ==> !on_path@.contains(sources@[place as int]) && has_edge(
            edges@,
            sources@[place as int],
            current,
        ),
{
    let mut j: usize = from;
    while j < sources.len()
        invariant
            from <= j <= sources.len(),
            forall|m: int|
                from <= m < j ==> #[trigger] is_blocked(edges@, sources@, on_path@, current, m),
        decreases sources.len() - j,
    {
        if !contains1(on_path, sources[j]) && edge_exists(edges, sources[j], current) {
            return j;
        }
        assert(is_blocked(edges@, sources@, on_path@, current, j as int));
        j += 1;
    }
    j
}

/// Walks the edges against their direction, from `start` towards a region
/// that `borrow_region` gives `loan`, over the regions of `sources` that are
/// not on `cur_path`.
///
/// Where a chain exists, the one that comes first in lexicographic order is
/// put behind what `cur_path` held, and the result is `true`. Where none
/// exists, only `start` is put there, and the result is `false`.
pub(crate) fn search(
    edges: &Vec<(Region, Region, PointIndex)>,
    borrow_region: &Vec<(Region, Loan, PointIndex)>,
    loan: Loan,
    start: Region,
    sources: &Vec<Region>,
    cur_path: &mut Vec<Region>,
) -> (found: bool)
    requires
        strictly_ascending(sources@),
        forall|r: Region| sources@.contains(r) <==> is_source(edges@, r),
    ensures
        found ==> final(cur_path)@ == old(cur_path)@ + final(cur_path)@.subrange(
            old(cur_path)@.len() as int,
            final(cur_path)@.len() as int,
        ),
        found ==> is_backward_path(
            edges@,
            borrow_region@,
            loan,
            start,
            old(cur_path)@,
            final(cur_path)@.subrange(
                old(cur_path)@.len() as int,
                final(cur_path)@.len() as int,
            ),
        ),
        found ==> forall|q: Seq<Region>| #[trigger]
            is_backward_path(edges@, borrow_region@, loan, start, old(cur_path)@, q) ==> lex_le(
                final(cur_path)@.subrange(
                    old(cur_path)@.len() as int,
                    final(cur_path)@.len() as int,
                ),
                q,
            ),
        !found ==> final(cur_path)@ == old(cur_path)@.push(start),
        !found ==> forall|q: Seq<Region>|
            !is_backward_path(edges@, borrow_region@, loan, start, old(cur_path)@, q),
{
    let ghost avoid = cur_path@;
    let base = cur_path.len();
    cur_path.push(start);
    let mut next: Vec<usize> = Vec::new();
    next.push(0);
    let ghost mut trail: Seq<Region> = seq![start];
    let mut checked = false;
    proof {
        lemma_state_start(edges@, borrow_region@, loan, start, avoid, sources@);
        lemma_state_shape(
            edges@,
            borrow_region@,
            loan,
            start,
            avoid,
            sources@,
            trail,
            next@,
            checked,
        );
    }
    loop
        invariant
            strictly_ascending(sources@),
            forall|r: Region| sources@.contains(r) <==> is_source(edges@, r),
            avoid == old(cur_path)@,
            base == avoid.len(),
            cur_path@ == avoid + trail,
            search_state(
                edges@,
                borrow_region@,
                loan,
                start,
                avoid,
                sources@,
                trail,
                next@,
                checked,
            ),
            steps_left(next@, sources@.len()) >= 0,
        decreases steps_left(next@, sources@.len()),
    {
        proof {
            lemma_state_shape(
                edges@,
                borrow_region@,
                loan,
                start,
                avoid,
                sources@,
                trail,
                next@,
                checked,
            );
        }
        let top = next.len() - 1;
        let total = cur_path.len();
        assert(total == base + trail.len());
        let current = cur_path[base + top];
        if !checked {
            if holds(borrow_region, current, loan) {
                proof {
                    lemma_state_found(
                        edges@,
                        borrow_region@,
                        loan,
                        start,
                        avoid,
                        sources@,
                        trail,
                        next@,
                    );
                    assert(cur_path@.subrange(base as int, cur_path@.len() as int) =~= trail);
                }
                return true;
            }
            proof {
                lemma_state_checked(
                    edges@,
                    borrow_region@,
                    loan,
                    start,
                    avoid,
                    sources@,
                    trail,
                    next@,
                );
            }
            checked = true;
        }
        let j = next_open(edges, sources, cur_path, current, next[top]);
        if j < sources.len() {
            proof {
                lemma_state_forward(
                    edges@,
                    borrow_region@,
                    loan,
                    start,
                    avoid,
                    sources@,
                    trail,
                    next@,
                    j as int,
                );
                trail = trail.push(sources@[j as int]);
            }
            next.set(top, j + 1);
            next.push(0);
            cur_path.push(sources[j]);
            checked = false;
        } else if top == 0 {
            proof {
                lemma_state_failed(
                    edges@,
                    borrow_region@,
                    loan,
                    start,
                    avoid,
                    sources@,
                    trail,
                    next@,
                );
            }
            return false;
        } else {
            proof {
                lemma_state_back(
                    edges@,
                    borrow_region@,
                    loan,
                    start,
                    avoid,
                    sources@,
                    trail,
                    next@,
                );
                trail = trail.drop_last();
            }
            next.pop();
            cur_path.pop();
            proof {
                assert(cur_path@ =~= avoid + trail);
            }
        }
    }
}

} // verus!

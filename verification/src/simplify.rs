//! The simplification of an enriched error graph.
//!
//! A region whose variable is not known, or has no name, says little to the
//! reader. Such a region is spliced out of the graph: its edges leave, and
//! each region before it gets an edge to each region behind it, with the
//! line of the edge that led into the region. The region at which the path
//! enters and the region at which it ends always stay.

use vstd::prelude::*;
use crate::assoc::AssocMap;
use crate::atoms::{same, Region};
use crate::graph::{EnrichedErrorGraph, SourceLine, Variable};

verus! {

/// An edge between two regions.
pub type Edge = (Region, Region);

/// Whether some edge of `edges` ends at `r`.
pub open spec fn has_incoming(edges: Seq<Edge>, r: Region) -> bool {
    exists|i: int| 0 <= i < edges.len() && (#[trigger] edges[i]).1 == r
}

/// Whether some edge of `edges` starts at `r`.
pub open spec fn has_outgoing(edges: Seq<Edge>, r: Region) -> bool {
    exists|i: int| 0 <= i < edges.len() && (#[trigger] edges[i]).0 == r
}

/// The first region from place `i` on at which an edge starts and no edge
/// ends.
pub open spec fn entry_from(edges: Seq<Edge>, i: int) -> Option<Region>
    decreases edges.len() - i,
{
    if i < 0 || i >= edges.len() {
        None
    } else if !has_incoming(edges, edges[i].0) {
        Some(edges[i].0)
    } else {
        entry_from(edges, i + 1)
    }
}

/// The first region from place `i` on at which an edge ends and no edge
/// starts.
pub open spec fn exit_from(edges: Seq<Edge>, i: int) -> Option<Region>
    decreases edges.len() - i,
{
    if i < 0 || i >= edges.len() {
        None
    } else if !has_outgoing(edges, edges[i].1) {
        Some(edges[i].1)
    } else {
        exit_from(edges, i + 1)
    }
}

/// The entry region of the graph: the first region, in the order of the
/// edges, at which an edge starts and no edge ends.
pub open spec fn entry_of(edges: Seq<Edge>) -> Option<Region> {
    entry_from(edges, 0)
}

/// The exit region of the graph: the first region, in the order of the
/// edges, at which an edge ends and no edge starts.
pub open spec fn exit_of(edges: Seq<Edge>) -> Option<Region> {
    exit_from(edges, 0)
}

/// The regions from which an edge of `edges` leads to `reg`, one for each
/// such edge, in the order of the edges.
pub open spec fn preds_of(edges: Seq<Edge>, reg: Region) -> Seq<Region>
    decreases edges.len(),
{
    if edges.len() == 0 {
        Seq::empty()
    } else if edges.last().1 == reg {
        preds_of(edges.drop_last(), reg).push(edges.last().0)
    } else {
        preds_of(edges.drop_last(), reg)
    }
}

/// The regions to which an edge of `edges` leads from `reg`, one for each
/// such edge, in the order of the edges.
pub open spec fn succs_of(edges: Seq<Edge>, reg: Region) -> Seq<Region>
    decreases edges.len(),
{
    if edges.len() == 0 {
        Seq::empty()
    } else if edges.last().0 == reg {
        succs_of(edges.drop_last(), reg).push(edges.last().1)
    } else {
        succs_of(edges.drop_last(), reg)
    }
}

/// The edges of `edges` that do not touch `reg`, in their order.
pub open spec fn kept_of(edges: Seq<Edge>, reg: Region) -> Seq<Edge>
    decreases edges.len(),
{
    if edges.len() == 0 {
        Seq::empty()
    } else if edges.last().0 != reg && edges.last().1 != reg {
        kept_of(edges.drop_last(), reg).push(edges.last())
    } else {
        kept_of(edges.drop_last(), reg)
    }
}

/// The edges from `from` to each region of `to`.
pub open spec fn row(from: Region, to: Seq<Region>) -> Seq<Edge> {
    Seq::new(to.len(), |i: int| (from, to[i]))
}

/// The edges from each region of `from` to each region of `to`: first all
/// edges of the first region of `from`, and so on.
pub open spec fn bridges(from: Seq<Region>, to: Seq<Region>) -> Seq<Edge>
    decreases from.len(),
{
    if from.len() == 0 {
        Seq::empty()
    } else {
        bridges(from.drop_last(), to) + row(from.last(), to)
    }
}

/// The edges after `reg` is spliced out: those that do not touch it, then
/// an edge for each region before it and each region behind it.
pub open spec fn splice(edges: Seq<Edge>, reg: Region) -> Seq<Edge> {
    kept_of(edges, reg) + bridges(preds_of(edges, reg), succs_of(edges, reg))
}

/// Whether `e` is an edge that the splicing of `reg` adds.
pub open spec fn is_bridge(edges: Seq<Edge>, reg: Region, e: Edge) -> bool {
    edges.contains((e.0, reg)) && edges.contains((reg, e.1))
}

/// The lines of the edges after `reg` is spliced out: an edge that is added
/// has the line of the edge that led from its start into `reg`.
pub open spec fn spliced_lines(
    lines: Map<Edge, SourceLine>,
    edges: Seq<Edge>,
    reg: Region,
) -> Map<Edge, SourceLine> {
    Map::new(
        |e: Edge| lines.contains_key(e) || is_bridge(edges, reg, e),
        |e: Edge|
            if is_bridge(edges, reg, e) {
                lines[(e.0, reg)]
            } else {
                lines[e]
            },
    )
}

/// Whether the region `reg` with the variable `variable` is spliced out of
/// a graph that is entered at `first` and left at `last`.
pub open spec fn is_removable(
    reg: Region,
    variable: Option<Variable>,
    first: Option<Region>,
    last: Option<Region>,
) -> bool {
    &&& first != Some(reg)
    &&& last != Some(reg)
    &&& match variable {
        None => true,
        Some(v) => v.name is None,
    }
}

/// The edges and their lines after each removable region of `locals` is
/// spliced out, in the order of `locals`.
pub open spec fn simplified(
    edges: Seq<Edge>,
    lines: Map<Edge, SourceLine>,
    locals: Seq<(Region, Option<Variable>)>,
    first: Option<Region>,
    last: Option<Region>,
) -> (Seq<Edge>, Map<Edge, SourceLine>)
    decreases locals.len(),
{
    if locals.len() == 0 {
        (edges, lines)
    } else {
        let before = simplified(edges, lines, locals.drop_last(), first, last);
        if is_removable(locals.last().0, locals.last().1, first, last) {
            (splice(before.0, locals.last().0), spliced_lines(before.1, before.0, locals.last().0))
        } else {
            before
        }
    }
}

/// What the three parts of a splicing hold.
pub proof fn lemma_splice_parts(edges: Seq<Edge>, reg: Region)
    ensures
        forall|r: Region| preds_of(edges, reg).contains(r) <==> edges.contains((r, reg)),
        forall|r: Region| succs_of(edges, reg).contains(r) <==> edges.contains((reg, r)),
        forall|e: Edge|
            kept_of(edges, reg).contains(e) <==> (edges.contains(e) && e.0 != reg && e.1 != reg),
    decreases edges.len(),
{
    if edges.len() == 0 {
    } else {
        let rest = edges.drop_last();
        let last = edges.last();
        lemma_splice_parts(rest, reg);
        assert forall|e: Edge| edges.contains(e) <==> (rest.contains(e) || e == last) by {
            if edges.contains(e) {
                let i = choose|i: int| 0 <= i < edges.len() && edges[i] == e;
                if i < rest.len() {
                    assert(rest[i] == e);
                }
            }
            if rest.contains(e) {
                let i = choose|i: int| 0 <= i < rest.len() && rest[i] == e;
            }
        }
        assert forall|r: Region| preds_of(edges, reg).contains(r) <==> edges.contains((r, reg)) by {
            vstd::seq_lib::lemma_seq_contains_after_push(preds_of(rest, reg), last.0, r);
        }
        assert forall|r: Region| succs_of(edges, reg).contains(r) <==> edges.contains((reg, r)) by {
            vstd::seq_lib::lemma_seq_contains_after_push(succs_of(rest, reg), last.1, r);
        }
        assert forall|e: Edge|
            kept_of(edges, reg).contains(e) <==> (edges.contains(e) && e.0 != reg && e.1
                != reg) by {
            vstd::seq_lib::lemma_seq_contains_after_push(kept_of(rest, reg), last, e);
            assert(kept_of(rest, reg).contains(e) <==> (rest.contains(e) && e.0 != reg && e.1
                != reg));
        }
    }
}

/// What the bridges hold.
pub proof fn lemma_bridges_hold(from: Seq<Region>, to: Seq<Region>)
    ensures
        forall|e: Edge| bridges(from, to).contains(e) <==> (from.contains(e.0) && to.contains(e.1)),
    decreases from.len(),
{
    if from.len() == 0 {
    } else {
        let rest = from.drop_last();
        let last = from.last();
        lemma_bridges_hold(rest, to);
        let b = bridges(rest, to);
        let w = row(last, to);
        assert forall|e: Edge| bridges(from, to).contains(e) <==> (from.contains(e.0)
            && to.contains(e.1)) by {
            let all = b + w;
            if all.contains(e) {
                let i = choose|i: int| 0 <= i < all.len() && all[i] == e;
                if i < b.len() {
                    assert(b.contains(e));
                    let j = choose|j: int| 0 <= j < rest.len() && rest[j] == e.0;
                }
            }
            if from.contains(e.0) && to.contains(e.1) {
                let j = choose|j: int| 0 <= j < from.len() && from[j] == e.0;
                let h = choose|h: int| 0 <= h < to.len() && to[h] == e.1;
                if j < rest.len() {
                    assert(rest[j] == e.0);
                    assert(b.contains(e));
                    let i = choose|i: int| 0 <= i < b.len() && b[i] == e;
                    assert(all[i] == e);
                } else {
                    assert(all[b.len() + h] == e);
                }
            }
        }
    }
}

/// What the edges hold after a splicing.
pub proof fn lemma_splice_holds(edges: Seq<Edge>, reg: Region)
    ensures
        forall|e: Edge| #[trigger]
            splice(edges, reg).contains(e) <==> ((edges.contains(e) && e.0 != reg && e.1 != reg)
                || is_bridge(edges, reg, e)),
{
    lemma_splice_parts(edges, reg);
    lemma_bridges_hold(preds_of(edges, reg), succs_of(edges, reg));
    let k = kept_of(edges, reg);
    let b = bridges(preds_of(edges, reg), succs_of(edges, reg));
    assert forall|e: Edge|
        splice(edges, reg).contains(e) <==> ((edges.contains(e) && e.0 != reg && e.1 != reg)
            || is_bridge(edges, reg, e)) by {
        let all = k + b;
        if all.contains(e) {
            let i = choose|i: int| 0 <= i < all.len() && all[i] == e;
            if i < k.len() {
            } else {
                assert(b.contains(e));
            }
        }
        if k.contains(e) {
            let i = choose|i: int| 0 <= i < k.len() && k[i] == e;
            assert(all[i] == e);
        }
        if b.contains(e) {
            let i = choose|i: int| 0 <= i < b.len() && b[i] == e;
            assert(all[k.len() + i] == e);
        }
    }
}

/// The lines `lines`, with the line of the edge from its start into `reg`
/// for each edge of `done`.
pub open spec fn lines_with(lines: Map<Edge, SourceLine>, reg: Region, done: Set<Edge>) -> Map<
    Edge,
    SourceLine,
> {
    Map::new(
        |e: Edge| lines.contains_key(e) || done.contains(e),
        |e: Edge|
            if done.contains(e) {
                lines[(e.0, reg)]
            } else {
                lines[e]
            },
    )
}

/// Whether some edge of `edges` ends at `r`.
fn incoming(edges: &Vec<Edge>, r: Region) -> (found: bool)
    ensures
        found == has_incoming(edges@, r),
{
    let mut i: usize = 0;
    while i < edges.len()
        invariant
            i <= edges.len(),
            forall|j: int| 0 <= j < i ==> (#[trigger] edges@[j]).1 != r,
        decreases edges.len() - i,
    {
        if same(edges[i].1, r) {
            return true;
        }
        i += 1;
    }
    false
}

/// Whether some edge of `edges` starts at `r`.
fn outgoing(edges: &Vec<Edge>, r: Region) -> (found: bool)
    ensures
        found == has_outgoing(edges@, r),
{
    let mut i: usize = 0;
    while i < edges.len()
        invariant
            i <= edges.len(),
            forall|j: int| 0 <= j < i ==> (#[trigger] edges@[j]).0 != r,
        decreases edges.len() - i,
    {
        if same(edges[i].0, r) {
            return true;
        }
        i += 1;
    }
    false
}

/// The three parts into which the splicing of `reg` takes the edges apart:
/// the regions before `reg`, the regions behind it, and the edges that do
/// not touch it.
fn take_apart(edges: &Vec<Edge>, reg: Region) -> (parts: (Vec<Region>, Vec<Region>, Vec<Edge>))
    ensures
        parts.0@ == preds_of(edges@, reg),
        parts.1@ == succs_of(edges@, reg),
        parts.2@ == kept_of(edges@, reg),
{
    let mut preds: Vec<Region> = Vec::new();
    let mut succs: Vec<Region> = Vec::new();
    let mut kept: Vec<Edge> = Vec::new();
    let mut i: usize = 0;
    while i < edges.len()
        invariant
            i <= edges.len(),
            preds@ == preds_of(edges@.take(i as int), reg),
            succs@ == succs_of(edges@.take(i as int), reg),
            kept@ == kept_of(edges@.take(i as int), reg),
        decreases edges.len() - i,
    {
        let (r1, r2) = edges[i];
        proof {
            let longer = edges@.take(i + 1);
            assert(longer.drop_last() =~= edges@.take(i as int));
        }
        let ends_here = same(r2, reg);
        let starts_here = same(r1, reg);
        if ends_here {
            preds.push(r1);
        }
        if starts_here {
            succs.push(r2);
        }
        if !ends_here && !starts_here {
            kept.push((r1, r2));
        }
        i += 1;
    }
    assert(edges@.take(i as int) =~= edges@);
    (preds, succs, kept)
}

/// Adds to `edges` an edge from `from` to each region of `to`, and gives
/// each of them the line of the edge from `from` into `reg`.
fn add_row(
    edges: &mut Vec<Edge>,
    lines: &mut AssocMap<Edge, SourceLine>,
    from: Region,
    to: &Vec<Region>,
    reg: Region,
    Ghost(start): Ghost<Map<Edge, SourceLine>>,
    Ghost(done): Ghost<Set<Edge>>,
)
    requires
        old(lines).wf(),
        old(lines)@ == lines_with(start, reg, done),
        start.contains_key((from, reg)),
    ensures
        final(lines).wf(),
        final(edges)@ == old(edges)@ + row(from, to@),
        final(lines)@ == lines_with(
            start,
            reg,
            done.union(Set::new(|e: Edge| e.0 == from && to@.contains(e.1))),
        ),
{
    let ghost first = edges@;
    let mut b: usize = 0;
    while b < to.len()
        invariant
            b <= to.len(),
            lines.wf(),
            start.contains_key((from, reg)),
            edges@ == first + row(from, to@.take(b as int)),
            lines@ == lines_with(
                start,
                reg,
                done.union(Set::new(|e: Edge| e.0 == from && to@.take(b as int).contains(e.1))),
            ),
        decreases to.len() - b,
    {
        let r2 = to[b];
        let ghost so_far = done.union(
            Set::new(|e: Edge| e.0 == from && to@.take(b as int).contains(e.1)),
        );
        let ghost before = lines@;
        let found = lines.get(&(from, reg)).unwrap();
        let line: SourceLine = (found.0, found.1.clone());
        edges.push((from, r2));
        lines.insert((from, r2), line);
        proof {
            crate::relation::lemma_take_contains(to@, b as int);
            let next = done.union(
                Set::new(|e: Edge| e.0 == from && to@.take(b + 1).contains(e.1)),
            );
        }
        b += 1;
    }
    assert(to@.take(b as int) =~= to@);
}

/// Splices the region `reg` out of the edges, and gives each edge that is
/// added the line of the edge that led from its start into `reg`.
pub fn splice_region(edges: &mut Vec<Edge>, lines: &mut AssocMap<Edge, SourceLine>, reg: Region)
    requires
        old(lines).wf(),
        forall|e: Edge| #[trigger] old(edges)@.contains(e) ==> old(lines)@.contains_key(e),
    ensures
        final(lines).wf(),
        final(edges)@ == splice(old(edges)@, reg),
        final(lines)@ == spliced_lines(old(lines)@, old(edges)@, reg),
        forall|e: Edge| #[trigger] final(edges)@.contains(e) ==> final(lines)@.contains_key(e),
{
    let ghost old_edges = edges@;
    let ghost start = lines@;
    let (preds, succs, kept) = take_apart(edges, reg);
    *edges = kept;
    let ghost mut done: Set<Edge> = Set::empty();
    proof {
        lemma_splice_parts(old_edges, reg);
    }
    let mut a: usize = 0;
    while a < preds.len()
        invariant
            a <= preds.len(),
            lines.wf(),
            preds@ == preds_of(old_edges, reg),
            forall|r: Region| preds@.contains(r) <==> old_edges.contains((r, reg)),
            forall|e: Edge| #[trigger] old_edges.contains(e) ==> start.contains_key(e),
            edges@ == kept_of(old_edges, reg) + bridges(preds@.take(a as int), succs@),
            lines@ == lines_with(start, reg, done),
            forall|e: Edge|
                done.contains(e) <==> (preds@.take(a as int).contains(e.0) && succs@.contains(e.1)),
        decreases preds.len() - a,
    {
        let r1 = preds[a];
        proof {
            assert(preds@.contains(r1));
        }
        add_row(edges, lines, r1, &succs, reg, Ghost(start), Ghost(done));
        proof {
            let longer = preds@.take(a + 1);
            assert(longer.drop_last() =~= preds@.take(a as int));
            crate::relation::lemma_take_contains(preds@, a as int);
            done = done.union(Set::new(|e: Edge| e.0 == r1 && succs@.contains(e.1)));
        }
        a += 1;
    }
    proof {
        assert(preds@.take(a as int) =~= preds@);
        lemma_splice_holds(old_edges, reg);
        assert forall|e: Edge| #[trigger] edges@.contains(e) implies lines@.contains_key(e) by {
            assert(splice(old_edges, reg).contains(e));
        }
    }
}

impl EnrichedErrorGraph {
    /// Finds the entry region of the graph: the first region, in the order
    /// of the edges, at which an edge starts and no edge ends. There is none
    /// where every region has an edge that ends at it.
    pub fn find_entry_region(&self) -> (entry: Option<Region>)
        ensures
            entry == entry_of(self.edges@),
    {
        let mut i: usize = 0;
        while i < self.edges.len()
            invariant
                i <= self.edges.len(),
                entry_of(self.edges@) == entry_from(self.edges@, i as int),
            decreases self.edges.len() - i,
        {
            let candidate = self.edges[i].0;
            if !incoming(&self.edges, candidate) {
                return Some(candidate);
            }
            i += 1;
        }
        None
    }

    /// Finds the exit region of the graph: the first region, in the order of
    /// the edges, at which an edge ends and no edge starts. There is none
    /// where every region has an edge that starts at it.
    pub fn find_exit_region(&self) -> (exit: Option<Region>)
        ensures
            exit == exit_of(self.edges@),
    {
        let mut i: usize = 0;
        while i < self.edges.len()
            invariant
                i <= self.edges.len(),
                exit_of(self.edges@) == exit_from(self.edges@, i as int),
            decreases self.edges.len() - i,
        {
            let candidate = self.edges[i].1;
            if !outgoing(&self.edges, candidate) {
                return Some(candidate);
            }
            i += 1;
        }
        None
    }

    /// Improves the graph to make it easier to read: every region whose
    /// variable is not known, or has no name, is spliced out, in the order
    /// of `locals_for_regions`. The entry region and the exit region stay.
    ///
    /// Only the edges and `lines_for_edges` change. What was noted of the
    /// regions that leave is kept.
    pub fn improve_graph(&mut self)
        requires
            old(self).wf(),
        ensures
            final(self).wf(),
            final(self).function_name == old(self).function_name,
            final(self).locals_for_regions == old(self).locals_for_regions,
            final(self).locals_info_for_regions == old(self).locals_info_for_regions,
            final(self).lines_for_regions == old(self).lines_for_regions,
            final(self).lines_for_edges_start == old(self).lines_for_edges_start,
            (final(self).edges@, final(self).lines_for_edges@) == simplified(
                old(self).edges@,
                old(self).lines_for_edges@,
                old(self).locals_for_regions.entries@,
                entry_of(old(self).edges@),
                exit_of(old(self).edges@),
            ),
    {
        let first_region = self.find_entry_region();
        let last_region = self.find_exit_region();
        let ghost locals = self.locals_for_regions.entries@;
        let ghost old_edges = self.edges@;
        let ghost old_lines = self.lines_for_edges@;
        let mut i: usize = 0;
        while i < self.locals_for_regions.len()
            invariant
                i <= locals.len(),
                self.wf(),
                self.function_name == old(self).function_name,
                self.locals_for_regions == old(self).locals_for_regions,
                self.locals_info_for_regions == old(self).locals_info_for_regions,
                self.lines_for_regions == old(self).lines_for_regions,
                self.lines_for_edges_start == old(self).lines_for_edges_start,
                locals == self.locals_for_regions.entries@,
                (self.edges@, self.lines_for_edges@) == simplified(
                    old_edges,
                    old_lines,
                    locals.take(i as int),
                    first_region,
                    last_region,
                ),
            decreases locals.len() - i,
        {
            let reg = self.locals_for_regions.entries[i].0;
            let nameless = match &self.locals_for_regions.entries[i].1 {
                None => true,
                Some(variable) => !variable.is_named(),
            };
            let is_first = match first_region {
                Some(r) => same(r, reg),
                None => false,
            };
            let is_last = match last_region {
                Some(r) => same(r, reg),
                None => false,
            };
            proof {
                let longer = locals.take(i + 1);
                assert(longer.drop_last() =~= locals.take(i as int));
            }
            if nameless && !is_first && !is_last {
                splice_region(&mut self.edges, &mut self.lines_for_edges, reg);
            }
            i += 1;
        }
        assert(locals.take(i as int) =~= locals);
    }
}

/// Whether `e` is the edge between the regions at the places `i` and `i + 1`
/// of `nodes`.
pub open spec fn is_step(nodes: Seq<Region>, i: int, e: Edge) -> bool {
    0 <= i < nodes.len() - 1 && e.0 == nodes[i] && e.1 == nodes[i + 1]
}

/// Whether `edges` is a genuine path through `nodes`: no region occurs
/// twice, and the edges are those from each region to the next, in whatever
/// order.
pub open spec fn is_path_graph(edges: Seq<Edge>, nodes: Seq<Region>) -> bool {
    &&& nodes.len() >= 2
    &&& nodes.no_duplicates()
    &&& forall|e: Edge| #[trigger]
        edges.contains(e) <==> exists|i: int| #[trigger] is_step(nodes, i, e)
}

/// The regions of `nodes` that are not in `gone`, in their order.
pub open spec fn keep_nodes(nodes: Seq<Region>, gone: Set<Region>) -> Seq<Region>
    decreases nodes.len(),
{
    if nodes.len() == 0 {
        Seq::empty()
    } else if gone.contains(nodes.last()) {
        keep_nodes(nodes.drop_last(), gone)
    } else {
        keep_nodes(nodes.drop_last(), gone).push(nodes.last())
    }
}

/// The regions that the simplification splices out.
pub open spec fn removed_regions(
    locals: Seq<(Region, Option<Variable>)>,
    first: Option<Region>,
    last: Option<Region>,
) -> Set<Region> {
    Set::new(
        |r: Region|
            exists|j: int|
                0 <= j < locals.len() && (#[trigger] locals[j]).0 == r && is_removable(
                    r,
                    locals[j].1,
                    first,
                    last,
                ),
    )
}

/// The region that follows `r` on `nodes`.
pub open spec fn next_of(nodes: Seq<Region>, r: Region) -> Region {
    nodes[nodes.index_of(r) + 1]
}

/// On a path, the regions with an edge that ends at them are all but the
/// first, and those with an edge that starts at them are all but the last.
proof fn lemma_path_degrees(edges: Seq<Edge>, nodes: Seq<Region>)
    requires
        is_path_graph(edges, nodes),
    ensures
        forall|r: Region|
            has_incoming(edges, r) <==> exists|i: int|
                1 <= i < nodes.len() && #[trigger] nodes[i] == r,
        forall|r: Region|
            has_outgoing(edges, r) <==> exists|i: int|
                0 <= i < nodes.len() - 1 && #[trigger] nodes[i] == r,
{
    assert forall|r: Region|
        has_incoming(edges, r) <==> exists|i: int|
            1 <= i < nodes.len() && #[trigger] nodes[i] == r by {
        if has_incoming(edges, r) {
            let j = choose|j: int| 0 <= j < edges.len() && (#[trigger] edges[j]).1 == r;
            assert(edges.contains(edges[j]));
            let i = choose|i: int| #[trigger] is_step(nodes, i, edges[j]);
        }
        if exists|i: int| 1 <= i < nodes.len() && #[trigger] nodes[i] == r {
            let i = choose|i: int| 1 <= i < nodes.len() && #[trigger] nodes[i] == r;
            let e = (nodes[i - 1], nodes[i]);
            assert(is_step(nodes, i - 1, e));
            assert(edges.contains(e));
            let j = choose|j: int| 0 <= j < edges.len() && edges[j] == e;
        }
    }
    assert forall|r: Region|
        has_outgoing(edges, r) <==> exists|i: int|
            0 <= i < nodes.len() - 1 && #[trigger] nodes[i] == r by {
        if has_outgoing(edges, r) {
            let j = choose|j: int| 0 <= j < edges.len() && (#[trigger] edges[j]).0 == r;
            assert(edges.contains(edges[j]));
            let i = choose|i: int| #[trigger] is_step(nodes, i, edges[j]);
        }
        if exists|i: int| 0 <= i < nodes.len() - 1 && #[trigger] nodes[i] == r {
            let i = choose|i: int| 0 <= i < nodes.len() - 1 && #[trigger] nodes[i] == r;
            let e = (nodes[i], nodes[i + 1]);
            assert(is_step(nodes, i, e));
            assert(edges.contains(e));
            let j = choose|j: int| 0 <= j < edges.len() && edges[j] == e;
        }
    }
}

/// On a path, the search for the entry region comes to the first region of
/// the path, from whatever place before its edge it starts.
proof fn lemma_entry_from(edges: Seq<Edge>, nodes: Seq<Region>, i: int, at: int)
    requires
        is_path_graph(edges, nodes),
        0 <= i <= at < edges.len(),
        edges[at].0 == nodes[0],
    ensures
        entry_from(edges, i) == Some(nodes[0]),
    decreases at - i,
{
    lemma_path_degrees(edges, nodes);
    let r = edges[i].0;
    assert(edges.contains(edges[i]));
    let k = choose|k: int| #[trigger] is_step(nodes, k, edges[i]);
    if has_incoming(edges, r) {
        lemma_entry_from(edges, nodes, i + 1, at);
    }
}

/// On a path, the search for the exit region comes to the last region of
/// the path, from whatever place before its edge it starts.
proof fn lemma_exit_from(edges: Seq<Edge>, nodes: Seq<Region>, i: int, at: int)
    requires
        is_path_graph(edges, nodes),
        0 <= i <= at < edges.len(),
        edges[at].1 == nodes.last(),
    ensures
        exit_from(edges, i) == Some(nodes.last()),
    decreases at - i,
{
    lemma_path_degrees(edges, nodes);
    let r = edges[i].1;
    assert(edges.contains(edges[i]));
    let k = choose|k: int| #[trigger] is_step(nodes, k, edges[i]);
    if has_outgoing(edges, r) {
        lemma_exit_from(edges, nodes, i + 1, at);
    }
}

/// A genuine path is entered at its first region and left at its last.
pub proof fn lemma_path_has_entry_and_exit(edges: Seq<Edge>, nodes: Seq<Region>)
    requires
        is_path_graph(edges, nodes),
    ensures
        entry_of(edges) == Some(nodes[0]),
        exit_of(edges) == Some(nodes.last()),
{
    let first = (nodes[0], nodes[1]);
    assert(is_step(nodes, 0, first));
    assert(edges.contains(first));
    let a = choose|a: int| 0 <= a < edges.len() && edges[a] == first;
    lemma_entry_from(edges, nodes, 0, a);
    let n = nodes.len() as int;
    let last = (nodes[n - 2], nodes[n - 1]);
    assert(is_step(nodes, n - 2, last));
    assert(edges.contains(last));
    let b = choose|b: int| 0 <= b < edges.len() && edges[b] == last;
    lemma_exit_from(edges, nodes, 0, b);
}

/// What `keep_nodes` holds, and in which order.
pub proof fn lemma_keep_nodes(nodes: Seq<Region>, gone: Set<Region>)
    requires
        nodes.no_duplicates(),
    ensures
        keep_nodes(nodes, gone).no_duplicates(),
        forall|r: Region|
            keep_nodes(nodes, gone).contains(r) <==> (nodes.contains(r) && !gone.contains(r)),
        forall|a: int, b: int|
            0 <= a < b < keep_nodes(nodes, gone).len() ==> nodes.index_of(
                #[trigger] keep_nodes(nodes, gone)[a],
            ) < nodes.index_of(#[trigger] keep_nodes(nodes, gone)[b]),
        nodes.len() > 0 && !gone.contains(nodes.last()) ==> keep_nodes(nodes, gone).len() > 0
            && keep_nodes(nodes, gone).last() == nodes.last(),
        nodes.len() > 0 && !gone.contains(nodes[0]) ==> keep_nodes(nodes, gone).len() > 0
            && keep_nodes(nodes, gone)[0] == nodes[0],
    decreases nodes.len(),
{
    if nodes.len() == 0 {
    } else {
        let rest = nodes.drop_last();
        let last = nodes.last();
        let n = nodes.len() as int;
        lemma_keep_nodes(rest, gone);
        let k = keep_nodes(rest, gone);
        let all = keep_nodes(nodes, gone);
        assert forall|r: Region| nodes.contains(r) <==> (rest.contains(r) || r == last) by {
            if nodes.contains(r) {
                let i = choose|i: int| 0 <= i < nodes.len() && nodes[i] == r;
                if i < n - 1 {
                    assert(rest[i] == r);
                }
            }
            if rest.contains(r) {
                let i = choose|i: int| 0 <= i < rest.len() && rest[i] == r;
                assert(nodes[i] == r);
            }
        }
        // the place of a region of `rest` is the same in `nodes`
        assert forall|r: Region| rest.contains(r) implies nodes.index_of(r) == rest.index_of(
            r,
        ) by {
            let i = rest.index_of(r);
            let j = nodes.index_of(r);
            assert(nodes[i] == r);
            if i != j {
            }
        }
        if gone.contains(last) {
            if nodes.len() > 0 && !gone.contains(nodes[0]) {
                assert(rest[0] == nodes[0]);
            }
        } else {
            assert(all == k.push(last));
            assert forall|r: Region| all.contains(r) <==> (nodes.contains(r) && !gone.contains(
                r,
            )) by {
                vstd::seq_lib::lemma_seq_contains_after_push(k, last, r);
            }
            assert forall|i: int, j: int| 0 <= i < all.len() && 0 <= j < all.len() && i
                != j implies all[i] != all[j] by {
                if i < k.len() {
                    assert(k.contains(k[i]));
                }
                if j < k.len() {
                    assert(k.contains(k[j]));
                }
            }
            assert forall|a: int, b: int| 0 <= a < b < all.len() implies nodes.index_of(
                #[trigger] all[a],
            ) < nodes.index_of(#[trigger] all[b]) by {
                assert(k.contains(k[a]));
                assert(rest.contains(k[a]));
                assert(0 <= rest.index_of(k[a]) < rest.len());
                if b < k.len() {
                    assert(k.contains(k[b]));
                }
            }
            if !gone.contains(nodes[0]) {
                if n >= 2 {
                    assert(rest[0] == nodes[0]);
                    assert(all[0] == k[0]);
                } else {
                    assert(rest.len() == 0);
                    assert(k.len() == 0);
                }
            }
        }
    }
}

/// Splicing an inner region out of a genuine path gives the path without
/// that region; the one edge that is added joins its two neighbours.
pub proof fn lemma_splice_on_path(edges: Seq<Edge>, nodes: Seq<Region>, k: int)
    requires
        is_path_graph(edges, nodes),
        0 < k < nodes.len() - 1,
    ensures
        is_path_graph(splice(edges, nodes[k]), nodes.remove(k)),
        forall|e: Edge|
            is_bridge(edges, nodes[k], e) <==> (e.0 == nodes[k - 1] && e.1 == nodes[k + 1]),
{
    let reg = nodes[k];
    let rest = nodes.remove(k);
    let after = splice(edges, reg);
    lemma_splice_holds(edges, reg);
    assert forall|e: Edge| is_bridge(edges, reg, e) <==> (e.0 == nodes[k - 1] && e.1 == nodes[k
        + 1]) by {
        if is_bridge(edges, reg, e) {
            let a = choose|a: int| #[trigger] is_step(nodes, a, (e.0, reg));
            assert(nodes[a + 1] == nodes[k]);
            let b = choose|b: int| #[trigger] is_step(nodes, b, (reg, e.1));
            assert(nodes[b] == nodes[k]);
        }
        if e.0 == nodes[k - 1] && e.1 == nodes[k + 1] {
            assert(is_step(nodes, k - 1, (e.0, reg)));
            assert(is_step(nodes, k, (reg, e.1)));
        }
    }
    assert forall|e: Edge| #[trigger] after.contains(e) <==> exists|i: int| #[trigger]
        is_step(rest, i, e) by {
        if after.contains(e) {
            if is_bridge(edges, reg, e) {
                assert(rest[k - 1] == nodes[k - 1]);
                assert(rest[k] == nodes[k + 1]);
                assert(is_step(rest, k - 1, e));
            } else {
                assert(edges.contains(e) && e.0 != reg && e.1 != reg);
                let j = choose|j: int| #[trigger] is_step(nodes, j, e);
                assert(nodes[j] != nodes[k] && nodes[j + 1] != nodes[k]);
                if j < k - 1 {
                    assert(rest[j] == nodes[j] && rest[j + 1] == nodes[j + 1]);
                    assert(is_step(rest, j, e));
                } else {
                    assert(j > k);
                    assert(rest[j - 1] == nodes[j] && rest[j] == nodes[j + 1]);
                    assert(is_step(rest, j - 1, e));
                }
            }
        }
        if exists|i: int| #[trigger] is_step(rest, i, e) {
            let i = choose|i: int| #[trigger] is_step(rest, i, e);
            if i < k - 1 {
                assert(rest[i] == nodes[i] && rest[i + 1] == nodes[i + 1]);
                assert(is_step(nodes, i, e));
                assert(nodes[i] != nodes[k] && nodes[i + 1] != nodes[k]);
                assert(edges.contains(e));
            } else if i == k - 1 {
                assert(rest[i] == nodes[k - 1] && rest[i + 1] == nodes[k + 1]);
                assert(is_bridge(edges, reg, e));
            } else {
                assert(rest[i] == nodes[i + 1] && rest[i + 1] == nodes[i + 2]);
                assert(is_step(nodes, i + 1, e));
                assert(nodes[i + 1] != nodes[k] && nodes[i + 2] != nodes[k]);
                assert(edges.contains(e));
            }
        }
    }
}

/// Splicing a region that is not on a genuine path changes nothing of it.
pub proof fn lemma_splice_off_path(edges: Seq<Edge>, nodes: Seq<Region>, reg: Region)
    requires
        is_path_graph(edges, nodes),
        !nodes.contains(reg),
    ensures
        is_path_graph(splice(edges, reg), nodes),
        forall|e: Edge| !is_bridge(edges, reg, e),
{
    lemma_splice_holds(edges, reg);
    let after = splice(edges, reg);
}

/// What one more region in `gone` does to `keep_nodes`.
pub proof fn lemma_keep_one_more(nodes: Seq<Region>, gone: Set<Region>, reg: Region)
    requires
        nodes.no_duplicates(),
    ensures
        keep_nodes(nodes, gone.insert(reg)) == (if keep_nodes(nodes, gone).contains(reg) {
            keep_nodes(nodes, gone).remove(keep_nodes(nodes, gone).index_of(reg))
        } else {
            keep_nodes(nodes, gone)
        }),
    decreases nodes.len(),
{
    if nodes.len() == 0 {
    } else {
        let rest = nodes.drop_last();
        let last = nodes.last();
        let n = nodes.len() as int;
        assert(rest.no_duplicates()) by {
            assert forall|i: int, j: int| 0 <= i < rest.len() && 0 <= j < rest.len() && i
                != j implies rest[i] != rest[j] by {
                assert(rest[i] == nodes[i] && rest[j] == nodes[j]);
            }
        }
        lemma_keep_one_more(rest, gone, reg);
        lemma_keep_nodes(rest, gone);
        lemma_keep_nodes(nodes, gone);
        let k = keep_nodes(rest, gone);
        let more = gone.insert(reg);
        assert(!rest.contains(last)) by {
            if rest.contains(last) {
                let i = choose|i: int| 0 <= i < rest.len() && rest[i] == last;
                assert(nodes[i] == nodes[n - 1]);
            }
        }
        if gone.contains(last) {
        } else if last == reg {
            let all = k.push(reg);
            assert(all[k.len() as int] == reg);
            assert(all.contains(reg));
            let i = all.index_of(reg);
            if i != k.len() {
                assert(all[i] == all[k.len() as int]);
            }
            assert(all.remove(k.len() as int) =~= k);
            assert(!k.contains(reg));
        } else {
            let all = k.push(last);
            if k.contains(reg) {
                let i = k.index_of(reg);
                assert(all[i] == reg);
                assert(all.contains(reg));
                let j = all.index_of(reg);
                if i != j {
                    assert(all[i] == all[j]);
                }
                assert(all.remove(i) =~= k.remove(i).push(last));
            } else {
                assert(!all.contains(reg)) by {
                    vstd::seq_lib::lemma_seq_contains_after_push(k, last, reg);
                }
            }
        }
    }
}

/// Where no region is gone, all stay.
proof fn lemma_keep_all(nodes: Seq<Region>)
    ensures
        keep_nodes(nodes, Set::<Region>::empty()) == nodes,
    decreases nodes.len(),
{
    if nodes.len() > 0 {
        lemma_keep_all(nodes.drop_last());
        assert(nodes.drop_last().push(nodes.last()) =~= nodes);
    }
}

/// What one more entry of `locals` does to the regions that are removed.
proof fn lemma_removed_one_more(
    locals: Seq<(Region, Option<Variable>)>,
    first: Option<Region>,
    last: Option<Region>,
)
    requires
        locals.len() > 0,
    ensures
        removed_regions(locals, first, last) == (if is_removable(
            locals.last().0,
            locals.last().1,
            first,
            last,
        ) {
            removed_regions(locals.drop_last(), first, last).insert(locals.last().0)
        } else {
            removed_regions(locals.drop_last(), first, last)
        }),
{
    let shorter = locals.drop_last();
    let reg = locals.last().0;
    let gone = removed_regions(locals, first, last);
    let gone0 = removed_regions(shorter, first, last);
    let removable = is_removable(reg, locals.last().1, first, last);
    assert forall|r: Region| gone.contains(r) <==> (gone0.contains(r) || (removable && r
        == reg)) by {
        if gone.contains(r) {
            let j = choose|j: int|
                0 <= j < locals.len() && (#[trigger] locals[j]).0 == r && is_removable(
                    r,
                    locals[j].1,
                    first,
                    last,
                );
            if j < shorter.len() {
                assert(shorter[j] == locals[j]);
            }
        }
        if gone0.contains(r) {
            let j = choose|j: int|
                0 <= j < shorter.len() && (#[trigger] shorter[j]).0 == r && is_removable(
                    r,
                    shorter[j].1,
                    first,
                    last,
                );
            assert(locals[j] == shorter[j]);
        }
        if removable && r == reg {
            assert(locals[locals.len() - 1].0 == reg);
        }
    }
}

/// Whether the edge that leaves the region at place `i` of `stay` has the
/// line of the edge that left this region on `nodes`.
pub open spec fn keeps_line(
    current: Map<Edge, SourceLine>,
    lines: Map<Edge, SourceLine>,
    nodes: Seq<Region>,
    stay: Seq<Region>,
    i: int,
) -> bool {
    &&& current.contains_key((stay[i], stay[i + 1]))
    &&& current[(stay[i], stay[i + 1])] == lines[(stay[i], next_of(nodes, stay[i]))]
}

/// Whether `edges` with the lines `current` is a path through `stay` that
/// came from the path `nodes` with the lines `lines`: it begins and ends
/// where `nodes` does, and each of its edges has the line of the edge that
/// left its start on `nodes`.
pub open spec fn is_thinned_path(
    edges: Seq<Edge>,
    current: Map<Edge, SourceLine>,
    lines: Map<Edge, SourceLine>,
    nodes: Seq<Region>,
    stay: Seq<Region>,
) -> bool {
    &&& is_path_graph(edges, stay)
    &&& stay[0] == nodes[0]
    &&& stay.last() == nodes.last()
    &&& forall|i: int|
        0 <= i < stay.len() - 1 ==> #[trigger] keeps_line(current, lines, nodes, stay, i)
}

/// Splicing an inner region out of a thinned path gives a thinned path.
proof fn lemma_thinned_on(
    edges: Seq<Edge>,
    current: Map<Edge, SourceLine>,
    lines: Map<Edge, SourceLine>,
    nodes: Seq<Region>,
    stay: Seq<Region>,
    k: int,
)
    requires
        is_thinned_path(edges, current, lines, nodes, stay),
        0 < k < stay.len() - 1,
    ensures
        is_thinned_path(
            splice(edges, stay[k]),
            spliced_lines(current, edges, stay[k]),
            lines,
            nodes,
            stay.remove(k),
        ),
{
    let reg = stay[k];
    let rest = stay.remove(k);
    let after = spliced_lines(current, edges, reg);
    lemma_splice_on_path(edges, stay, k);
    assert forall|i: int| 0 <= i < rest.len() - 1 implies #[trigger] keeps_line(
        after,
        lines,
        nodes,
        rest,
        i,
    ) by {
        let e = (rest[i], rest[i + 1]);
        if i < k - 1 {
            assert(rest[i] == stay[i] && rest[i + 1] == stay[i + 1]);
            assert(stay[i] != stay[k - 1]);
            assert(!is_bridge(edges, reg, e));
            assert(keeps_line(current, lines, nodes, stay, i));
        } else if i == k - 1 {
            assert(rest[i] == stay[k - 1] && rest[i + 1] == stay[k + 1]);
            assert(is_bridge(edges, reg, e));
            assert(keeps_line(current, lines, nodes, stay, k - 1));
            assert(after[e] == current[(stay[k - 1], reg)]);
        } else {
            assert(rest[i] == stay[i + 1] && rest[i + 1] == stay[i + 2]);
            assert(stay[i + 1] != stay[k - 1]);
            assert(!is_bridge(edges, reg, e));
            assert(keeps_line(current, lines, nodes, stay, i + 1));
        }
    }
}

/// Splicing a region that is not on a thinned path leaves it a thinned
/// path.
proof fn lemma_thinned_off(
    edges: Seq<Edge>,
    current: Map<Edge, SourceLine>,
    lines: Map<Edge, SourceLine>,
    nodes: Seq<Region>,
    stay: Seq<Region>,
    reg: Region,
)
    requires
        is_thinned_path(edges, current, lines, nodes, stay),
        !stay.contains(reg),
    ensures
        is_thinned_path(
            splice(edges, reg),
            spliced_lines(current, edges, reg),
            lines,
            nodes,
            stay,
        ),
{
    let after = spliced_lines(current, edges, reg);
    lemma_splice_off_path(edges, stay, reg);
    assert forall|i: int| 0 <= i < stay.len() - 1 implies #[trigger] keeps_line(
        after,
        lines,
        nodes,
        stay,
        i,
    ) by {
        assert(!is_bridge(edges, reg, (stay[i], stay[i + 1])));
        assert(keeps_line(current, lines, nodes, stay, i));
    }
}

/// A path is a thinned path of itself.
proof fn lemma_thinned_start(edges: Seq<Edge>, lines: Map<Edge, SourceLine>, nodes: Seq<Region>)
    requires
        is_path_graph(edges, nodes),
        forall|e: Edge| #[trigger] edges.contains(e) ==> lines.contains_key(e),
    ensures
        is_thinned_path(edges, lines, lines, nodes, nodes),
{
    assert forall|i: int| 0 <= i < nodes.len() - 1 implies #[trigger] keeps_line(
        lines,
        lines,
        nodes,
        nodes,
        i,
    ) by {
        let e = (nodes[i], nodes[i + 1]);
        assert(is_step(nodes, i, e));
        assert(edges.contains(e));
        assert(nodes.contains(nodes[i]));
        let j = nodes.index_of(nodes[i]);
        if j != i {
            assert(nodes[j] == nodes[i]);
        }
    }
}

/// The simplification of a path is a thinned path through the regions that
/// stay.
proof fn lemma_simplified_thinned(
    edges: Seq<Edge>,
    lines: Map<Edge, SourceLine>,
    locals: Seq<(Region, Option<Variable>)>,
    nodes: Seq<Region>,
)
    requires
        is_path_graph(edges, nodes),
        forall|e: Edge| #[trigger] edges.contains(e) ==> lines.contains_key(e),
    ensures
        is_thinned_path(
            simplified(edges, lines, locals, Some(nodes[0]), Some(nodes.last())).0,
            simplified(edges, lines, locals, Some(nodes[0]), Some(nodes.last())).1,
            lines,
            nodes,
            keep_nodes(nodes, removed_regions(locals, Some(nodes[0]), Some(nodes.last()))),
        ),
    decreases locals.len(),
{
    let first = Some(nodes[0]);
    let last = Some(nodes.last());
    if locals.len() == 0 {
        assert(removed_regions(locals, first, last) =~= Set::<Region>::empty());
        lemma_keep_all(nodes);
        lemma_thinned_start(edges, lines, nodes);
    } else {
        let shorter = locals.drop_last();
        let reg = locals.last().0;
        let gone0 = removed_regions(shorter, first, last);
        let stay0 = keep_nodes(nodes, gone0);
        let before = simplified(edges, lines, shorter, first, last);
        lemma_simplified_thinned(edges, lines, shorter, nodes);
        lemma_removed_one_more(locals, first, last);
        if is_removable(reg, locals.last().1, first, last) {
            lemma_keep_one_more(nodes, gone0, reg);
            if stay0.contains(reg) {
                let k = stay0.index_of(reg);
                assert(0 < k < stay0.len() - 1) by {
                    if k == 0 {
                        assert(stay0[0] == reg);
                    }
                    if k == stay0.len() - 1 {
                        assert(stay0.last() == reg);
                    }
                }
                lemma_thinned_on(before.0, before.1, lines, nodes, stay0, k);
            } else {
                lemma_thinned_off(before.0, before.1, lines, nodes, stay0, reg);
            }
        }
    }
}

/// The simplification of a genuine path.
///
/// Let `edges` be a path through `nodes`, each edge with a line. Then the
/// simplified edges are the path through the regions that stay, which
/// begins and ends where the path did: the entry region and the exit region
/// are never removed, and the simplified edges still lead from the one to
/// the other. The line of each simplified edge is the line of the edge that
/// left its start on the path.
pub proof fn lemma_simplified_path(
    edges: Seq<Edge>,
    lines: Map<Edge, SourceLine>,
    locals: Seq<(Region, Option<Variable>)>,
    nodes: Seq<Region>,
)
    requires
        is_path_graph(edges, nodes),
        forall|e: Edge| #[trigger] edges.contains(e) ==> lines.contains_key(e),
    ensures
        entry_of(edges) == Some(nodes[0]),
        exit_of(edges) == Some(nodes.last()),
        ({
            let result = simplified(edges, lines, locals, entry_of(edges), exit_of(edges));
            let stay = keep_nodes(
                nodes,
                removed_regions(locals, entry_of(edges), exit_of(edges)),
            );
            &&& is_thinned_path(result.0, result.1, lines, nodes, stay)
            &&& entry_of(result.0) == entry_of(edges)
            &&& exit_of(result.0) == exit_of(edges)
        }),
{
    lemma_path_has_entry_and_exit(edges, nodes);
    lemma_simplified_thinned(edges, lines, locals, nodes);
    let result = simplified(edges, lines, locals, entry_of(edges), exit_of(edges));
    let stay = keep_nodes(nodes, removed_regions(locals, entry_of(edges), exit_of(edges)));
    lemma_path_has_entry_and_exit(result.0, stay);
}

} // verus!

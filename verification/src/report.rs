//! From the facts of a function to the graphs that explain its errors.

use vstd::prelude::*;
use crate::assoc::{distinct, lemma_distinct_holds};
use crate::atoms::{same, Loan, PointIndex, Region};
use crate::explain::{explain, Explanation};
use crate::facts::{AllInputFacts, AllOutputFacts};
use crate::graph::{edge_keys, EdgeInfo, EnrichedErrorGraph, GraphBuilder};
use crate::path::{is_error_path, ErrorPathFinder};
use crate::rules::{is_explanation, problem_of};
use crate::simplify::{
    entry_of,
    exit_of,
    is_path_graph,
    is_step,
    keep_nodes,
    lemma_simplified_path,
    removed_regions,
    simplified,
};

verus! {

/// The points at which `outlives` holds the edge from `from` to `to`, in the
/// order of the facts; a point that would follow itself is left out.
pub open spec fn points_of(
    outlives: Seq<(Region, Region, PointIndex)>,
    from: Region,
    to: Region,
) -> Seq<PointIndex>
    decreases outlives.len(),
{
    if outlives.len() == 0 {
        Seq::empty()
    } else {
        let before = points_of(outlives.drop_last(), from, to);
        let t = outlives.last();
        if t.0 == from && t.1 == to && (before.len() == 0 || before.last() != t.2) {
            before.push(t.2)
        } else {
            before
        }
    }
}

/// The points at which `outlives` holds the edge from `from` to `to`.
pub fn points_of_edge(outlives: &Vec<(Region, Region, PointIndex)>, from: Region, to: Region) -> (points:
    Vec<PointIndex>)
    ensures
        points@ == points_of(outlives@, from, to),
{
    let mut points: Vec<PointIndex> = Vec::new();
    let mut i: usize = 0;
    while i < outlives.len()
        invariant
            i <= outlives.len(),
            points@ == points_of(outlives@.take(i as int), from, to),
        decreases outlives.len() - i,
    {
        let (r1, r2, p) = outlives[i];
        proof {
            let longer = outlives@.take(i + 1);
            assert(longer.drop_last() =~= outlives@.take(i as int));
        }
        if same(r1, from) && same(r2, to) {
            let repeated = points.len() > 0 && same(points[points.len() - 1], p);
            if !repeated {
                points.push(p);
            }
        }
        i += 1;
    }
    assert(outlives@.take(i as int) =~= outlives@);
    points
}

/// The edge at place `i` of the path that `path` holds in backward
/// direction: the path is read from its end.
pub open spec fn forward_edge(path: Seq<Region>, i: int) -> (Region, Region) {
    (path[path.len() - 1 - i], path[path.len() - 2 - i])
}

/// Turns a path that is given in backward direction into its edges in
/// forward direction, each with the points at which `outlives` holds it.
pub fn path_edges(path: &Vec<Region>, outlives: &Vec<(Region, Region, PointIndex)>) -> (info: Vec<
    EdgeInfo,
>)
    ensures
        path@.len() == 0 ==> info@.len() == 0,
        path@.len() > 0 ==> info@.len() == path@.len() - 1,
        forall|i: int|
            0 <= i < info@.len() ==> (#[trigger] info@[i]).0 == forward_edge(path@, i)
                && info@[i].1@ == points_of(
                outlives@,
                forward_edge(path@, i).0,
                forward_edge(path@, i).1,
            ),
{
    let mut info: Vec<EdgeInfo> = Vec::new();
    if path.len() == 0 {
        return info;
    }
    let mut i: usize = 0;
    while i < path.len() - 1
        invariant
            path.len() > 0,
            i <= path.len() - 1,
            info@.len() == i,
            forall|k: int|
                0 <= k < info@.len() ==> (#[trigger] info@[k]).0 == forward_edge(path@, k)
                    && info@[k].1@ == points_of(
                    outlives@,
                    forward_edge(path@, k).0,
                    forward_edge(path@, k).1,
                ),
        decreases path.len() - 1 - i,
    {
        let from = path[path.len() - 1 - i];
        let to = path[path.len() - 2 - i];
        let points = points_of_edge(outlives, from, to);
        info.push(((from, to), points));
        i += 1;
    }
    info
}

/// Whether `path` is the path that is kept for all errors of `output`: the
/// path of the last error that has one, or nothing where no error has one.
pub open spec fn is_last_error_path(
    all_facts: &AllInputFacts,
    output: &AllOutputFacts,
    path: Seq<Region>,
) -> bool {
    let errors = output.errors@;
    let edges = all_facts.outlives@;
    if path.len() == 0 {
        forall|k: int|
            0 <= k < errors.len() ==> is_error_path(
                all_facts,
                output,
                edges,
                (#[trigger] errors[k]).0,
                Seq::<Region>::empty(),
            )
    } else {
        exists|k: int|
            {
                &&& 0 <= k < errors.len()
                &&& is_error_path(all_facts, output, edges, (#[trigger] errors[k]).0, path)
                &&& forall|j: int|
                    k < j < errors.len() ==> is_error_path(
                        all_facts,
                        output,
                        edges,
                        (#[trigger] errors[j]).0,
                        Seq::<Region>::empty(),
                    )
            }
    }
}

/// Searches a path for each error of `output` over the outlives facts, and
/// keeps the one that was found last.
pub fn path_to_explain_last_error(all_facts: &AllInputFacts, output: &AllOutputFacts) -> (path:
    Vec<Region>)
    ensures
        is_last_error_path(all_facts, output, path@),
{
    let ghost errors = output.errors@;
    let ghost edges = all_facts.outlives@;
    let mut path: Vec<Region> = Vec::new();
    let ghost mut found: int = -1;
    let mut i: usize = 0;
    while i < output.errors.len()
        invariant
            i <= output.errors.len(),
            errors == output.errors@,
            edges == all_facts.outlives@,
            found < i,
            found < 0 ==> path@.len() == 0,
            found >= 0 ==> path@.len() > 0 && is_error_path(
                all_facts,
                output,
                edges,
                errors[found].0,
                path@,
            ),
            forall|j: int|
                found < j < i ==> is_error_path(
                    all_facts,
                    output,
                    edges,
                    (#[trigger] errors[j]).0,
                    Seq::<Region>::empty(),
                ),
        decreases output.errors.len() - i,
    {
        let point = output.errors[i].0;
        let loans = copy_loans(&output.errors[i].1);
        let mut finder = ErrorPathFinder::new(all_facts, output, (point, loans), &all_facts.outlives);
        let new_path = finder.compute_error_path();
        if new_path.len() > 0 {
            path = new_path;
            proof {
                found = i as int;
            }
        }
        i += 1;
    }
    path
}

/// A copy of `loans`.
pub fn copy_loans(loans: &Vec<Loan>) -> (copy: Vec<Loan>)
    ensures
        copy@ == loans@,
{
    let mut copy: Vec<Loan> = Vec::new();
    let mut i: usize = 0;
    while i < loans.len()
        invariant
            i <= loans.len(),
            copy@ == loans@.take(i as int),
        decreases loans.len() - i,
    {
        copy.push(loans[i]);
        i += 1;
    }
    copy
}

/// What is found for one error: the relations that explain it, and a causal
/// path in backward direction.
pub struct ErrorExplanation {
    /// The explanation relations of the error.
    pub explanation: Explanation,
    /// The causal path, the anchor region first; empty where none is found.
    pub path: Vec<Region>,
}

/// Whether `path` is the path that is chosen for the error at `point`: the
/// path over the outlives facts where there is one, else the path over the
/// explaining edges `expl_edges`.
pub open spec fn is_chosen_path(
    all_facts: &AllInputFacts,
    output: &AllOutputFacts,
    expl_edges: Seq<(Region, Region, PointIndex)>,
    point: PointIndex,
    path: Seq<Region>,
) -> bool {
    exists|narrow: Seq<Region>, wide: Seq<Region>|
        {
            &&& #[trigger] is_error_path(all_facts, output, expl_edges, point, narrow)
            &&& #[trigger] is_error_path(all_facts, output, all_facts.outlives@, point, wide)
            &&& path == (if wide.len() > 0 {
                wide
            } else {
                narrow
            })
        }
}

/// Explains one error: derives its explanation relations, and searches a
/// causal path, first over the explaining outlives edges and then over all
/// outlives facts. The path of the second search is taken where it is not
/// empty, else that of the first.
pub fn explain_error(
    all_facts: &AllInputFacts,
    output: &AllOutputFacts,
    error_fact: (PointIndex, Vec<Loan>),
) -> (found: ErrorExplanation)
    ensures
        is_explanation(problem_of(all_facts, output, error_fact), found.explanation@),
        found.explanation.is_canonical(),
        is_chosen_path(
            all_facts,
            output,
            found.explanation.expl_outlives@,
            error_fact.0,
            found.path@,
        ),
        is_error_path(all_facts, output, all_facts.outlives@, error_fact.0, found.path@),
{
    let point = error_fact.0;
    let loans = copy_loans(&error_fact.1);
    let again = copy_loans(&error_fact.1);
    let explanation = explain(all_facts, output, error_fact);
    let narrow = {
        let mut finder = ErrorPathFinder::new(
            all_facts,
            output,
            (point, loans),
            &explanation.expl_outlives,
        );
        finder.compute_error_path()
    };
    let wide = {
        let mut finder = ErrorPathFinder::new(
            all_facts,
            output,
            (point, again),
            &all_facts.outlives,
        );
        finder.compute_error_path()
    };
    let ghost narrow_path = narrow@;
    let ghost wide_path = wide@;
    let path = if wide.len() > 0 {
        wide
    } else {
        narrow
    };
    proof {
        crate::rules::lemma_explanation_lies_within_facts(
            problem_of(all_facts, output, error_fact),
            explanation@,
        );
        assert forall|t: (Region, Region, PointIndex)|
            explanation.expl_outlives@.contains(t) implies all_facts.outlives@.contains(t) by {
            assert(explanation@.outlives.contains(t));
        }
    }
    ErrorExplanation { explanation, path }
}

/// Whether `graph` is the improved graph of the backward path `path`.
pub open spec fn is_graph_of_path(
    builder: &GraphBuilder,
    all_facts: &AllInputFacts,
    path: Seq<Region>,
    graph: EnrichedErrorGraph,
) -> bool {
    exists|info: Seq<EdgeInfo>, raw: EnrichedErrorGraph|
        {
            &&& info.len() == path.len() - 1
            &&& forall|i: int|
                0 <= i < info.len() ==> (#[trigger] info[i]).0 == forward_edge(path, i)
                    && info[i].1@ == points_of(
                    all_facts.outlives@,
                    forward_edge(path, i).0,
                    forward_edge(path, i).1,
                )
            &&& #[trigger] raw.built_from(
                builder.declarations@,
                builder.point_lines@,
                all_facts.borrow_region@,
                info,
            )
            &&& raw.function_name == builder.function_name
            &&& graph.wf()
            &&& graph.function_name == raw.function_name
            &&& graph.locals_for_regions == raw.locals_for_regions
            &&& graph.locals_info_for_regions == raw.locals_info_for_regions
            &&& graph.lines_for_regions == raw.lines_for_regions
            &&& graph.lines_for_edges_start == raw.lines_for_edges_start
            &&& (graph.edges@, graph.lines_for_edges@) == simplified(
                raw.edges@,
                raw.lines_for_edges@,
                raw.locals_for_regions.entries@,
                entry_of(raw.edges@),
                exit_of(raw.edges@),
            )
        }
}

/// Builds the graph of the path `path`, which is given in backward
/// direction, and improves it. There is no graph for an empty path.
pub fn graph_of_path(
    builder: &GraphBuilder,
    all_facts: &AllInputFacts,
    path: &Vec<Region>,
) -> (graph: Option<EnrichedErrorGraph>)
    requires
        builder.wf(),
    ensures
        graph is Some <==> path@.len() > 0,
        graph matches Some(g) ==> is_graph_of_path(builder, all_facts, path@, g),
{
    if path.len() == 0 {
        return None;
    }
    let info = path_edges(path, &all_facts.outlives);
    let mut graph = builder.create_enriched_graph(&info, &all_facts.borrow_region);
    let ghost raw = graph;
    graph.improve_graph();
    Some(graph)
}

/// The graph that explains the error `error_fact`: the improved graph of
/// the path that `explain_error` chooses. There is none where no path is
/// found.
pub fn error_graph(
    builder: &GraphBuilder,
    all_facts: &AllInputFacts,
    output: &AllOutputFacts,
    error_fact: (PointIndex, Vec<Loan>),
) -> (graph: Option<EnrichedErrorGraph>)
    requires
        builder.wf(),
    ensures
        exists|expl: Explanation, path: Seq<Region>|
            {
                &&& #[trigger] is_explanation(problem_of(all_facts, output, error_fact), expl@)
                &&& #[trigger] is_chosen_path(
                    all_facts,
                    output,
                    expl.expl_outlives@,
                    error_fact.0,
                    path,
                )
                &&& graph is Some <==> path.len() > 0
                &&& graph matches Some(g) ==> is_graph_of_path(builder, all_facts, path, g)
            },
{
    let found = explain_error(all_facts, output, error_fact);
    let graph = graph_of_path(builder, all_facts, &found.path);
    graph
}

/// The graph that explains the last error of `output` for which a path is
/// found over the outlives facts. There is none where no error has a path.
pub fn last_error_graph(
    builder: &GraphBuilder,
    all_facts: &AllInputFacts,
    output: &AllOutputFacts,
) -> (graph: Option<EnrichedErrorGraph>)
    requires
        builder.wf(),
    ensures
        exists|path: Seq<Region>|
            {
                &&& #[trigger] is_last_error_path(all_facts, output, path)
                &&& graph is Some <==> path.len() > 0
                &&& graph matches Some(g) ==> is_graph_of_path(builder, all_facts, path, g)
            },
{
    let path = path_to_explain_last_error(all_facts, output);
    let graph = graph_of_path(builder, all_facts, &path);
    graph
}

/// The edges of the path that `path` holds in backward direction are a
/// genuine path through its regions, read from the end of `path`.
pub proof fn lemma_path_edges_are_path(path: Seq<Region>, info: Seq<EdgeInfo>)
    requires
        path.no_duplicates(),
        path.len() >= 2,
        info.len() == path.len() - 1,
        forall|i: int| 0 <= i < info.len() ==> (#[trigger] info[i]).0 == forward_edge(path, i),
    ensures
        is_path_graph(distinct(edge_keys(info)), path.reverse()),
{
    let nodes = path.reverse();
    let keys = edge_keys(info);
    let edges = distinct(keys);
    let n = path.len() as int;
    lemma_distinct_holds(keys);
    assert forall|e: (Region, Region)| #[trigger] edges.contains(e) <==> exists|i: int| #[trigger]
        is_step(nodes, i, e) by {
        if edges.contains(e) {
            assert(keys.contains(e));
            let i = choose|i: int| 0 <= i < keys.len() && keys[i] == e;
            assert(is_step(nodes, i, e));
        }
        if exists|i: int| #[trigger] is_step(nodes, i, e) {
            let i = choose|i: int| #[trigger] is_step(nodes, i, e);
            assert(nodes[i] == path[n - 1 - i] && nodes[i + 1] == path[n - 2 - i]);
            assert(info[i].0 == forward_edge(path, i));
            assert(keys[i] == e);
            assert(keys.contains(e));
        }
    }
}

/// The improved graph of a path keeps the ends of the path.
///
/// Let `path` be a path of two regions at least, in backward direction and
/// without a region twice, as the search yields it, and `graph` its
/// improved graph. Then the edges of `graph` are a genuine path from the
/// last region of `path` to its first: the graph is entered and left where
/// the path is, and its edges lead from the one end to the other.
pub proof fn lemma_graph_keeps_ends(
    builder: &GraphBuilder,
    all_facts: &AllInputFacts,
    path: Seq<Region>,
    graph: EnrichedErrorGraph,
)
    requires
        path.no_duplicates(),
        path.len() >= 2,
        is_graph_of_path(builder, all_facts, path, graph),
    ensures
        entry_of(graph.edges@) == Some(path.last()),
        exit_of(graph.edges@) == Some(path[0]),
        exists|stay: Seq<Region>|
            #![trigger is_path_graph(graph.edges@, stay)]
            is_path_graph(graph.edges@, stay) && stay[0] == path.last() && stay.last() == path[0],
{
    let (info, raw) = choose|info: Seq<EdgeInfo>, raw: EnrichedErrorGraph|
        {
            &&& info.len() == path.len() - 1
            &&& forall|i: int|
                0 <= i < info.len() ==> (#[trigger] info[i]).0 == forward_edge(path, i)
                    && info[i].1@ == points_of(
                    all_facts.outlives@,
                    forward_edge(path, i).0,
                    forward_edge(path, i).1,
                )
            &&& #[trigger] raw.built_from(
                builder.declarations@,
                builder.point_lines@,
                all_facts.borrow_region@,
                info,
            )
            &&& raw.function_name == builder.function_name
            &&& graph.wf()
            &&& graph.function_name == raw.function_name
            &&& graph.locals_for_regions == raw.locals_for_regions
            &&& graph.locals_info_for_regions == raw.locals_info_for_regions
            &&& graph.lines_for_regions == raw.lines_for_regions
            &&& graph.lines_for_edges_start == raw.lines_for_edges_start
            &&& (graph.edges@, graph.lines_for_edges@) == simplified(
                raw.edges@,
                raw.lines_for_edges@,
                raw.locals_for_regions.entries@,
                entry_of(raw.edges@),
                exit_of(raw.edges@),
            )
        };
    let nodes = path.reverse();
    lemma_path_edges_are_path(path, info);
    lemma_simplified_path(
        raw.edges@,
        raw.lines_for_edges@,
        raw.locals_for_regions.entries@,
        nodes,
    );
    let stay = keep_nodes(
        nodes,
        removed_regions(
            raw.locals_for_regions.entries@,
            entry_of(raw.edges@),
            exit_of(raw.edges@),
        ),
    );
}

/// The edges of `outlives`, one for each fact, in the order of the facts.
pub open spec fn edges_of(outlives: Seq<(Region, Region, PointIndex)>) -> Seq<(Region, Region)> {
    Seq::new(outlives.len(), |i: int| (outlives[i].0, outlives[i].1))
}

/// Whether `info` holds an edge with the ends `from` and `to`.
fn holds_edge(info: &Vec<EdgeInfo>, from: Region, to: Region) -> (found: bool)
    ensures
        found == edge_keys(info@).contains((from, to)),
{
    let mut i: usize = 0;
    while i < info.len()
        invariant
            i <= info.len(),
            forall|k: int| 0 <= k < i ==> edge_keys(info@)[k] != (from, to),
        decreases info.len() - i,
    {
        if same(info[i].0.0, from) && same(info[i].0.1, to) {
            assert(edge_keys(info@)[i as int] == (from, to));
            return true;
        }
        i += 1;
    }
    false
}

/// All edges of the outlives facts, each once, in the order in which they
/// are met, and each with the points at which the facts hold it.
pub fn all_edges(outlives: &Vec<(Region, Region, PointIndex)>) -> (info: Vec<EdgeInfo>)
    ensures
        edge_keys(info@) == distinct(edges_of(outlives@)),
        forall|i: int|
            0 <= i < info@.len() ==> (#[trigger] info@[i]).1@ == points_of(
                outlives@,
                info@[i].0.0,
                info@[i].0.1,
            ),
{
    let mut info: Vec<EdgeInfo> = Vec::new();
    let mut i: usize = 0;
    while i < outlives.len()
        invariant
            i <= outlives.len(),
            edge_keys(info@) == distinct(edges_of(outlives@.take(i as int))),
            forall|k: int|
                0 <= k < info@.len() ==> (#[trigger] info@[k]).1@ == points_of(
                    outlives@,
                    info@[k].0.0,
                    info@[k].0.1,
                ),
        decreases outlives.len() - i,
    {
        let (from, to, _p) = outlives[i];
        let ghost before = info@;
        proof {
            let shorter = edges_of(outlives@.take(i as int));
            let longer = edges_of(outlives@.take(i + 1));
            assert(longer =~= shorter.push((from, to)));
            crate::assoc::lemma_distinct_push(shorter, (from, to));
        }
        if !holds_edge(&info, from, to) {
            let points = points_of_edge(outlives, from, to);
            info.push(((from, to), points));
        }
        i += 1;
    }
    assert(outlives@.take(i as int) =~= outlives@);
    info
}

/// The graph of all outlives facts of a function: every edge of the facts
/// with what the source says of it and of its regions. Nothing is spliced
/// out of this graph.
pub fn outlives_graph(builder: &GraphBuilder, all_facts: &AllInputFacts) -> (graph:
    EnrichedErrorGraph)
    requires
        builder.wf(),
    ensures
        graph.function_name == builder.function_name,
        exists|info: Seq<EdgeInfo>|
            {
                &&& edge_keys(info) == distinct(edges_of(all_facts.outlives@))
                &&& forall|i: int|
                    0 <= i < info.len() ==> (#[trigger] info[i]).1@ == points_of(
                        all_facts.outlives@,
                        info[i].0.0,
                        info[i].0.1,
                    )
                &&& #[trigger] graph.built_from(
                    builder.declarations@,
                    builder.point_lines@,
                    all_facts.borrow_region@,
                    info,
                )
            },
{
    let info = all_edges(&all_facts.outlives);
    let graph = builder.create_enriched_graph(&info, &all_facts.borrow_region);
    graph
}

/// Where the explaining edges are outlives facts, the chosen path is the
/// path over the outlives facts: a chain over the explaining edges is a
/// chain over all edges, so the search over all edges finds a chain
/// wherever the search over the explaining edges finds one.
pub proof fn lemma_chosen_path_is_path_over_facts(
    all_facts: &AllInputFacts,
    output: &AllOutputFacts,
    expl_edges: Seq<(Region, Region, PointIndex)>,
    point: PointIndex,
    path: Seq<Region>,
)
    requires
        forall|t: (Region, Region, PointIndex)|
            expl_edges.contains(t) ==> all_facts.outlives@.contains(t),
        is_chosen_path(all_facts, output, expl_edges, point, path),
    ensures
        is_error_path(all_facts, output, all_facts.outlives@, point, path),
{
    let (narrow, wide) = choose|narrow: Seq<Region>, wide: Seq<Region>|
        {
            &&& #[trigger] is_error_path(all_facts, output, expl_edges, point, narrow)
            &&& #[trigger] is_error_path(all_facts, output, all_facts.outlives@, point, wide)
            &&& path == (if wide.len() > 0 {
                wide
            } else {
                narrow
            })
        };
}

/// The graph of the path of an error keeps the ends of the path: it is
/// entered at the region that was given the loan, it is left at the anchor
/// region, and its edges lead from the one to the other.
pub proof fn lemma_error_graph_keeps_ends(
    builder: &GraphBuilder,
    all_facts: &AllInputFacts,
    output: &AllOutputFacts,
    edges: Seq<(Region, Region, PointIndex)>,
    point: PointIndex,
    path: Seq<Region>,
    graph: EnrichedErrorGraph,
)
    requires
        is_error_path(all_facts, output, edges, point, path),
        path.len() >= 2,
        is_graph_of_path(builder, all_facts, path, graph),
    ensures
        entry_of(graph.edges@) == Some(path.last()),
        exit_of(graph.edges@) == Some(path[0]),
        exists|stay: Seq<Region>|
            #![trigger is_path_graph(graph.edges@, stay)]
            is_path_graph(graph.edges@, stay) && stay[0] == path.last() && stay.last() == path[0],
{
    lemma_graph_keeps_ends(builder, all_facts, path, graph);
}

} // verus!

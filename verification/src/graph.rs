//! The enriched error graph: a causal path with what the source says of its
//! regions and edges, and its simplification.

use vstd::prelude::*;
use crate::assoc::{distinct, lemma_distinct_push, AssocMap};
use crate::atoms::{same, Loan, PointIndex, Region};

verus! {

/// A line of the source: its number, counted from 1, and its text.
pub type SourceLine = (usize, String);

/// What is known of the local variable that introduced a region.
pub struct Variable {
    /// The name of the variable; none for a temporary of the compiler.
    pub name: Option<String>,
    /// The number of the line that stands for the variable: the line of its
    /// declaration where it has a name, else the line of the nearest
    /// statement that assigns to it.
    pub line: usize,
    /// The text of that line.
    pub text: String,
}

impl Variable {
    /// A copy of this variable.
    pub fn duplicate(&self) -> (copy: Variable)
        ensures
            copy == *self,
    {
        let name = match &self.name {
            Some(n) => Some(n.clone()),
            None => None,
        };
        Variable { name, line: self.line, text: self.text.clone() }
    }

    /// Whether the variable has a name.
    pub fn is_named(&self) -> (named: bool)
        ensures
            named == self.name.is_some(),
    {
        self.name.is_some()
    }
}

/// The name under which a variable without a name is shown.
pub open spec fn anonymous_name() -> Seq<char> {
    "anonymous Variable"@
}

/// What is shown of the variable of a region: the number of its line, its
/// name, and the text of the line. All is empty where no variable is known.
pub open spec fn local_info(variable: Option<Variable>) -> (usize, Seq<char>, Seq<char>) {
    match variable {
        None => (0usize, Seq::<char>::empty(), Seq::<char>::empty()),
        Some(v) => match v.name {
            Some(n) => (v.line, n@, v.text@),
            None => (v.line, anonymous_name(), v.text@),
        },
    }
}

/// Whether the point at place `k` of `pts` has a line that counts for the
/// origin of an edge.
pub open spec fn has_line(lines: Map<PointIndex, SourceLine>, pts: Seq<PointIndex>, k: int) -> bool {
    0 <= k < pts.len() && lines.contains_key(pts[k]) && lines[pts[k]].0 < usize::MAX
}

/// Whether `line` is the first line that is related to the points `pts`:
/// the line with the lowest number among the lines of these points, taken
/// from the first point that has it. Where no point has a line, the number
/// is the greatest there is, and the text is empty.
pub open spec fn is_first_line(
    lines: Map<PointIndex, SourceLine>,
    pts: Seq<PointIndex>,
    line: SourceLine,
) -> bool {
    if exists|k: int| has_line(lines, pts, k) {
        exists|k: int|
            {
                &&& #[trigger] has_line(lines, pts, k)
                &&& line == lines[pts[k]]
                &&& forall|j: int| #[trigger] has_line(lines, pts, j) ==> line.0 <= lines[pts[j]].0
                &&& forall|j: int|
                    0 <= j < k && #[trigger] has_line(lines, pts, j) ==> line.0 != lines[pts[j]].0
            }
    } else {
        line.0 == usize::MAX && line.1@ == Seq::<char>::empty()
    }
}

/// Whether the fact at place `k` of `facts` names `reg` at a point whose
/// line is known.
pub open spec fn touches(
    facts: Seq<(Region, Loan, PointIndex)>,
    lines: Map<PointIndex, SourceLine>,
    reg: Region,
    k: int,
) -> bool {
    0 <= k < facts.len() && facts[k].0 == reg && lines.contains_key(facts[k].2)
}

/// Whether the fact at place `k` is the first that brings the line `line`
/// to the region `reg`.
pub open spec fn brings_line(
    facts: Seq<(Region, Loan, PointIndex)>,
    lines: Map<PointIndex, SourceLine>,
    reg: Region,
    k: int,
    line: SourceLine,
) -> bool {
    &&& touches(facts, lines, reg, k)
    &&& lines[facts[k].2] == line
    &&& forall|j: int|
        0 <= j < k && #[trigger] touches(facts, lines, reg, j) ==> lines[facts[j].2].0 != line.0
}

/// Whether `result` holds a line with the number `number`.
pub open spec fn has_number(result: Seq<SourceLine>, number: usize) -> bool {
    exists|a: int| 0 <= a < result.len() && (#[trigger] result[a]).0 == number
}

/// Whether the lines of `result` stand in ascending order of their numbers,
/// each number once.
pub open spec fn ascending_lines(result: Seq<SourceLine>) -> bool {
    forall|a: int, b: int| 0 <= a < b < result.len() ==> result[a].0 < result[b].0
}

/// Whether `result` holds the lines that contribute to `reg`: the lines of
/// the points at which a fact of `facts` names the region, each line number
/// once, in ascending order.
pub open spec fn is_lines_for_region(
    facts: Seq<(Region, Loan, PointIndex)>,
    lines: Map<PointIndex, SourceLine>,
    reg: Region,
    result: Seq<SourceLine>,
) -> bool {
    &&& ascending_lines(result)
    &&& forall|x: SourceLine| #[trigger]
        result.contains(x) ==> exists|k: int| #[trigger] brings_line(facts, lines, reg, k, x)
    &&& forall|k: int| #[trigger]
        touches(facts, lines, reg, k) ==> has_number(result, lines[facts[k].2].0)
}

/// Puts `line` at its place in the ascending `result`, unless `result` holds
/// a line with its number.
fn insert_line(result: &mut Vec<SourceLine>, line: &SourceLine) -> (added: bool)
    requires
        ascending_lines(old(result)@),
    ensures
        ascending_lines(final(result)@),
        added == !has_number(old(result)@, line.0),
        !added ==> final(result)@ == old(result)@,
        forall|x: SourceLine|
            final(result)@.contains(x) <==> (old(result)@.contains(x) || (added && x == *line)),
        forall|n: usize|
            has_number(final(result)@, n) <==> (has_number(old(result)@, n) || n == line.0),
{
    let ghost before = result@;
    let mut pos: usize = 0;
    while pos < result.len() && result[pos].0 < line.0
        invariant
            pos <= result.len(),
            result@ == before,
            forall|a: int| 0 <= a < pos ==> (#[trigger] result@[a]).0 < line.0,
        decreases result.len() - pos,
    {
        pos += 1;
    }
    if pos < result.len() && result[pos].0 == line.0 {
        false
    } else {
        let copy: SourceLine = (line.0, line.1.clone());
        result.insert(pos, copy);
        proof {
            let after = result@;
            assert forall|x: SourceLine| after.contains(x) <==> (before.contains(x) || x
                == *line) by {
                if after.contains(x) {
                    let a = choose|a: int| 0 <= a < after.len() && after[a] == x;
                    if a < pos {
                    } else if a > pos {
                    }
                }
                if before.contains(x) {
                    let a = choose|a: int| 0 <= a < before.len() && before[a] == x;
                    if a < pos {
                        assert(after[a] == x);
                    } else {
                        assert(after[a + 1] == x);
                    }
                }
                if x == *line {
                    assert(after[pos as int] == x);
                }
            }
            assert forall|n: usize| has_number(after, n) <==> (has_number(before, n) || n
                == line.0) by {
                if has_number(after, n) {
                    let a = choose|a: int| 0 <= a < after.len() && (#[trigger] after[a]).0 == n;
                    if a < pos {
                    } else if a > pos {
                    }
                }
                if has_number(before, n) {
                    let a = choose|a: int| 0 <= a < before.len() && (#[trigger] before[a]).0 == n;
                    if a < pos {
                        assert(after[a].0 == n);
                    } else {
                        assert(after[a + 1].0 == n);
                    }
                }
                if n == line.0 {
                    assert(after[pos as int].0 == n);
                }
            }
        }
        true
    }
}

/// An edge of a path with the points at which the outlives relation holds it.
pub type EdgeInfo = ((Region, Region), Vec<PointIndex>);

/// The edges of `info`, in their order.
pub open spec fn edge_keys(info: Seq<EdgeInfo>) -> Seq<(Region, Region)> {
    Seq::new(info.len(), |i: int| info[i].0)
}

/// The regions at which the edges of `info` start, in their order.
pub open spec fn edge_starts(info: Seq<EdgeInfo>) -> Seq<Region> {
    Seq::new(info.len(), |i: int| info[i].0.0)
}

/// The regions that the edges of `info` join: of each edge its start, then
/// its end.
pub open spec fn endpoints(info: Seq<EdgeInfo>) -> Seq<Region>
    decreases info.len(),
{
    if info.len() == 0 {
        Seq::empty()
    } else {
        endpoints(info.drop_last()).push(info.last().0.0).push(info.last().0.1)
    }
}

/// The variable that `declarations` knows for `r`.
pub open spec fn declared(declarations: Map<Region, Variable>, r: Region) -> Option<Variable> {
    if declarations.contains_key(r) {
        Some(declarations[r])
    } else {
        None
    }
}

/// A graph that explains a lifetime error of one function: the edges of a
/// causal path, and what the source says of its regions and edges.
pub struct EnrichedErrorGraph {
    /// The name of the function in which the error was found.
    pub function_name: String,
    /// The edges of the graph.
    pub edges: Vec<(Region, Region)>,
    /// For each region of the graph the variable that introduced it, if one
    /// is known.
    pub locals_for_regions: AssocMap<Region, Option<Variable>>,
    /// For each region of the graph the number of the line of its variable,
    /// the name of the variable, and the text of the line. The number is 0
    /// and the texts are empty where no variable is known.
    pub locals_info_for_regions: AssocMap<Region, (usize, String, String)>,
    /// For each region of the graph the lines that contribute to it.
    pub lines_for_regions: AssocMap<Region, Vec<SourceLine>>,
    /// For each edge the line that is taken to have created it.
    pub lines_for_edges: AssocMap<(Region, Region), SourceLine>,
    /// The same as `lines_for_edges`, by the region at which the edge starts.
    pub lines_for_edges_start: AssocMap<Region, SourceLine>,
}

impl EnrichedErrorGraph {
    /// The invariant of the graph: that of its maps, and each edge has a
    /// line in `lines_for_edges`.
    pub open spec fn wf(&self) -> bool {
        &&& self.locals_for_regions.wf()
        &&& self.locals_info_for_regions.wf()
        &&& self.lines_for_regions.wf()
        &&& self.lines_for_edges.wf()
        &&& self.lines_for_edges_start.wf()
        &&& forall|e: (Region, Region)| #[trigger]
            self.edges@.contains(e) ==> self.lines_for_edges@.contains_key(e)
    }

    /// Whether the graph says of each of its regions what `declarations`,
    /// `lines` and `facts` give.
    pub open spec fn regions_described(
        &self,
        declarations: Map<Region, Variable>,
        lines: Map<PointIndex, SourceLine>,
        facts: Seq<(Region, Loan, PointIndex)>,
    ) -> bool {
        &&& self.locals_info_for_regions.keys() == self.locals_for_regions.keys()
        &&& self.lines_for_regions.keys() == self.locals_for_regions.keys()
        &&& forall|r: Region| #[trigger]
            self.locals_for_regions@.contains_key(r) ==> {
                &&& self.locals_for_regions@[r] == declared(declarations, r)
                &&& (
                    self.locals_info_for_regions@[r].0,
                    self.locals_info_for_regions@[r].1@,
                    self.locals_info_for_regions@[r].2@,
                ) == local_info(declared(declarations, r))
                &&& is_lines_for_region(facts, lines, r, self.lines_for_regions@[r]@)
            }
    }

    /// Whether the graph gives each edge of `info` the first line of its
    /// points; where an edge occurs more than once, of the points that come
    /// last.
    pub open spec fn edges_described(
        &self,
        lines: Map<PointIndex, SourceLine>,
        info: Seq<EdgeInfo>,
    ) -> bool {
        &&& forall|k: int|
            #![trigger info[k]]
            0 <= k < info.len() && (forall|j: int| k < j < info.len() ==> info[j].0 != info[k].0)
                ==> is_first_line(lines, info[k].1@, self.lines_for_edges@[info[k].0])
        &&& forall|k: int|
            #![trigger info[k]]
            0 <= k < info.len() && (forall|j: int| k < j < info.len() ==> info[j].0.0 != info[k].0.0)
                ==> is_first_line(lines, info[k].1@, self.lines_for_edges_start@[info[k].0.0])
    }

    /// Whether the graph is what is built from the edges `info`.
    pub open spec fn built_from(
        &self,
        declarations: Map<Region, Variable>,
        lines: Map<PointIndex, SourceLine>,
        facts: Seq<(Region, Loan, PointIndex)>,
        info: Seq<EdgeInfo>,
    ) -> bool {
        &&& self.wf()
        &&& self.edges@ == distinct(edge_keys(info))
        &&& self.lines_for_edges.keys() == distinct(edge_keys(info))
        &&& self.lines_for_edges_start.keys() == distinct(edge_starts(info))
        &&& self.locals_for_regions.keys() == distinct(endpoints(info))
        &&& self.regions_described(declarations, lines, facts)
        &&& self.edges_described(lines, info)
    }
}

/// The tables that tie regions and points to the source.
pub struct GraphBuilder {
    /// The name of the analysed function.
    pub function_name: String,
    /// The variable that introduced a region, as far as it was recovered.
    pub declarations: AssocMap<Region, Variable>,
    /// The source line of a point.
    pub point_lines: AssocMap<PointIndex, SourceLine>,
}

impl GraphBuilder {
    /// The invariant of the builder: that of its tables.
    pub open spec fn wf(&self) -> bool {
        self.declarations.wf() && self.point_lines.wf()
    }

    /// A builder for the function `function_name` that knows no variable
    /// and no line yet.
    pub fn new(function_name: String) -> (builder: Self)
        ensures
            builder.wf(),
            builder.function_name == function_name,
            builder.declarations@ == Map::<Region, Variable>::empty(),
            builder.point_lines@ == Map::<PointIndex, SourceLine>::empty(),
    {
        GraphBuilder {
            function_name,
            declarations: AssocMap::new(),
            point_lines: AssocMap::new(),
        }
    }

    /// Notes that `variable` introduced `region`.
    pub fn declare(&mut self, region: Region, variable: Variable)
        requires
            old(self).wf(),
        ensures
            final(self).wf(),
            final(self).function_name == old(self).function_name,
            final(self).point_lines == old(self).point_lines,
            final(self).declarations@ == old(self).declarations@.insert(region, variable),
    {
        self.declarations.insert(region, variable);
    }

    /// Notes that `point` lies on the line with the number `line` and the
    /// text `text`.
    pub fn locate(&mut self, point: PointIndex, line: usize, text: String)
        requires
            old(self).wf(),
        ensures
            final(self).wf(),
            final(self).function_name == old(self).function_name,
            final(self).declarations == old(self).declarations,
            final(self).point_lines@ == old(self).point_lines@.insert(point, (line, text)),
    {
        self.point_lines.insert(point, (line, text));
    }

    /// Maps from a point to its source line, if the line is known.
    pub fn get_line_for_point(&self, pt: PointIndex) -> (line: Option<SourceLine>)
        requires
            self.wf(),
        ensures
            line matches Some(l) ==> self.point_lines@.contains_key(pt) && l
                == self.point_lines@[pt],
            line is None ==> !self.point_lines@.contains_key(pt),
    {
        match self.point_lines.get(&pt) {
            Some(l) => Some((l.0, l.1.clone())),
            None => None,
        }
    }

    /// Maps a region to the local that introduced it.
    ///
    /// The result holds the variable, if one is known, the number of its
    /// line, its name, and the text of the line. A variable without a name
    /// is called "anonymous Variable". Where no variable is known the number
    /// is 0 and both texts are empty.
    pub fn find_local_for_region(&self, reg: &Region) -> (local: (
        Option<Variable>,
        usize,
        String,
        String,
    ))
        requires
            self.wf(),
        ensures
            local.0 == (if self.declarations@.contains_key(*reg) {
                Some(self.declarations@[*reg])
            } else {
                None
            }),
            (local.1, local.2@, local.3@) == local_info(local.0),
    {
        match self.declarations.get(reg) {
            Some(variable) => {
                let local_name = match &variable.name {
                    Some(n) => n.clone(),
                    None => "anonymous Variable".to_owned(),
                };
                (Some(variable.duplicate()), variable.line, local_name, variable.text.clone())
            },
            None => (None, 0, String::new(), String::new()),
        }
    }

    /// Returns the first line (the line with the lowest number) that is
    /// related to the points `pts`.
    pub fn find_first_line_for_points(&self, pts: &Vec<PointIndex>) -> (line: SourceLine)
        requires
            self.wf(),
        ensures
            is_first_line(self.point_lines@, pts@, line),
    {
        let ghost lines = self.point_lines@;
        let mut point_snip = String::new();
        let mut ind = usize::MAX;
        let ghost mut at: int = -1;
        let mut i: usize = 0;
        while i < pts.len()
            invariant
                i <= pts.len(),
                self.wf(),
                lines == self.point_lines@,
                at < 0 ==> ind == usize::MAX && point_snip@ == Seq::<char>::empty(),
                at < 0 ==> forall|j: int| 0 <= j < i ==> !has_line(lines, pts@, j),
                at >= 0 ==> at < i && has_line(lines, pts@, at) && (ind, point_snip) == lines[pts@[at]],
                at >= 0 ==> forall|j: int|
                    0 <= j < i && #[trigger] has_line(lines, pts@, j) ==> ind <= lines[pts@[j]].0,
                at >= 0 ==> forall|j: int|
                    0 <= j < at && #[trigger] has_line(lines, pts@, j) ==> ind != lines[pts@[j]].0,
            decreases pts.len() - i,
        {
            match self.point_lines.get(&pts[i]) {
                Some(l) => {
                    if l.0 < ind {
                        ind = l.0;
                        point_snip = l.1.clone();
                        proof {
                            at = i as int;
                        }
                    }
                },
                None => {},
            }
            i += 1;
        }
        (ind, point_snip)
    }

    /// The points at which a fact of `map` names the region `reg`, in the
    /// order of the facts.
    pub fn get_points_for_region(&self, reg: Region, map: &Vec<(Region, Loan, PointIndex)>) -> (points:
        Vec<PointIndex>)
        ensures
            points@ == map@.filter(|t: (Region, Loan, PointIndex)| t.0 == reg).map_values(
                |t: (Region, Loan, PointIndex)| t.2,
            ),
    {
        let ghost keep = |t: (Region, Loan, PointIndex)| t.0 == reg;
        let ghost pick = |t: (Region, Loan, PointIndex)| t.2;
        let mut points: Vec<PointIndex> = Vec::new();
        let mut i: usize = 0;
        while i < map.len()
            invariant
                i <= map.len(),
                keep == |t: (Region, Loan, PointIndex)| t.0 == reg,
                pick == |t: (Region, Loan, PointIndex)| t.2,
                points@ == map@.take(i as int).filter(keep).map_values(pick),
            decreases map.len() - i,
        {
            let (r, _l, p) = map[i];
            proof {
                let all = map@;
                let before = all.take(i as int);
                let now = all.take(i + 1);
                assert(now.drop_last() =~= before);
                reveal_with_fuel(Seq::filter, 2);
            }
            if same(r, reg) {
                points.push(p);
            }
            i += 1;
        }
        assert(map@.take(i as int) =~= map@);
        points
    }
    /// Finds all lines of the source that are involved in the region `reg`:
    /// the lines of the points at which a fact of `map` names the region.
    /// Each line number occurs once, and the lines come in ascending order.
    /// A point whose line is not known adds nothing.
    pub fn get_lines_for_region(&self, reg: Region, map: &Vec<(Region, Loan, PointIndex)>) -> (result:
        Vec<SourceLine>)
        requires
            self.wf(),
        ensures
            is_lines_for_region(map@, self.point_lines@, reg, result@),
    {
        let ghost lines = self.point_lines@;
        let ghost facts = map@;
        let mut result: Vec<SourceLine> = Vec::new();
        let mut i: usize = 0;
        while i < map.len()
            invariant
                i <= map.len(),
                self.wf(),
                lines == self.point_lines@,
                facts == map@,
                ascending_lines(result@),
                forall|x: SourceLine| #[trigger]
                    result@.contains(x) ==> exists|k: int|
                        k < i && #[trigger] brings_line(facts, lines, reg, k, x),
                forall|k: int|
                    k < i && #[trigger] touches(facts, lines, reg, k) ==> has_number(
                        result@,
                        lines[facts[k].2].0,
                    ),
            decreases map.len() - i,
        {
            let (r, _l, p) = map[i];
            let ghost before = result@;
            if same(r, reg) {
                match self.point_lines.get(&p) {
                    Some(l) => {
                        let added = insert_line(&mut result, l);
                    },
                    None => {},
                }
            }
            proof {
                assert forall|x: SourceLine| #[trigger] result@.contains(x) implies exists|k: int|
                    k < i + 1 && #[trigger] brings_line(facts, lines, reg, k, x) by {
                    if before.contains(x) {
                        let k = choose|k: int|
                            k < i && #[trigger] brings_line(facts, lines, reg, k, x);
                        assert(k < i + 1 && brings_line(facts, lines, reg, k, x));
                    } else {
                        assert(brings_line(facts, lines, reg, i as int, x));
                    }
                }
            }
            i += 1;
        }
        result
    }
    /// Notes in `graph` what is known of the region `r`, unless it is noted.
    fn describe_region(
        &self,
        graph: &mut EnrichedErrorGraph,
        r: Region,
        region_loan_point_map: &Vec<(Region, Loan, PointIndex)>,
    )
        requires
            self.wf(),
            old(graph).wf(),
            old(graph).regions_described(
                self.declarations@,
                self.point_lines@,
                region_loan_point_map@,
            ),
        ensures
            final(graph).wf(),
            final(graph).regions_described(
                self.declarations@,
                self.point_lines@,
                region_loan_point_map@,
            ),
            final(graph).function_name == old(graph).function_name,
            final(graph).edges == old(graph).edges,
            final(graph).lines_for_edges == old(graph).lines_for_edges,
            final(graph).lines_for_edges_start == old(graph).lines_for_edges_start,
            final(graph).locals_for_regions.keys() == (if old(
                graph,
            ).locals_for_regions.keys().contains(r) {
                old(graph).locals_for_regions.keys()
            } else {
                old(graph).locals_for_regions.keys().push(r)
            }),
    {
        proof {
            graph.locals_for_regions.lemma_keys();
            graph.locals_info_for_regions.lemma_keys();
            graph.lines_for_regions.lemma_keys();
        }
        if !graph.locals_for_regions.contains_key(&r) {
            let (local_decl, line_number, local_name, local_src) = self.find_local_for_region(&r);
            let lines = self.get_lines_for_region(r, region_loan_point_map);
            let ghost decl = local_decl;
            let ghost shown = (line_number, local_name, local_src);
            let ghost found = lines;
            proof {
                assert(!graph.locals_info_for_regions.keys().contains(r));
            }
            graph.locals_for_regions.insert(r, local_decl);
            graph.locals_info_for_regions.insert(r, (line_number, local_name, local_src));
            graph.lines_for_regions.insert(r, lines);
        }
    }

    /// Creates the enriched error graph for the edges `graph_information`,
    /// each with the points at which the outlives relation holds it.
    ///
    /// Each region of an edge gets the variable that introduced it, as far
    /// as it is known, and the lines of the facts of `region_loan_point_map`
    /// that name it. Each edge gets the first line of its points.
    pub fn create_enriched_graph(
        &self,
        graph_information: &Vec<EdgeInfo>,
        region_loan_point_map: &Vec<(Region, Loan, PointIndex)>,
    ) -> (graph: EnrichedErrorGraph)
        requires
            self.wf(),
        ensures
            graph.function_name == self.function_name,
            graph.built_from(
                self.declarations@,
                self.point_lines@,
                region_loan_point_map@,
                graph_information@,
            ),
    {
        let ghost info = graph_information@;
        let ghost lines = self.point_lines@;
        let mut graph = EnrichedErrorGraph {
            function_name: self.function_name.clone(),
            edges: Vec::new(),
            locals_for_regions: AssocMap::new(),
            locals_info_for_regions: AssocMap::new(),
            lines_for_regions: AssocMap::new(),
            lines_for_edges: AssocMap::new(),
            lines_for_edges_start: AssocMap::new(),
        };
        proof {
            assert(graph.locals_for_regions.keys() =~= Seq::<Region>::empty());
            assert(graph.locals_info_for_regions.keys() =~= Seq::<Region>::empty());
            assert(graph.lines_for_regions.keys() =~= Seq::<Region>::empty());
        }
        let mut i: usize = 0;
        while i < graph_information.len()
            invariant
                i <= graph_information.len(),
                self.wf(),
                info == graph_information@,
                lines == self.point_lines@,
                graph.function_name == self.function_name,
                graph.edges@.len() == 0,
                graph.wf(),
                graph.regions_described(self.declarations@, lines, region_loan_point_map@),
                graph.edges_described(lines, info.take(i as int)),
                graph.lines_for_edges.keys() == distinct(edge_keys(info.take(i as int))),
                graph.lines_for_edges_start.keys() == distinct(edge_starts(info.take(i as int))),
                graph.locals_for_regions.keys() == distinct(endpoints(info.take(i as int))),
            decreases graph_information.len() - i,
        {
            let r1 = graph_information[i].0.0;
            let r2 = graph_information[i].0.1;
            let ghost before = graph;
            self.describe_region(&mut graph, r1, region_loan_point_map);
            self.describe_region(&mut graph, r2, region_loan_point_map);
            let origin = self.find_first_line_for_points(&graph_information[i].1);
            let copy: SourceLine = (origin.0, origin.1.clone());
            assert(copy == origin);
            proof {
                graph.lines_for_edges.lemma_keys();
                graph.lines_for_edges_start.lemma_keys();
            }
            graph.lines_for_edges.insert((r1, r2), copy);
            graph.lines_for_edges_start.insert(r1, origin);
            proof {
                let shorter = info.take(i as int);
                let longer = info.take(i + 1);
                assert(longer.drop_last() =~= shorter);
                assert(edge_keys(longer) =~= edge_keys(shorter).push((r1, r2)));
                assert(edge_starts(longer) =~= edge_starts(shorter).push(r1));
                lemma_distinct_push(edge_keys(shorter), (r1, r2));
                lemma_distinct_push(edge_starts(shorter), r1);
                lemma_distinct_push(endpoints(shorter), r1);
                lemma_distinct_push(endpoints(shorter).push(r1), r2);
            }
            i += 1;
        }
        assert(info.take(i as int) =~= info);
        let mut k: usize = 0;
        while k < graph.lines_for_edges.len()
            invariant
                k <= graph.lines_for_edges.entries@.len(),
                graph.function_name == self.function_name,
                graph.locals_for_regions.wf(),
                graph.locals_info_for_regions.wf(),
                graph.lines_for_regions.wf(),
                graph.lines_for_edges.wf(),
                graph.lines_for_edges_start.wf(),
                graph.regions_described(self.declarations@, lines, region_loan_point_map@),
                graph.edges_described(lines, info),
                graph.lines_for_edges.keys() == distinct(edge_keys(info)),
                graph.lines_for_edges_start.keys() == distinct(edge_starts(info)),
                graph.locals_for_regions.keys() == distinct(endpoints(info)),
                graph.edges@ == graph.lines_for_edges.keys().take(k as int),
            decreases graph.lines_for_edges.entries@.len() - k,
        {
            let e = graph.lines_for_edges.entries[k].0;
            graph.edges.push(e);
            k += 1;
        }
        proof {
            let keys = graph.lines_for_edges.keys();
            assert(keys.take(k as int) =~= keys);
            graph.lines_for_edges.lemma_keys();
        }
        graph
    }
}

} // verus!

//! What a diagram of an enriched error graph shows.
//!
//! A diagram has, for each edge of the graph, a box for the region at which
//! the edge starts, a box for the region at which it ends, and between them
//! a box for the constraint that the edge stands for. This module gathers
//! what the boxes show; how they are drawn is left to the caller.

use vstd::prelude::*;
use vstd::string::StringExecFns;
use vstd::string::StrSliceExecFns;
use crate::atoms::Region;
use crate::graph::{EnrichedErrorGraph, SourceLine};

verus! {

/// What stands for the character `c` in markup.
pub open spec fn entity_of(c: char) -> Seq<char> {
    if c == '&' {
        "&amp;"@
    } else if c == '<' {
        "&lt;"@
    } else if c == '>' {
        "&gt;"@
    } else {
        seq![c]
    }
}

/// The text `text` with the characters `&`, `<` and `>` written as markup
/// writes them.
pub open spec fn escaped(text: Seq<char>) -> Seq<char>
    decreases text.len(),
{
    if text.len() == 0 {
        Seq::empty()
    } else {
        escaped(text.drop_last()) + entity_of(text.last())
    }
}

/// Writes `text` as it can stand in markup: `&`, `<` and `>` become
/// `&amp;`, `&lt;` and `&gt;`.
pub fn escape_markup(text: &str) -> (safe: String)
    ensures
        safe@ == escaped(text@),
{
    let n = text.unicode_len();
    let mut safe = String::new();
    let mut i: usize = 0;
    while i < n
        invariant
            i <= n,
            n == text@.len(),
            safe@ == escaped(text@.take(i as int)),
        decreases n - i,
    {
        let c = text.get_char(i);
        proof {
            let longer = text@.take(i + 1);
            assert(longer.drop_last() =~= text@.take(i as int));
        }
        if c == '&' {
            safe.append("&amp;");
        } else if c == '<' {
            safe.append("&lt;");
        } else if c == '>' {
            safe.append("&gt;");
        } else {
            let one = text.substring_char(i, i + 1);
            safe.append(one);
        }
        i += 1;
    }
    assert(text@.take(i as int) =~= text@);
    safe
}

/// What the box of a region shows.
pub struct RegionBox {
    /// The region.
    pub region: Region,
    /// The number of the line of the variable that introduced the region;
    /// 0 where no variable is known.
    pub line_number: usize,
    /// The name of the variable; empty where no variable is known.
    pub name: String,
    /// The text of the line of the variable; empty where none is known.
    pub source: String,
    /// The lines that contribute to the region.
    pub lines: Vec<SourceLine>,
}

/// What the three boxes of an edge show.
pub struct EdgeBoxes {
    /// The region at which the edge starts.
    pub from: RegionBox,
    /// The region at which the edge ends.
    pub to: RegionBox,
    /// The line that is taken to have created the edge.
    pub origin: SourceLine,
}

/// Whether `shown` is what `graph` says of `region`; what the graph does
/// not say is empty.
pub open spec fn shows_region(graph: &EnrichedErrorGraph, region: Region, shown: RegionBox) -> bool {
    &&& shown.region == region
    &&& if graph.locals_info_for_regions@.contains_key(region) {
        &&& shown.line_number == graph.locals_info_for_regions@[region].0
        &&& shown.name == graph.locals_info_for_regions@[region].1
        &&& shown.source == graph.locals_info_for_regions@[region].2
    } else {
        &&& shown.line_number == 0
        &&& shown.name@ == Seq::<char>::empty()
        &&& shown.source@ == Seq::<char>::empty()
    }
    &&& if graph.lines_for_regions@.contains_key(region) {
        shown.lines@ == graph.lines_for_regions@[region]@
    } else {
        shown.lines@.len() == 0
    }
}

/// A copy of `lines`.
pub fn copy_lines(lines: &Vec<SourceLine>) -> (copy: Vec<SourceLine>)
    ensures
        copy@ == lines@,
{
    let mut copy: Vec<SourceLine> = Vec::new();
    let mut i: usize = 0;
    while i < lines.len()
        invariant
            i <= lines.len(),
            copy@ == lines@.take(i as int),
        decreases lines.len() - i,
    {
        let line: SourceLine = (lines[i].0, lines[i].1.clone());
        copy.push(line);
        i += 1;
    }
    copy
}

impl EnrichedErrorGraph {
    /// What the box of `region` shows.
    pub fn region_box(&self, region: Region) -> (shown: RegionBox)
        requires
            self.wf(),
        ensures
            shows_region(self, region, shown),
    {
        let (line_number, name, source) = match self.locals_info_for_regions.get(&region) {
            Some(info) => (info.0, info.1.clone(), info.2.clone()),
            None => (0, String::new(), String::new()),
        };
        let lines = match self.lines_for_regions.get(&region) {
            Some(lines) => copy_lines(lines),
            None => Vec::new(),
        };
        RegionBox { region, line_number, name, source, lines }
    }

    /// What the boxes of the diagram show: for each edge of the graph, in
    /// the order of the edges, its two regions and its line.
    pub fn diagram(&self) -> (boxes: Vec<EdgeBoxes>)
        requires
            self.wf(),
        ensures
            boxes@.len() == self.edges@.len(),
            forall|i: int|
                0 <= i < boxes@.len() ==> {
                    &&& shows_region(self, self.edges@[i].0, (#[trigger] boxes@[i]).from)
                    &&& shows_region(self, self.edges@[i].1, boxes@[i].to)
                    &&& boxes@[i].origin == self.lines_for_edges@[self.edges@[i]]
                },
    {
        let mut boxes: Vec<EdgeBoxes> = Vec::new();
        let mut i: usize = 0;
        while i < self.edges.len()
            invariant
                i <= self.edges.len(),
                self.wf(),
                boxes@.len() == i,
                forall|k: int|
                    0 <= k < i ==> {
                        &&& shows_region(self, self.edges@[k].0, (#[trigger] boxes@[k]).from)
                        &&& shows_region(self, self.edges@[k].1, boxes@[k].to)
                        &&& boxes@[k].origin == self.lines_for_edges@[self.edges@[k]]
                    },
            decreases self.edges.len() - i,
        {
            let (region1, region2) = self.edges[i];
            proof {
                assert(self.edges@.contains(self.edges@[i as int]));
            }
            let line = self.lines_for_edges.get(&(region1, region2)).unwrap();
            let origin: SourceLine = (line.0, line.1.clone());
            let from = self.region_box(region1);
            let to = self.region_box(region2);
            boxes.push(EdgeBoxes { from, to, origin });
            i += 1;
        }
        boxes
    }
}

} // verus!

//! The backward search for one causal chain of regions.
//!
//! An error is reported at a point at which a loan that some live region
//! still depends on is invalidated. The search starts at such a region, the
//! anchor, and walks the outlives edges against their direction until it
//! meets a region that was given the loan directly by a `borrow_region`
//! fact. Predecessors are tried in ascending order of their numbers, so the
//! chain that is found depends on the relations as sets only. The walk
//! itself is that of `crate::frames`.

use vstd::prelude::*;
use crate::atoms::{same, Atom, Loan, PointIndex, Region};
use crate::facts::{requires_of, AllInputFacts, AllOutputFacts};
use crate::relation::{contains2, sorted_insert, strictly_ascending};

verus! {

/// Whether `edges` holds an edge from `from` to `to` at some point.
pub open spec fn has_edge(edges: Seq<(Region, Region, PointIndex)>, from: Region, to: Region)
    -> bool {
    exists|p: PointIndex| edges.contains((from, to, p))
}

/// Whether `borrow_region` gives `loan` to `region` at some point.
pub open spec fn holds_loan(
    borrow_region: Seq<(Region, Loan, PointIndex)>,
    region: Region,
    loan: Loan,
) -> bool {
    exists|p: PointIndex| borrow_region.contains((region, loan, p))
}

/// Whether the search may start at `region` with `loan`: the region depends
/// on the loan at `point`, it is live there, and the loan is invalidated
/// there.
pub open spec fn is_anchor(
    all_facts: &AllInputFacts,
    output: &AllOutputFacts,
    point: PointIndex,
    region: Region,
    loan: Loan,
) -> bool {
    &&& requires_of(all_facts, output).contains((region, loan, point))
    &&& all_facts.invalidates@.contains((point, loan))
    &&& all_facts.region_live_at@.contains((region, point))
}

/// The order in which anchors are preferred: by region, then by loan.
pub open spec fn anchor_le(a: (Region, Loan), b: (Region, Loan)) -> bool {
    a.0.0 < b.0.0 || (a.0.0 == b.0.0 && a.1.0 <= b.1.0)
}

/// Whether `a` is the anchor that comes first in the order of `anchor_le`.
pub open spec fn is_least_anchor(
    all_facts: &AllInputFacts,
    output: &AllOutputFacts,
    point: PointIndex,
    a: (Region, Loan),
) -> bool {
    &&& is_anchor(all_facts, output, point, a.0, a.1)
    &&& forall|r: Region, l: Loan| #[trigger]
        is_anchor(all_facts, output, point, r, l) ==> anchor_le(a, (r, l))
}

/// Whether `path` is a chain that explains why `start` depends on `loan`:
/// it begins at `start`, each further region has an edge to the one before
/// it, no region occurs twice, none of `avoid` occurs after the start, and
/// the last region is the first on it that `borrow_region` gives the loan.
pub open spec fn is_backward_path(
    edges: Seq<(Region, Region, PointIndex)>,
    borrow_region: Seq<(Region, Loan, PointIndex)>,
    loan: Loan,
    start: Region,
    avoid: Seq<Region>,
    path: Seq<Region>,
) -> bool {
    &&& path.len() > 0
    &&& path[0] == start
    &&& path.no_duplicates()
    &&& forall|i: int|
        #![trigger path[i]]
        1 <= i < path.len() ==> has_edge(edges, path[i], path[i - 1]) && !avoid.contains(path[i])
    &&& holds_loan(borrow_region, path.last(), loan)
    &&& forall|i: int|
        #![trigger path[i]]
        0 <= i < path.len() - 1 ==> !holds_loan(borrow_region, path[i], loan)
}

/// The lexicographic order on chains, by the numbers of their regions.
pub open spec fn lex_le(a: Seq<Region>, b: Seq<Region>) -> bool
    decreases a.len(),
{
    if a.len() == 0 {
        true
    } else if b.len() == 0 {
        false
    } else if a[0].0 != b[0].0 {
        a[0].0 < b[0].0
    } else {
        lex_le(a.drop_first(), b.drop_first())
    }
}

/// Whether `path` is what the search from `start` yields: the chain that
/// comes first in lexicographic order, or nothing where there is no chain.
pub open spec fn is_least_path(
    edges: Seq<(Region, Region, PointIndex)>,
    borrow_region: Seq<(Region, Loan, PointIndex)>,
    loan: Loan,
    start: Region,
    avoid: Seq<Region>,
    path: Seq<Region>,
) -> bool {
    if exists|q: Seq<Region>| is_backward_path(edges, borrow_region, loan, start, avoid, q) {
        &&& is_backward_path(edges, borrow_region, loan, start, avoid, path)
        &&& forall|q: Seq<Region>| #[trigger]
            is_backward_path(edges, borrow_region, loan, start, avoid, q) ==> lex_le(path, q)
    } else {
        path.len() == 0
    }
}

/// Whether `path` explains the error at `point` over `edges`: empty where
/// no anchor exists, else the least chain from the least anchor (anchor
/// first), or empty where the anchor has no chain.
pub open spec fn is_error_path(
    all_facts: &AllInputFacts,
    output: &AllOutputFacts,
    edges: Seq<(Region, Region, PointIndex)>,
    point: PointIndex,
    path: Seq<Region>,
) -> bool {
    if exists|r: Region, l: Loan| is_anchor(all_facts, output, point, r, l) {
        exists|a: (Region, Loan)|
            #![trigger is_least_anchor(all_facts, output, point, a)]
            is_least_anchor(all_facts, output, point, a) && is_least_path(
                edges,
                all_facts.borrow_region@,
                a.1,
                a.0,
                Seq::<Region>::empty(),
                path,
            )
    } else {
        path.len() == 0
    }
}

/// The sources of `edges`: the regions that some edge leaves.
pub open spec fn is_source(edges: Seq<(Region, Region, PointIndex)>, r: Region) -> bool {
    exists|to: Region, p: PointIndex| edges.contains((r, to, p))
}

/// The lexicographic order is reflexive.
pub proof fn lemma_lex_le_reflexive(a: Seq<Region>)
    ensures
        lex_le(a, a),
    decreases a.len(),
{
    if a.len() > 0 {
        lemma_lex_le_reflexive(a.drop_first());
    }
}

/// The lexicographic order is antisymmetric.
pub proof fn lemma_lex_le_antisymmetric(a: Seq<Region>, b: Seq<Region>)
    requires
        lex_le(a, b),
        lex_le(b, a),
    ensures
        a == b,
    decreases a.len(),
{
    if a.len() == 0 {
    } else {
        lemma_lex_le_antisymmetric(a.drop_first(), b.drop_first());
        assert(b =~= seq![b[0]] + b.drop_first());
    }
}

/// A result that is not empty, read from its end to its start, follows
/// edges of the chosen set only, and holds no region twice.
pub proof fn lemma_error_path_is_valid(
    all_facts: &AllInputFacts,
    output: &AllOutputFacts,
    edges: Seq<(Region, Region, PointIndex)>,
    point: PointIndex,
    path: Seq<Region>,
)
    requires
        is_error_path(all_facts, output, edges, point, path),
        path.len() > 0,
    ensures
        path.no_duplicates(),
        path.reverse().no_duplicates(),
        forall|i: int|
            0 <= i < path.len() - 1 ==> has_edge(
                edges,
                #[trigger] path.reverse()[i],
                path.reverse()[i + 1],
            ),
{
    let rev = path.reverse();
}

/// Where no loan is invalidated at the error point, the result is empty.
pub proof fn lemma_nothing_invalidated_gives_empty_path(
    all_facts: &AllInputFacts,
    output: &AllOutputFacts,
    edges: Seq<(Region, Region, PointIndex)>,
    point: PointIndex,
    path: Seq<Region>,
)
    requires
        forall|l: Loan| !all_facts.invalidates@.contains((point, l)),
        is_error_path(all_facts, output, edges, point, path),
    ensures
        path.len() == 0,
{
}

/// The result depends on the relations as sets only: two fact bundles that
/// hold the same tuples, in whatever order and however often, have the same
/// result. So repeated searches on the same input return the same path.
pub proof fn lemma_error_path_is_determined(
    facts1: &AllInputFacts,
    output1: &AllOutputFacts,
    edges1: Seq<(Region, Region, PointIndex)>,
    facts2: &AllInputFacts,
    output2: &AllOutputFacts,
    edges2: Seq<(Region, Region, PointIndex)>,
    point: PointIndex,
    path1: Seq<Region>,
    path2: Seq<Region>,
)
    requires
        forall|t: (Region, Loan, PointIndex)|
            requires_of(facts1, output1).contains(t) <==> requires_of(facts2, output2).contains(t),
        forall|t: (Region, Loan, PointIndex)|
            facts1.borrow_region@.contains(t) <==> facts2.borrow_region@.contains(t),
        forall|t: (PointIndex, Loan)|
            facts1.invalidates@.contains(t) <==> facts2.invalidates@.contains(t),
        forall|t: (Region, PointIndex)|
            facts1.region_live_at@.contains(t) <==> facts2.region_live_at@.contains(t),
        forall|t: (Region, Region, PointIndex)| edges1.contains(t) <==> edges2.contains(t),
        is_error_path(facts1, output1, edges1, point, path1),
        is_error_path(facts2, output2, edges2, point, path2),
    ensures
        path1 == path2,
{
    assert forall|r: Region, l: Loan|
        is_anchor(facts1, output1, point, r, l) <==> is_anchor(facts2, output2, point, r, l) by {}
    if exists|r: Region, l: Loan| is_anchor(facts1, output1, point, r, l) {
        let a1 = choose|a: (Region, Loan)|
            #![trigger is_least_anchor(facts1, output1, point, a)]
            is_least_anchor(facts1, output1, point, a) && is_least_path(
                edges1,
                facts1.borrow_region@,
                a.1,
                a.0,
                Seq::<Region>::empty(),
                path1,
            );
        let br1 = facts1.borrow_region@;
        let br2 = facts2.borrow_region@;
        let none = Seq::<Region>::empty();
        assert forall|q: Seq<Region>|
            is_backward_path(edges1, br1, a1.1, a1.0, none, q) <==> is_backward_path(
                edges2,
                br2,
                a1.1,
                a1.0,
                none,
                q,
            ) by {
        }
        if exists|q: Seq<Region>| is_backward_path(edges1, br1, a1.1, a1.0, none, q) {
            lemma_lex_le_antisymmetric(path1, path2);
        }
    }
}

/// This struct holds what is needed to find a path in an outlives graph that
/// explains one error. After `new`, call `compute_error_path`.
pub struct ErrorPathFinder<'epf> {
    /// The input facts of the analysed function.
    pub all_facts: &'epf AllInputFacts,
    /// What the region inference derived from them.
    pub output: &'epf AllOutputFacts,
    /// The error to explain: its point, and the loans invalidated there.
    pub error_fact: (PointIndex, Vec<Loan>),
    /// The edges that the path may use.
    pub outlives: &'epf Vec<(Region, Region, PointIndex)>,
    /// The loan that the search looks for; `compute_error_path` sets it.
    pub error_loan: Loan,
}

impl<'epf> ErrorPathFinder<'epf> {
    /// A finder for the error `error_fact` over the edges `outlives`.
    pub fn new(
        all_facts: &'epf AllInputFacts,
        output: &'epf AllOutputFacts,
        error_fact: (PointIndex, Vec<Loan>),
        outlives: &'epf Vec<(Region, Region, PointIndex)>,
    ) -> (finder: Self)
        ensures
            finder.all_facts == all_facts,
            finder.output == output,
            finder.error_fact == error_fact,
            finder.outlives == outlives,
            finder.error_loan == Loan(0),
    {
        ErrorPathFinder { all_facts, output, error_fact, outlives, error_loan: Loan(0) }
    }

    /// The better of `best` and the anchors among `rel`.
    fn least_anchor_among(
        &self,
        rel: &Vec<(Region, Loan, PointIndex)>,
        best: Option<(Region, Loan)>,
    ) -> (r: Option<(Region, Loan)>)
        requires
            forall|k: int|
                0 <= k < rel@.len() ==> requires_of(self.all_facts, self.output).contains(
                    #[trigger] rel@[k],
                ),
            best matches Some(b) ==> is_anchor(
                self.all_facts,
                self.output,
                self.error_fact.0,
                b.0,
                b.1,
            ),
        ensures
            r is None ==> best is None,
            r matches Some(a) ==> is_anchor(
                self.all_facts,
                self.output,
                self.error_fact.0,
                a.0,
                a.1,
            ),
            r matches Some(a) ==> (best matches Some(b) ==> anchor_le(a, b)),
            forall|x: Region, l: Loan|
                rel@.contains((x, l, self.error_fact.0)) && #[trigger] is_anchor(
                    self.all_facts,
                    self.output,
                    self.error_fact.0,
                    x,
                    l,
                ) ==> (r matches Some(a) && anchor_le(a, (x, l))),
    {
        let point = self.error_fact.0;
        let mut r = best;
        let mut i: usize = 0;
        while i < rel.len()
            invariant
                i <= rel.len(),
                point == self.error_fact.0,
                forall|k: int|
                    0 <= k < rel@.len() ==> requires_of(self.all_facts, self.output).contains(
                        #[trigger] rel@[k],
                    ),
                r is None ==> best is None,
                r matches Some(a) ==> is_anchor(self.all_facts, self.output, point, a.0, a.1),
                r matches Some(a) ==> (best matches Some(b) ==> anchor_le(a, b)),
                forall|k: int|
                    0 <= k < i && (#[trigger] rel@[k]).2 == point && is_anchor(
                        self.all_facts,
                        self.output,
                        point,
                        rel@[k].0,
                        rel@[k].1,
                    ) ==> (r matches Some(a) && anchor_le(a, (rel@[k].0, rel@[k].1))),
            decreases rel.len() - i,
        {
            let (x, l, p) = rel[i];
            if same(p, point) && contains2(&self.all_facts.invalidates, point, l) && contains2(
                &self.all_facts.region_live_at,
                x,
                point,
            ) {
                let better = match r {
                    None => true,
                    Some(a) => x.0 < a.0.0 || (x.0 == a.0.0 && l.0 < a.1.0),
                };
                if better {
                    r = Some((x, l));
                }
            }
            i += 1;
        }
        r
    }

    /// The region and the loan at which the search starts: among the pairs
    /// that qualify, the first by region and then by loan.
    pub fn select_anchor(&self) -> (anchor: Option<(Region, Loan)>)
        ensures
            anchor matches Some(a) ==> is_least_anchor(
                self.all_facts,
                self.output,
                self.error_fact.0,
                a,
            ),
            anchor is None ==> forall|r: Region, l: Loan|
                !is_anchor(self.all_facts, self.output, self.error_fact.0, r, l),
    {
        proof {
            let req = requires_of(self.all_facts, self.output);
            assert forall|k: int| 0 <= k < self.all_facts.borrow_region@.len() implies req.contains(
                #[trigger] self.all_facts.borrow_region@[k],
            ) by {
                assert(req[k] == self.all_facts.borrow_region@[k]);
            }
            assert forall|k: int| 0 <= k < self.output.restricts@.len() implies req.contains(
                #[trigger] self.output.restricts@[k],
            ) by {
                assert(req[self.all_facts.borrow_region@.len() + k] == self.output.restricts@[k]);
            }
        }
        let first = self.least_anchor_among(&self.all_facts.borrow_region, None);
        let anchor = self.least_anchor_among(&self.output.restricts, first);
        anchor
    }

    /// Finds all regions that stand directly before `start` in the edges of
    /// this finder: each of them once, in ascending order.
    pub fn find_prev_regions(&self, start: Region) -> (prev: Vec<Region>)
        ensures
            strictly_ascending(prev@),
            forall|r: Region| prev@.contains(r) <==> has_edge(self.outlives@, r, start),
    {
        let mut prev: Vec<Region> = Vec::new();
        let mut i: usize = 0;
        while i < self.outlives.len()
            invariant
                i <= self.outlives.len(),
                strictly_ascending(prev@),
                forall|r: Region|
                    prev@.contains(r) <==> exists|k: int|
                        0 <= k < i && (#[trigger] self.outlives@[k]).0 == r && self.outlives@[k].1
                            == start,
            decreases self.outlives.len() - i,
        {
            let (r1, r2, _p) = self.outlives[i];
            if same(r2, start) {
                sorted_insert(&mut prev, r1);
            }
            i += 1;
        }
        proof {
            assert forall|r: Region| prev@.contains(r) <==> has_edge(self.outlives@, r, start) by {
                if prev@.contains(r) {
                    let k = choose|k: int|
                        0 <= k < self.outlives@.len() && (#[trigger] self.outlives@[k]).0 == r
                            && self.outlives@[k].1 == start;
                    assert(self.outlives@.contains((r, start, self.outlives@[k].2)));
                }
            }
        }
        prev
    }

    /// Finds the loans that the `borrow_region` input facts give to `reg`,
    /// one for each such fact, in the order of the facts.
    pub fn loan_of_reagion(&self, reg: Region) -> (loans: Vec<Loan>)
        ensures
            loans@ == self.all_facts.borrow_region@.filter(
                |t: (Region, Loan, PointIndex)| t.0 == reg,
            ).map_values(|t: (Region, Loan, PointIndex)| t.1),
    {
        let ghost keep = |t: (Region, Loan, PointIndex)| t.0 == reg;
        let ghost pick = |t: (Region, Loan, PointIndex)| t.1;
        let mut loans: Vec<Loan> = Vec::new();
        let mut i: usize = 0;
        while i < self.all_facts.borrow_region.len()
            invariant
                i <= self.all_facts.borrow_region.len(),
                keep == |t: (Region, Loan, PointIndex)| t.0 == reg,
                pick == |t: (Region, Loan, PointIndex)| t.1,
                loans@ == self.all_facts.borrow_region@.take(i as int).filter(keep).map_values(
                    pick,
                ),
            decreases self.all_facts.borrow_region.len() - i,
        {
            let (r, l, _p) = self.all_facts.borrow_region[i];
            proof {
                let all = self.all_facts.borrow_region@;
                let before = all.take(i as int);
                let now = all.take(i + 1);
                assert(now.drop_last() =~= before);
                reveal_with_fuel(Seq::filter, 2);
            }
            if same(r, reg) {
                loans.push(l);
            }
            i += 1;
        }
        assert(self.all_facts.borrow_region@.take(i as int) =~= self.all_facts.borrow_region@);
        loans
    }

    /// The sources of the edges of this finder, each once, in ascending
    /// order.
    fn sources(&self) -> (sources: Vec<Region>)
        ensures
            strictly_ascending(sources@),
            forall|r: Region| sources@.contains(r) <==> is_source(self.outlives@, r),
    {
        let mut sources: Vec<Region> = Vec::new();
        let mut i: usize = 0;
        while i < self.outlives.len()
            invariant
                i <= self.outlives.len(),
                strictly_ascending(sources@),
                forall|r: Region|
                    sources@.contains(r) <==> exists|k: int|
                        0 <= k < i && (#[trigger] self.outlives@[k]).0 == r,
            decreases self.outlives.len() - i,
        {
            sorted_insert(&mut sources, self.outlives[i].0);
            i += 1;
        }
        proof {
            assert forall|r: Region| sources@.contains(r) <==> is_source(self.outlives@, r) by {
                if sources@.contains(r) {
                    let k = choose|k: int|
                        0 <= k < self.outlives@.len() && (#[trigger] self.outlives@[k]).0 == r;
                    assert(self.outlives@.contains((r, self.outlives@[k].1, self.outlives@[k].2)));
                }
            }
        }
        sources
    }

    /// Walks the edges of this finder against their direction, from `start`
    /// towards a region that `borrow_region` gives the loan `error_loan`.
    ///
    /// The regions already on `cur_path` are not entered again. Where a
    /// chain exists, the one that comes first in lexicographic order is put
    /// behind what `cur_path` held, and the result is `true`. Where none
    /// exists, only `start` is put there, and the result is `false`.
    pub fn path_to_error_backwards(&self, start: Region, cur_path: &mut Vec<Region>) -> (found:
        bool)
        ensures
            found ==> final(cur_path)@ == old(cur_path)@ + final(cur_path)@.subrange(
                old(cur_path)@.len() as int,
                final(cur_path)@.len() as int,
            ),
            found ==> is_backward_path(
                self.outlives@,
                self.all_facts.borrow_region@,
                self.error_loan,
                start,
                old(cur_path)@,
                final(cur_path)@.subrange(
                    old(cur_path)@.len() as int,
                    final(cur_path)@.len() as int,
                ),
            ),
            found ==> forall|q: Seq<Region>| #[trigger]
                is_backward_path(
                    self.outlives@,
                    self.all_facts.borrow_region@,
                    self.error_loan,
                    start,
                    old(cur_path)@,
                    q,
                ) ==> lex_le(
                    final(cur_path)@.subrange(
                        old(cur_path)@.len() as int,
                        final(cur_path)@.len() as int,
                    ),
                    q,
                ),
            !found ==> final(cur_path)@ == old(cur_path)@.push(start),
            !found ==> forall|q: Seq<Region>|
                !is_backward_path(
                    self.outlives@,
                    self.all_facts.borrow_region@,
                    self.error_loan,
                    start,
                    old(cur_path)@,
                    q,
                ),
    {
        let sources = self.sources();
        crate::frames::search(
            self.outlives,
            &self.all_facts.borrow_region,
            self.error_loan,
            start,
            &sources,
            cur_path,
        )
    }

    /// Runs the whole path computation for the error of this finder.
    ///
    /// The result is the path in backward direction: the anchor region
    /// first, the region that was given the loan last. It is empty where no
    /// anchor qualifies at the error point, and where no chain leads from the
    /// anchor to a region with the loan. The loan of the anchor is kept in
    /// `error_loan`.
    pub fn compute_error_path(&mut self) -> (path: Vec<Region>)
        ensures
            final(self).all_facts == old(self).all_facts,
            final(self).output == old(self).output,
            final(self).error_fact == old(self).error_fact,
            final(self).outlives == old(self).outlives,
            is_error_path(
                old(self).all_facts,
                old(self).output,
                old(self).outlives@,
                old(self).error_fact.0,
                path@,
            ),
            forall|a: (Region, Loan)|
                is_least_anchor(old(self).all_facts, old(self).output, old(self).error_fact.0, a)
                    ==> final(self).error_loan == a.1,
            (forall|r: Region, l: Loan|
                !is_anchor(old(self).all_facts, old(self).output, old(self).error_fact.0, r, l))
                ==> final(self).error_loan == old(self).error_loan,
    {
        let (error_region, error_loan_var) = match self.select_anchor() {
            Some(error_descr) => error_descr,
            None => {
                return Vec::new();
            },
        };
        self.error_loan = error_loan_var;
        let mut path_to_error: Vec<Region> = Vec::new();
        let res = self.path_to_error_backwards(error_region, &mut path_to_error);
        if res {
            path_to_error
        } else {
            let empty: Vec<Region> = Vec::new();
            proof {
                assert(self.error_loan == error_loan_var);
            }
            empty
        }
    }
}

} // verus!

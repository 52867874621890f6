//! Membership tests on relations that are kept as vectors of tuples.

use vstd::prelude::*;
use crate::atoms::{Atom, same};

verus! {

/// Whether `a` occurs in the unary relation `rel`.
pub fn contains1<A: Atom>(rel: &Vec<A>, a: A) -> (found: bool)
    ensures
        found == rel@.contains(a),
{
    let mut i: usize = 0;
    while i < rel.len()
        invariant
            i <= rel.len(),
            forall|k: int| 0 <= k < i ==> rel@[k] != a,
        decreases rel.len() - i,
    {
        if same(rel[i], a) {
            return true;
        }
        i += 1;
    }
    false
}

/// Whether the pair `(a, b)` occurs in the binary relation `rel`.
pub fn contains2<A: Atom, B: Atom>(rel: &Vec<(A, B)>, a: A, b: B) -> (found: bool)
    ensures
        found == rel@.contains((a, b)),
{
    let mut i: usize = 0;
    while i < rel.len()
        invariant
            i <= rel.len(),
            forall|k: int| 0 <= k < i ==> rel@[k] != (a, b),
        decreases rel.len() - i,
    {
        if same(rel[i].0, a) && same(rel[i].1, b) {
            return true;
        }
        i += 1;
    }
    false
}

/// Whether the triple `(a, b, c)` occurs in the ternary relation `rel`.
pub fn contains3<A: Atom, B: Atom, C: Atom>(rel: &Vec<(A, B, C)>, a: A, b: B, c: C) -> (found:
    bool)
    ensures
        found == rel@.contains((a, b, c)),
{
    let mut i: usize = 0;
    while i < rel.len()
        invariant
            i <= rel.len(),
            forall|k: int| 0 <= k < i ==> rel@[k] != (a, b, c),
        decreases rel.len() - i,
    {
        if same(rel[i].0, a) && same(rel[i].1, b) && same(rel[i].2, c) {
            return true;
        }
        i += 1;
    }
    false
}

/// Whether the atoms of `s` stand in strictly ascending order of their numbers.
pub open spec fn strictly_ascending<A: Atom>(s: Seq<A>) -> bool {
    forall|i: int, j: int| 0 <= i < j < s.len() ==> s[i].spec_index() < s[j].spec_index()
}

/// Two strictly ascending sequences with the same elements are the same
/// sequence: the ascending order is canonical.
pub proof fn lemma_ascending_is_canonical<A: Atom>(s: Seq<A>, t: Seq<A>)
    requires
        strictly_ascending(s),
        strictly_ascending(t),
        forall|x: A| s.contains(x) <==> t.contains(x),
    ensures
        s == t,
    decreases s.len(),
{
    if s.len() == 0 {
        if t.len() > 0 {
            assert(t.contains(t[0]));
        }
    } else {
        assert(s.contains(s[0]));
        assert(t.contains(t[0]));
        // the least element of each is the head
        let i = choose|i: int| 0 <= i < t.len() && t[i] == s[0];
        let j = choose|j: int| 0 <= j < s.len() && s[j] == t[0];
        let s1 = s.drop_first();
        let t1 = t.drop_first();
        assert forall|x: A| s1.contains(x) <==> t1.contains(x) by {
            if s1.contains(x) {
                let k = choose|k: int| 0 <= k < s1.len() && s1[k] == x;
                assert(s.contains(x));
                let m = choose|m: int| 0 <= m < t.len() && t[m] == x;
                assert(t1[m - 1] == x);
            }
            if t1.contains(x) {
                let k = choose|k: int| 0 <= k < t1.len() && t1[k] == x;
                assert(t.contains(x));
                let m = choose|m: int| 0 <= m < s.len() && s[m] == x;
                assert(m != 0);
                assert(s1[m - 1] == x);
            }
        }
        lemma_ascending_is_canonical(s1, t1);
        assert(t =~= seq![t[0]] + t1);
    }
}

/// Puts `a` at its place in the strictly ascending vector `v`, unless it is
/// there already.
pub fn sorted_insert<A: Atom>(v: &mut Vec<A>, a: A)
    requires
        strictly_ascending(old(v)@),
    ensures
        strictly_ascending(final(v)@),
        forall|x: A| final(v)@.contains(x) <==> (old(v)@.contains(x) || x == a),
{
    let mut i: usize = 0;
    while i < v.len() && v[i].index() < a.index()
        invariant
            i <= v.len(),
            *v == *old(v),
            forall|k: int| 0 <= k < i ==> v@[k].spec_index() < a.spec_index(),
        decreases v.len() - i,
    {
        i += 1;
    }
    if i < v.len() && v[i].index() == a.index() {
        proof {
            A::index_is_injective(v@[i as int], a);
        }
        return ;
    }
    let ghost before = v@;
    v.insert(i, a);
    proof {
        let after = v@;
        assert forall|x: A| after.contains(x) <==> (before.contains(x) || x == a) by {
            if before.contains(x) {
                let k = choose|k: int| 0 <= k < before.len() && before[k] == x;
                if k < i {
                    assert(after[k] == x);
                } else {
                    assert(after[k + 1] == x);
                }
            }
            if x == a {
                assert(after[i as int] == x);
            }
        }
    }
}

/// What one more element adds to a prefix of `s`.
pub proof fn lemma_take_contains<T>(s: Seq<T>, i: int)
    requires
        0 <= i < s.len(),
    ensures
        forall|x: T| #[trigger] s.take(i + 1).contains(x) <==> (s.take(i).contains(x) || x == s[i]),
{
    let longer = s.take(i + 1);
    let shorter = s.take(i);
    assert forall|x: T| #[trigger] longer.contains(x) <==> (shorter.contains(x) || x == s[i]) by {
        if x == s[i] {
            assert(longer[i] == x);
        }
    }
}

/// Whether `s` begins with `prefix`.
pub open spec fn extends<T>(s: Seq<T>, prefix: Seq<T>) -> bool {
    &&& prefix.len() <= s.len()
    &&& forall|k: int| 0 <= k < prefix.len() ==> s[k] == prefix[k]
}

/// Puts the triple `(a, b, c)` at the end of `rel`, unless `rel` holds it.
pub fn push_new3<A: Atom, B: Atom, C: Atom>(rel: &mut Vec<(A, B, C)>, a: A, b: B, c: C) -> (added:
    bool)
    ensures
        added == !old(rel)@.contains((a, b, c)),
        added ==> final(rel)@ == old(rel)@.push((a, b, c)),
        !added ==> final(rel)@ == old(rel)@,
        old(rel)@.no_duplicates() ==> final(rel)@.no_duplicates(),
{
    if contains3(rel, a, b, c) {
        false
    } else {
        rel.push((a, b, c));
        true
    }
}

/// Puts the pair `(a, b)` at the end of `rel`, unless `rel` holds it.
pub fn push_new2<A: Atom, B: Atom>(rel: &mut Vec<(A, B)>, a: A, b: B) -> (added: bool)
    ensures
        added == !old(rel)@.contains((a, b)),
        added ==> final(rel)@ == old(rel)@.push((a, b)),
        !added ==> final(rel)@ == old(rel)@,
        old(rel)@.no_duplicates() ==> final(rel)@.no_duplicates(),
{
    if contains2(rel, a, b) {
        false
    } else {
        rel.push((a, b));
        true
    }
}

/// The sequence `rel` with each element of `items` behind it that is not
/// there yet, in the order of `items`.
pub open spec fn merged<T>(rel: Seq<T>, items: Seq<T>) -> Seq<T>
    decreases items.len(),
{
    if items.len() == 0 {
        rel
    } else {
        let before = merged(rel, items.drop_last());
        if before.contains(items.last()) {
            before
        } else {
            before.push(items.last())
        }
    }
}

/// What `merged` holds.
pub proof fn lemma_merged<T>(rel: Seq<T>, items: Seq<T>)
    ensures
        extends(merged(rel, items), rel),
        forall|t: T| merged(rel, items).contains(t) <==> (rel.contains(t) || items.contains(t)),
        rel.no_duplicates() ==> merged(rel, items).no_duplicates(),
    decreases items.len(),
{
    if items.len() > 0 {
        let rest = items.drop_last();
        let last = items.last();
        let before = merged(rel, rest);
        lemma_merged(rel, rest);
        assert forall|t: T| items.contains(t) <==> (rest.contains(t) || t == last) by {
            if items.contains(t) {
                let i = choose|i: int| 0 <= i < items.len() && items[i] == t;
                if i < rest.len() {
                    assert(rest[i] == t);
                }
            }
            if rest.contains(t) {
                let i = choose|i: int| 0 <= i < rest.len() && rest[i] == t;
            }
        }
        if !before.contains(last) {
            let after = before.push(last);
            assert forall|t: T| after.contains(t) <==> (before.contains(t) || t == last) by {
                vstd::seq_lib::lemma_seq_contains_after_push(before, last, t);
            }
            if rel.no_duplicates() {
            }
        }
    }
}

/// Puts behind what `rel` holds each triple of `items` that is not there
/// yet, in the order of `items`.
pub fn merge3<A: Atom, B: Atom, C: Atom>(rel: &mut Vec<(A, B, C)>, items: &Vec<(A, B, C)>)
    ensures
        final(rel)@ == merged(old(rel)@, items@),
        extends(final(rel)@, old(rel)@),
        forall|t: (A, B, C)|
            final(rel)@.contains(t) <==> (old(rel)@.contains(t) || items@.contains(t)),
        old(rel)@.no_duplicates() ==> final(rel)@.no_duplicates(),
{
    let mut i: usize = 0;
    while i < items.len()
        invariant
            i <= items.len(),
            rel@ == merged(old(rel)@, items@.take(i as int)),
        decreases items.len() - i,
    {
        let (a, b, c) = items[i];
        proof {
            let longer = items@.take(i + 1);
            assert(longer.drop_last() =~= items@.take(i as int));
        }
        push_new3(rel, a, b, c);
        i += 1;
    }
    proof {
        assert(items@.take(i as int) =~= items@);
        lemma_merged(old(rel)@, items@);
    }
}

/// In mixed radix with a last digit below `z`, a number has one writing only.
proof fn lemma_digits_are_unique(a: int, c: int, b: int, d: int, z: int)
    requires
        0 <= c < z,
        0 <= d < z,
        a * z + c == b * z + d,
    ensures
        a == b,
        c == d,
{
    if a < b {
        assert((b - a) * z >= z) by (nonlinear_arith)
            requires
                b - a >= 1,
                z > 0,
        ;
        assert((b - a) * z == b * z - a * z) by (nonlinear_arith);
    } else if b < a {
        assert((a - b) * z >= z) by (nonlinear_arith)
            requires
                a - b >= 1,
                z > 0,
        ;
        assert((a - b) * z == a * z - b * z) by (nonlinear_arith);
    }
}

/// A sequence of triples without repetition, with its first components from
/// `xs`, its second from `ys` and its third from `zs`, is no longer than the
/// product of their lengths.
pub proof fn lemma_distinct_triples_are_bounded<A, B, C>(
    s: Seq<(A, B, C)>,
    xs: Seq<A>,
    ys: Seq<B>,
    zs: Seq<C>,
)
    requires
        s.no_duplicates(),
        forall|k: int|
            0 <= k < s.len() ==> xs.contains((#[trigger] s[k]).0) && ys.contains(s[k].1)
                && zs.contains(s[k].2),
    ensures
        s.len() <= xs.len() * ys.len() * zs.len(),
{
    let nx = xs.len() as int;
    let ny = ys.len() as int;
    let nz = zs.len() as int;
    let code = |t: (A, B, C)| (xs.index_of(t.0) * ny + ys.index_of(t.1)) * nz + zs.index_of(t.2);
    let m = s.map_values(code);
    let bound = nx * ny * nz;
    assert forall|k: int| 0 <= k < m.len() implies 0 <= #[trigger] m[k] < bound by {
        let t = s[k];
        let i = xs.index_of(t.0);
        let j = ys.index_of(t.1);
        let h = zs.index_of(t.2);
        assert(0 <= (i * ny + j) * nz + h < nx * ny * nz) by (nonlinear_arith)
            requires
                0 <= i < nx,
                0 <= j < ny,
                0 <= h < nz,
    }
    assert(m.no_duplicates()) by {
        assert forall|k1: int, k2: int|
            0 <= k1 < m.len() && 0 <= k2 < m.len() && k1 != k2 implies m[k1] != m[k2] by {
            let t = s[k1];
            let u = s[k2];
            assert(xs.contains(t.0) && ys.contains(t.1) && zs.contains(t.2));
            if m[k1] == m[k2] {
                lemma_digits_are_unique(
                    xs.index_of(t.0) * ny + ys.index_of(t.1),
                    zs.index_of(t.2),
                    xs.index_of(u.0) * ny + ys.index_of(u.1),
                    zs.index_of(u.2),
                    nz,
                );
                lemma_digits_are_unique(
                    xs.index_of(t.0),
                    ys.index_of(t.1),
                    xs.index_of(u.0),
                    ys.index_of(u.1),
                    ny,
                );
            }
        }
    }
    if bound >= 0 {
        vstd::set_lib::lemma_int_range(0, bound);
        let range = vstd::set_lib::set_int_range(0, bound);
        vstd::set_lib::lemma_len_subset(m.to_set(), range);
        m.unique_seq_to_set();
    }
}

/// The order of pairs: by the number of the first atom, then by that of the
/// second.
pub open spec fn pair_lt<A: Atom, B: Atom>(a: (A, B), b: (A, B)) -> bool {
    a.0.spec_index() < b.0.spec_index() || (a.0.spec_index() == b.0.spec_index()
        && a.1.spec_index() < b.1.spec_index())
}

/// The order of triples: by the number of the first atom, then by that of
/// the second, then by that of the third.
pub open spec fn triple_lt<A: Atom, B: Atom, C: Atom>(a: (A, B, C), b: (A, B, C)) -> bool {
    a.0.spec_index() < b.0.spec_index() || (a.0.spec_index() == b.0.spec_index() && (
    a.1.spec_index() < b.1.spec_index() || (a.1.spec_index() == b.1.spec_index()
        && a.2.spec_index() < b.2.spec_index())))
}

/// Whether the pairs of `s` stand in strictly ascending order.
pub open spec fn ascending_pairs<A: Atom, B: Atom>(s: Seq<(A, B)>) -> bool {
    forall|i: int, j: int| 0 <= i < j < s.len() ==> pair_lt(s[i], s[j])
}

/// Whether the triples of `s` stand in strictly ascending order.
pub open spec fn ascending_triples<A: Atom, B: Atom, C: Atom>(s: Seq<(A, B, C)>) -> bool {
    forall|i: int, j: int| 0 <= i < j < s.len() ==> triple_lt(s[i], s[j])
}

/// Whether the pair `a` comes before the pair `b`.
fn pair_before<A: Atom, B: Atom>(a: (A, B), b: (A, B)) -> (before: bool)
    ensures
        before == pair_lt(a, b),
{
    a.0.index() < b.0.index() || (a.0.index() == b.0.index() && a.1.index() < b.1.index())
}

/// Whether the triple `a` comes before the triple `b`.
fn triple_before<A: Atom, B: Atom, C: Atom>(a: (A, B, C), b: (A, B, C)) -> (before: bool)
    ensures
        before == triple_lt(a, b),
{
    a.0.index() < b.0.index() || (a.0.index() == b.0.index() && (a.1.index() < b.1.index() || (
    a.1.index() == b.1.index() && a.2.index() < b.2.index())))
}

/// The pairs of `rel`, each once, in ascending order.
pub fn canonical2<A: Atom, B: Atom>(rel: &Vec<(A, B)>) -> (sorted: Vec<(A, B)>)
    ensures
        ascending_pairs(sorted@),
        forall|t: (A, B)| sorted@.contains(t) <==> rel@.contains(t),
{
    let mut sorted: Vec<(A, B)> = Vec::new();
    let mut i: usize = 0;
    while i < rel.len()
        invariant
            i <= rel.len(),
            ascending_pairs(sorted@),
            forall|t: (A, B)| sorted@.contains(t) <==> rel@.take(i as int).contains(t),
        decreases rel.len() - i,
    {
        let t = rel[i];
        let ghost before = sorted@;
        proof {
            lemma_take_contains(rel@, i as int);
        }
        let mut pos: usize = 0;
        while pos < sorted.len() && pair_before(sorted[pos], t)
            invariant
                pos <= sorted.len(),
                sorted@ == before,
                forall|k: int| 0 <= k < pos ==> pair_lt(#[trigger] sorted@[k], t),
            decreases sorted.len() - pos,
        {
            pos += 1;
        }
        if pos < sorted.len() && !pair_before(t, sorted[pos]) {
            proof {
                A::index_is_injective(sorted@[pos as int].0, t.0);
                B::index_is_injective(sorted@[pos as int].1, t.1);
            }
        } else {
            sorted.insert(pos, t);
            proof {
                let after = sorted@;
                assert forall|x: (A, B)| after.contains(x) <==> (before.contains(x) || x == t) by {
                    if before.contains(x) {
                        let k = choose|k: int| 0 <= k < before.len() && before[k] == x;
                        if k < pos {
                            assert(after[k] == x);
                        } else {
                            assert(after[k + 1] == x);
                        }
                    }
                    if x == t {
                        assert(after[pos as int] == x);
                    }
                }
                assert forall|a: int, b: int| 0 <= a < b < after.len() implies pair_lt(
                    after[a],
                    after[b],
                ) by {
                    let a0 = if a < pos { a } else { a - 1 };
                    let b0 = if b < pos { b } else { b - 1 };
                    if a != pos && b != pos {
                    } else if a == pos {
                        if b - 1 > pos {
                            assert(pair_lt(before[pos as int], before[b - 1]));
                        }
                    } else {
                        assert(after[a] == before[a]);
                        assert(pair_lt(before[a], t));
                    }
                }
            }
        }
        i += 1;
    }
    assert(rel@.take(i as int) =~= rel@);
    sorted
}

/// The triples of `rel`, each once, in ascending order.
pub fn canonical3<A: Atom, B: Atom, C: Atom>(rel: &Vec<(A, B, C)>) -> (sorted: Vec<(A, B, C)>)
    ensures
        ascending_triples(sorted@),
        forall|t: (A, B, C)| sorted@.contains(t) <==> rel@.contains(t),
{
    let mut sorted: Vec<(A, B, C)> = Vec::new();
    let mut i: usize = 0;
    while i < rel.len()
        invariant
            i <= rel.len(),
            ascending_triples(sorted@),
            forall|t: (A, B, C)| sorted@.contains(t) <==> rel@.take(i as int).contains(t),
        decreases rel.len() - i,
    {
        let t = rel[i];
        let ghost before = sorted@;
        proof {
            lemma_take_contains(rel@, i as int);
        }
        let mut pos: usize = 0;
        while pos < sorted.len() && triple_before(sorted[pos], t)
            invariant
                pos <= sorted.len(),
                sorted@ == before,
                forall|k: int| 0 <= k < pos ==> triple_lt(#[trigger] sorted@[k], t),
            decreases sorted.len() - pos,
        {
            pos += 1;
        }
        if pos < sorted.len() && !triple_before(t, sorted[pos]) {
            proof {
                A::index_is_injective(sorted@[pos as int].0, t.0);
                B::index_is_injective(sorted@[pos as int].1, t.1);
                C::index_is_injective(sorted@[pos as int].2, t.2);
                assert(sorted@[pos as int] == t);
                assert(sorted@.contains(t));
            }
        } else {
            sorted.insert(pos, t);
            proof {
                let after = sorted@;
                assert(after == before.insert(pos as int, t));
                assert forall|x: (A, B, C)| after.contains(x) <==> (before.contains(x) || x
                    == t) by {
                    if after.contains(x) {
                        let k = choose|k: int| 0 <= k < after.len() && after[k] == x;
                        if k < pos {
                            assert(before[k] == x);
                        } else if k > pos {
                            assert(before[k - 1] == x);
                        }
                    }
                    if before.contains(x) {
                        let k = choose|k: int| 0 <= k < before.len() && before[k] == x;
                        if k < pos {
                            assert(after[k] == x);
                        } else {
                            assert(after[k + 1] == x);
                        }
                    }
                    if x == t {
                        assert(after[pos as int] == x);
                    }
                }
                assert forall|a: int, b: int| 0 <= a < b < after.len() implies triple_lt(
                    after[a],
                    after[b],
                ) by {
                    let a0 = if a < pos { a } else { a - 1 };
                    let b0 = if b < pos { b } else { b - 1 };
                    if a != pos && b != pos {
                        assert(after[a] == before[a0] && after[b] == before[b0]);
                        assert(triple_lt(before[a0], before[b0]));
                    } else if a == pos {
                        assert(after[b] == before[b - 1]);
                        if b - 1 > pos {
                            assert(triple_lt(before[pos as int], before[b - 1]));
                        }
                    } else {
                        assert(after[a] == before[a]);
                        assert(triple_lt(before[a], t));
                    }
                }
            }
        }
        i += 1;
    }
    assert(rel@.take(i as int) =~= rel@);
    sorted
}

/// Two strictly ascending sequences of triples with the same elements are
/// the same sequence: the ascending order is canonical.
pub proof fn lemma_ascending_triples_are_canonical<A: Atom, B: Atom, C: Atom>(
    s: Seq<(A, B, C)>,
    t: Seq<(A, B, C)>,
)
    requires
        ascending_triples(s),
        ascending_triples(t),
        forall|x: (A, B, C)| s.contains(x) <==> t.contains(x),
    ensures
        s == t,
    decreases s.len(),
{
    if s.len() == 0 {
        if t.len() > 0 {
            assert(t.contains(t[0]));
        }
        assert(s =~= t);
    } else {
        assert(s.contains(s[0]));
        assert(t.len() > 0);
        assert(t.contains(t[0]));
        let i = choose|i: int| 0 <= i < t.len() && t[i] == s[0];
        let j = choose|j: int| 0 <= j < s.len() && s[j] == t[0];
        assert(i == 0) by {
            if i > 0 {
                assert(triple_lt(t[0], t[i]));
                if j > 0 {
                    assert(triple_lt(s[0], s[j]));
                }
            }
        }
        let s1 = s.drop_first();
        let t1 = t.drop_first();
        assert forall|x: (A, B, C)| s1.contains(x) <==> t1.contains(x) by {
            if s1.contains(x) {
                let k = choose|k: int| 0 <= k < s1.len() && s1[k] == x;
                assert(s[k + 1] == x);
                assert(s.contains(x));
                let m = choose|m: int| 0 <= m < t.len() && t[m] == x;
                assert(triple_lt(s[0], s[k + 1]));
                assert(m != 0);
                assert(t1[m - 1] == x);
            }
            if t1.contains(x) {
                let k = choose|k: int| 0 <= k < t1.len() && t1[k] == x;
                assert(t[k + 1] == x);
                assert(t.contains(x));
                let m = choose|m: int| 0 <= m < s.len() && s[m] == x;
                assert(triple_lt(t[0], t[k + 1]));
                assert(m != 0);
                assert(s1[m - 1] == x);
            }
        }
        assert(ascending_triples(s1)) by {
            assert forall|a: int, b: int| 0 <= a < b < s1.len() implies triple_lt(
                s1[a],
                s1[b],
            ) by {
                assert(s1[a] == s[a + 1] && s1[b] == s[b + 1]);
                assert(triple_lt(s[a + 1], s[b + 1]));
            }
        }
        assert(ascending_triples(t1)) by {
            assert forall|a: int, b: int| 0 <= a < b < t1.len() implies triple_lt(
                t1[a],
                t1[b],
            ) by {
                assert(t1[a] == t[a + 1] && t1[b] == t[b + 1]);
                assert(triple_lt(t[a + 1], t[b + 1]));
            }
        }
        lemma_ascending_triples_are_canonical(s1, t1);
        assert(s =~= seq![s[0]] + s1);
        assert(t =~= seq![t[0]] + t1);
    }
}

/// Two strictly ascending sequences of pairs with the same elements are the
/// same sequence: the ascending order is canonical.
pub proof fn lemma_ascending_pairs_are_canonical<A: Atom, B: Atom>(s: Seq<(A, B)>, t: Seq<(A, B)>)
    requires
        ascending_pairs(s),
        ascending_pairs(t),
        forall|x: (A, B)| s.contains(x) <==> t.contains(x),
    ensures
        s == t,
    decreases s.len(),
{
    if s.len() == 0 {
        if t.len() > 0 {
            assert(t.contains(t[0]));
        }
        assert(s =~= t);
    } else {
        assert(s.contains(s[0]));
        assert(t.len() > 0);
        assert(t.contains(t[0]));
        let i = choose|i: int| 0 <= i < t.len() && t[i] == s[0];
        let j = choose|j: int| 0 <= j < s.len() && s[j] == t[0];
        assert(i == 0) by {
            if i > 0 {
                assert(pair_lt(t[0], t[i]));
                if j > 0 {
                    assert(pair_lt(s[0], s[j]));
                }
            }
        }
        let s1 = s.drop_first();
        let t1 = t.drop_first();
        assert forall|x: (A, B)| s1.contains(x) <==> t1.contains(x) by {
            if s1.contains(x) {
                let k = choose|k: int| 0 <= k < s1.len() && s1[k] == x;
                assert(s[k + 1] == x);
                assert(s.contains(x));
                let m = choose|m: int| 0 <= m < t.len() && t[m] == x;
                assert(pair_lt(s[0], s[k + 1]));
                assert(m != 0);
                assert(t1[m - 1] == x);
            }
            if t1.contains(x) {
                let k = choose|k: int| 0 <= k < t1.len() && t1[k] == x;
                assert(t[k + 1] == x);
                assert(t.contains(x));
                let m = choose|m: int| 0 <= m < s.len() && s[m] == x;
                assert(pair_lt(t[0], t[k + 1]));
                assert(m != 0);
                assert(s1[m - 1] == x);
            }
        }
        assert(ascending_pairs(s1)) by {
            assert forall|a: int, b: int| 0 <= a < b < s1.len() implies pair_lt(s1[a], s1[b]) by {
                assert(s1[a] == s[a + 1] && s1[b] == s[b + 1]);
                assert(pair_lt(s[a + 1], s[b + 1]));
            }
        }
        assert(ascending_pairs(t1)) by {
            assert forall|a: int, b: int| 0 <= a < b < t1.len() implies pair_lt(t1[a], t1[b]) by {
                assert(t1[a] == t[a + 1] && t1[b] == t[b + 1]);
                assert(pair_lt(t[a + 1], t[b + 1]));
            }
        }
        lemma_ascending_pairs_are_canonical(s1, t1);
        assert(s =~= seq![s[0]] + s1);
        assert(t =~= seq![t[0]] + t1);
    }
}

} // verus!

//! Paths through the graph and their canonical total order.
use vstd::prelude::*;
use crate::graph::{Edge, Graph, end_cell};

verus! {

/// An ordered sequence of unit edges together with its aggregated cost.
#[derive(Debug, Clone)]
pub struct Path {
    pub edges: Vec<Edge>,
    pub cost: u64,
}

impl View for Path {
    type V = (Seq<Edge>, u64);

    open spec fn view(&self) -> (Seq<Edge>, u64) {
        (self.edges@, self.cost)
    }
}

/// The views of a sequence of paths.
pub open spec fn paths_view(s: Seq<Path>) -> Seq<(Seq<Edge>, u64)> {
    s.map_values(|p: Path| p@)
}

/// Unit edges are ordered by origin cell, then by destination cell.
pub open spec fn edge_le(a: Edge, b: Edge) -> bool {
    a.origin < b.origin || (a.origin == b.origin && a.destination <= b.destination)
}

/// Lexicographic order of edge sequences.
pub open spec fn edges_le(a: Seq<Edge>, b: Seq<Edge>) -> bool
    decreases a.len(),
{
    if a.len() == 0 {
        true
    } else if b.len() == 0 {
        false
    } else if a[0] == b[0] {
        edges_le(a.drop_first(), b.drop_first())
    } else {
        edge_le(a[0], b[0])
    }
}

/// The cell a path ends in; absent for a path without edges.
pub open spec fn spec_destination(p: (Seq<Edge>, u64)) -> Option<u64> {
    if p.0.len() == 0 {
        None
    } else {
        Some(p.0.last().destination)
    }
}

/// An absent destination comes first.
pub open spec fn destination_le(a: Option<u64>, b: Option<u64>) -> bool {
    match (a, b) {
        (None, _) => true,
        (Some(_), None) => false,
        (Some(x), Some(y)) => x <= y,
    }
}

/// The canonical order of paths: by cost, then by destination cell, then by
/// the sequence of edges.
pub open spec fn path_le(a: (Seq<Edge>, u64), b: (Seq<Edge>, u64)) -> bool {
    ||| a.1 < b.1
    ||| (a.1 == b.1 && spec_destination(a) != spec_destination(b) && destination_le(
        spec_destination(a),
        spec_destination(b),
    ))
    ||| (a.1 == b.1 && spec_destination(a) == spec_destination(b) && edges_le(a.0, b.0))
}

/// Each path of `s` is ordered before the next one.
pub open spec fn is_sorted(s: Seq<(Seq<Edge>, u64)>) -> bool {
    forall|i: int| 0 <= i < s.len() - 1 ==> path_le(#[trigger] s[i], s[i + 1])
}

/// `p` walks the graph from `start` and costs the sum of its unit edges'
/// weights.
pub open spec fn is_route(g: Graph, start: u64, p: (Seq<Edge>, u64)) -> bool {
    &&& g.is_path_from(start, p.0)
    &&& p.1 as int == g.path_weight(p.0)
}

/// The cell `p` leads to when walked from `start`.
pub open spec fn route_end(start: u64, p: (Seq<Edge>, u64)) -> u64 {
    end_cell(start, p.0)
}

/// Any two edge sequences are ordered one way or the other.
pub proof fn lemma_edges_le_total(a: Seq<Edge>, b: Seq<Edge>)
    ensures
        edges_le(a, b) || edges_le(b, a),
    decreases a.len(),
{
    if a.len() > 0 && b.len() > 0 && a[0] == b[0] {
        lemma_edges_le_total(a.drop_first(), b.drop_first());
    }
}

/// Any two paths are ordered one way or the other.
pub proof fn lemma_path_le_total(a: (Seq<Edge>, u64), b: (Seq<Edge>, u64))
    ensures
        path_le(a, b) || path_le(b, a),
{
    lemma_edges_le_total(a.0, b.0);
}

proof fn lemma_edges_le_refl(a: Seq<Edge>)
    ensures
        edges_le(a, a),
    decreases a.len(),
{
    if a.len() > 0 {
        lemma_edges_le_refl(a.drop_first());
    }
}

proof fn lemma_edges_le_antisymmetric(a: Seq<Edge>, b: Seq<Edge>)
    requires
        edges_le(a, b),
        edges_le(b, a),
    ensures
        a == b,
    decreases a.len(),
{
    if a.len() == 0 {
        assert(a =~= b);
    } else {
        assert(b.len() > 0);
        if a[0] == b[0] {
            lemma_edges_le_antisymmetric(a.drop_first(), b.drop_first());
            assert(a =~= seq![a[0]] + a.drop_first());
            assert(b =~= seq![b[0]] + b.drop_first());
        }
    }
}

proof fn lemma_edges_le_transitive(a: Seq<Edge>, b: Seq<Edge>, c: Seq<Edge>)
    requires
        edges_le(a, b),
        edges_le(b, c),
    ensures
        edges_le(a, c),
    decreases a.len(),
{
    if a.len() > 0 && a[0] == b[0] && b[0] == c[0] {
        lemma_edges_le_transitive(a.drop_first(), b.drop_first(), c.drop_first());
    }
}

/// The canonical order relates every path to itself.
pub proof fn lemma_path_le_reflexive(a: (Seq<Edge>, u64))
    ensures
        path_le(a, a),
{
    lemma_edges_le_refl(a.0);
}

/// Two paths ordered both ways are equal: the canonical order leaves no ties.
pub proof fn lemma_path_le_antisymmetric(a: (Seq<Edge>, u64), b: (Seq<Edge>, u64))
    requires
        path_le(a, b),
        path_le(b, a),
    ensures
        a == b,
{
    if spec_destination(a) == spec_destination(b) {
        lemma_edges_le_antisymmetric(a.0, b.0);
    }
}

/// The canonical order is transitive.
pub proof fn lemma_path_le_transitive(a: (Seq<Edge>, u64), b: (Seq<Edge>, u64), c: (Seq<Edge>, u64))
    requires
        path_le(a, b),
        path_le(b, c),
    ensures
        path_le(a, c),
{
    if a.1 == b.1 && b.1 == c.1 && spec_destination(a) == spec_destination(b) && spec_destination(b)
        == spec_destination(c) {
        lemma_edges_le_transitive(a.0, b.0, c.0);
    }
}

/// The first path of a sorted list is ordered before every path of it.
pub proof fn lemma_sorted_first_least(s: Seq<(Seq<Edge>, u64)>, i: int)
    requires
        is_sorted(s),
        0 <= i < s.len(),
    ensures
        path_le(s[0], s[i]),
    decreases i,
{
    if i == 0 {
        lemma_path_le_reflexive(s[0]);
    } else {
        lemma_sorted_first_least(s, i - 1);
        lemma_path_le_transitive(s[0], s[i - 1], s[i]);
    }
}

/// Two lists of paths in canonical order that hold the same paths, each as
/// often, are the same list: the output order of a search is determined by
/// the paths it found.
pub proof fn lemma_sorted_is_determined(s1: Seq<(Seq<Edge>, u64)>, s2: Seq<(Seq<Edge>, u64)>)
    requires
        is_sorted(s1),
        is_sorted(s2),
        s1.to_multiset() == s2.to_multiset(),
    ensures
        s1 == s2,
    decreases s1.len(),
{
    s1.to_multiset_ensures();
    s2.to_multiset_ensures();
    assert(s1.len() == s1.to_multiset().len());
    assert(s2.len() == s2.to_multiset().len());
    if s1.len() == 0 {
        assert(s1 =~= s2);
    } else {
        assert(s1.contains(s1[0]));
        assert(s1.to_multiset().count(s1[0]) > 0);
        assert(s2.contains(s1[0]));
        let j = choose|j: int| 0 <= j < s2.len() && s2[j] == s1[0];
        lemma_sorted_first_least(s2, j);
        assert(s2.contains(s2[0]));
        assert(s2.to_multiset().count(s2[0]) > 0);
        assert(s1.contains(s2[0]));
        let i = choose|i: int| 0 <= i < s1.len() && s1[i] == s2[0];
        lemma_sorted_first_least(s1, i);
        lemma_path_le_antisymmetric(s1[0], s2[0]);
        let t1 = s1.remove(0);
        let t2 = s2.remove(0);
        assert(t1.to_multiset() == s1.to_multiset().remove(s1[0]));
        assert(t2.to_multiset() == s2.to_multiset().remove(s2[0]));
        assert forall|k: int| 0 <= k < t1.len() - 1 implies path_le(#[trigger] t1[k], t1[k + 1]) by {
            assert(t1[k] == s1[k + 1] && t1[k + 1] == s1[k + 2]);
        }
        assert forall|k: int| 0 <= k < t2.len() - 1 implies path_le(#[trigger] t2[k], t2[k + 1]) by {
            assert(t2[k] == s2[k + 1] && t2[k + 1] == s2[k + 2]);
        }
        lemma_sorted_is_determined(t1, t2);
        assert(s1 =~= s2) by {
            assert forall|k: int| 0 <= k < s1.len() implies s1[k] == s2[k] by {
                if k > 0 {
                    assert(s1[k] == t1[k - 1] && s2[k] == t2[k - 1]);
                }
            }
        }
    }
}

impl Path {
    /// A copy of the path.
    pub fn duplicate(&self) -> (r: Path)
        ensures
            r@ == self@,
    {
        let mut edges: Vec<Edge> = Vec::new();
        let mut i: usize = 0;
        while i < self.edges.len()
            invariant
                i <= self.edges@.len(),
                edges@ == self.edges@.subrange(0, i as int),
            decreases self.edges@.len() - i,
        {
            edges.push(self.edges[i]);
            i = i + 1;
            assert(edges@ =~= self.edges@.subrange(0, i as int));
        }
        assert(edges@ =~= self.edges@);
        Path { edges, cost: self.cost }
    }

    /// The cell the path ends in, absent when the path has no edges.
    pub fn destination_cell(&self) -> (r: Option<u64>)
        ensures
            r == spec_destination(self@),
    {
        if self.edges.len() == 0 {
            None
        } else {
            Some(self.edges[self.edges.len() - 1].destination)
        }
    }
}

fn edge_less_or_equal(a: Edge, b: Edge) -> (r: bool)
    ensures
        r == edge_le(a, b),
{
    a.origin < b.origin || (a.origin == b.origin && a.destination <= b.destination)
}

fn edges_less_or_equal(a: &Vec<Edge>, b: &Vec<Edge>) -> (r: bool)
    ensures
        r == edges_le(a@, b@),
{
    let mut i: usize = 0;
    assert(a@.skip(0) =~= a@ && b@.skip(0) =~= b@);
    while i < a.len()
        invariant
            i <= a@.len(),
            i <= b@.len(),
            edges_le(a@, b@) == edges_le(a@.skip(i as int), b@.skip(i as int)),
        decreases a@.len() - i,
    {
        if i >= b.len() {
            return false;
        }
        assert(a@.skip(i as int)[0] == a@[i as int]);
        assert(b@.skip(i as int)[0] == b@[i as int]);
        assert(a@.skip(i as int).drop_first() =~= a@.skip(i + 1));
        assert(b@.skip(i as int).drop_first() =~= b@.skip(i + 1));
        if a[i] != b[i] {
            return edge_less_or_equal(a[i], b[i]);
        }
        i = i + 1;
    }
    assert(a@.skip(i as int).len() == 0);
    true
}

/// Decides the canonical order of two paths.
pub fn path_less_or_equal(a: &Path, b: &Path) -> (r: bool)
    ensures
        r == path_le(a@, b@),
{
    if a.cost != b.cost {
        return a.cost < b.cost;
    }
    let da = a.destination_cell();
    let db = b.destination_cell();
    if da != db {
        match (da, db) {
            (None, _) => true,
            (Some(_), None) => false,
            (Some(x), Some(y)) => x <= y,
        }
    } else {
        edges_less_or_equal(&a.edges, &b.edges)
    }
}

/// Sorts paths into the canonical order.
pub fn sort_paths(paths: Vec<Path>) -> (r: Vec<Path>)
    ensures
        r@.len() == paths@.len(),
        is_sorted(paths_view(r@)),
        forall|i: int| 0 <= i < r@.len() ==> paths@.contains(#[trigger] r@[i]),
        forall|j: int| 0 <= j < paths@.len() ==> r@.contains(#[trigger] paths@[j]),
        r@.to_multiset() == paths@.to_multiset(),
{
    let mut sorted: Vec<Path> = Vec::new();
    let mut rest = paths;
    let ghost all = rest@;
    proof {
        assert(all.subrange(all.len() as int, all.len() as int) =~= sorted@);
    }
    while rest.len() > 0
        invariant
            is_sorted(paths_view(sorted@)),
            sorted@.len() + rest@.len() == all.len(),
            rest@ == all.subrange(0, rest@.len() as int),
            forall|i: int| 0 <= i < sorted@.len() ==> all.contains(#[trigger] sorted@[i]),
            forall|j: int| rest@.len() <= j < all.len() ==> sorted@.contains(#[trigger] all[j]),
            sorted@.to_multiset() == all.subrange(rest@.len() as int, all.len() as int).to_multiset(),
        decreases rest@.len(),
    {
        let p = rest.pop().unwrap();
        assert(all[rest@.len() as int] == p);
        assert(rest@ =~= all.subrange(0, rest@.len() as int));
        let mut pos: usize = 0;
        while pos < sorted.len() && !path_less_or_equal(&p, &sorted[pos])
            invariant
                pos <= sorted@.len(),
                pos > 0 ==> path_le(sorted@[pos - 1]@, p@),
            decreases sorted@.len() - pos,
        {
            proof {
                lemma_path_le_total(p@, sorted@[pos as int]@);
            }
            pos = pos + 1;
        }
        let ghost before = sorted@;
        sorted.insert(pos, p);
        proof {
            let n = all.len() as int;
            let l = rest@.len() as int;
            lemma_insert_multiset(before, pos as int, p);
            lemma_insert_multiset(all.subrange(l + 1, n), 0, p);
            assert(all.subrange(l, n) =~= all.subrange(l + 1, n).insert(0, p));
        }
        assert forall|i: int| 0 <= i < sorted@.len() - 1 implies path_le(
            #[trigger] paths_view(sorted@)[i],
            paths_view(sorted@)[i + 1],
        ) by {
            let bv = paths_view(before);
            if i < pos as int - 1 {
                assert(sorted@[i] == before[i] && sorted@[i + 1] == before[i + 1]);
                assert(bv[i] == before[i]@ && bv[i + 1] == before[i + 1]@);
            } else if i == pos as int - 1 {
                assert(sorted@[i] == before[i] && sorted@[i + 1] == p);
            } else if i == pos as int {
                assert(sorted@[i] == p && sorted@[i + 1] == before[i]);
            } else {
                assert(sorted@[i] == before[i - 1] && sorted@[i + 1] == before[i]);
                assert(bv[i - 1] == before[i - 1]@ && bv[i] == before[i]@);
            }
        }
        assert forall|j: int| rest@.len() <= j < all.len() implies sorted@.contains(#[trigger] all[j]) by {
            if j == rest@.len() {
                assert(sorted@[pos as int] == all[j]);
            } else {
                assert(before.contains(all[j]));
                let t = choose|t: int| 0 <= t < before.len() && before[t] == all[j];
                if t < pos {
                    assert(sorted@[t] == all[j]);
                } else {
                    assert(sorted@[t + 1] == all[j]);
                }
            }
        }
        assert forall|i: int| 0 <= i < sorted@.len() implies all.contains(#[trigger] sorted@[i]) by {
            if i < pos as int {
                assert(sorted@[i] == before[i]);
            } else if i > pos as int {
                assert(sorted@[i] == before[i - 1]);
            } else {
                assert(all[rest@.len() as int] == sorted@[i]);
            }
        }
    }
    assert(rest@.len() == 0);
    assert(all.subrange(0, all.len() as int) =~= all);
    sorted
}

proof fn lemma_insert_multiset(s: Seq<Path>, i: int, a: Path)
    requires
        0 <= i <= s.len(),
    ensures
        s.insert(i, a).to_multiset() == s.to_multiset().insert(a),
{
    broadcast use vstd::multiset::group_multiset_axioms;

    let t = s.insert(i, a);
    t.to_multiset_ensures();
    assert(t.remove(i) =~= s);
    assert(t[i] == a);
    assert(t.contains(a));
    assert(t.to_multiset() =~= s.to_multiset().insert(a));
}

} // verus!

//! Single-source shortest-path search with the long-edge optimization.
use vstd::prelude::*;
use indexmap::IndexMap;
use crate::destination_set::DestinationSet;
use crate::graph::{Edge, EdgeRecord, Graph, end_cell};
use crate::parent_table::{table_cell_at, table_cells, table_index_of, table_insert, table_new};
use crate::path::{
    Path, destination_le, is_route, is_sorted, lemma_path_le_antisymmetric, lemma_sorted_first_least,
    path_le, paths_view, route_end, sort_paths, spec_destination,
};

verus! {

/// The transition that led to a cell: a unit edge or a long edge, each given
/// by the index of its record in the graph.
#[derive(Debug, Clone, Copy, PartialEq, Eq, Structural)]
pub enum DijkstraEdge {
    Single(usize),
    Long(usize),
}

impl DijkstraEdge {
    pub open spec fn record(self) -> usize {
        match self {
            DijkstraEdge::Single(k) => k,
            DijkstraEdge::Long(k) => k,
        }
    }

    /// The transition refers to a record of `g`, and a long one to a record
    /// that has a long edge.
    pub open spec fn valid(self, g: Graph) -> bool {
        &&& self.record() < g.edges@.len()
        &&& (self is Long ==> g.edges@[self.record() as int].longedge is Some)
    }

    /// The unit edges the transition stands for, in travel order.
    pub open spec fn spec_edges(self, g: Graph) -> Seq<Edge> {
        match self {
            DijkstraEdge::Single(k) => seq![g.edges@[k as int].edge],
            DijkstraEdge::Long(k) => g.edges@[k as int].longedge->Some_0.0.edges@,
        }
    }

    pub open spec fn spec_weight(self, g: Graph) -> int {
        match self {
            DijkstraEdge::Single(k) => g.edges@[k as int].weight as int,
            DijkstraEdge::Long(k) => g.edges@[k as int].longedge->Some_0.1 as int,
        }
    }

    pub open spec fn spec_origin(self, g: Graph) -> u64 {
        self.spec_edges(g)[0].origin
    }

    pub open spec fn spec_destination(self, g: Graph) -> u64 {
        self.spec_edges(g).last().destination
    }

    /// A valid transition is a non-empty walk of `g` from its origin that
    /// weighs as much as its unit edges together.
    pub proof fn lemma_valid(self, g: Graph)
        requires
            g.wf(),
            self.valid(g),
        ensures
            self.spec_edges(g).len() >= 1,
            g.is_path_from(self.spec_origin(g), self.spec_edges(g)),
            g.path_weight(self.spec_edges(g)) == self.spec_weight(g),
    {
        let k = self.record() as int;
        assert(g.record_wf(g.edges@[k]));
        match self {
            DijkstraEdge::Single(_) => {
                g.lemma_record_weight(k);
                let s = self.spec_edges(g);
                assert(s.drop_last() =~= Seq::<Edge>::empty());
                assert(g.path_weight(s.drop_last()) == 0);
                assert(s.last() == g.edges@[k].edge);
            },
            DijkstraEdge::Long(_) => {},
        }
    }

    pub fn origin_cell(&self, g: &Graph) -> (r: u64)
        requires
            g.wf(),
            self.valid(*g),
        ensures
            r == self.spec_origin(*g),
    {
        self.first_edge(g).origin
    }

    pub fn destination_cell(&self, g: &Graph) -> (r: u64)
        requires
            g.wf(),
            self.valid(*g),
        ensures
            r == self.spec_destination(*g),
    {
        self.last_edge(g).destination
    }

    pub fn first_edge(&self, g: &Graph) -> (r: Edge)
        requires
            g.wf(),
            self.valid(*g),
        ensures
            r == self.spec_edges(*g)[0],
    {
        proof {
            self.lemma_valid(*g);
        }
        match self {
            DijkstraEdge::Single(k) => g.edges[*k].edge,
            DijkstraEdge::Long(k) => match &g.edges[*k].longedge {
                Some((le, _)) => le.in_edge(),
                None => g.edges[*k].edge,
            },
        }
    }

    pub fn last_edge(&self, g: &Graph) -> (r: Edge)
        requires
            g.wf(),
            self.valid(*g),
        ensures
            r == self.spec_edges(*g).last(),
    {
        proof {
            self.lemma_valid(*g);
            assert(g.record_wf(g.edges@[self.record() as int]));
        }
        match self {
            DijkstraEdge::Single(k) => g.edges[*k].edge,
            DijkstraEdge::Long(k) => match &g.edges[*k].longedge {
                Some((le, _)) => le.out_edge(),
                None => g.edges[*k].edge,
            },
        }
    }

    /// The unit edges the transition stands for.
    fn unit_edges(&self, g: &Graph) -> (r: Vec<Edge>)
        requires
            g.wf(),
            self.valid(*g),
        ensures
            r@ == self.spec_edges(*g),
    {
        match self {
            DijkstraEdge::Single(k) => vec![g.edges[*k].edge],
            DijkstraEdge::Long(k) => match &g.edges[*k].longedge {
                Some((le, _)) => {
                    let mut out: Vec<Edge> = Vec::new();
                    let mut i: usize = 0;
                    while i < le.edges.len()
                        invariant
                            i <= le.edges@.len(),
                            out@ == le.edges@.subrange(0, i as int),
                        decreases le.edges@.len() - i,
                    {
                        out.push(le.edges[i]);
                        i = i + 1;
                        assert(out@ =~= le.edges@.subrange(0, i as int));
                    }
                    assert(out@ =~= le.edges@);
                    out
                },
                None => Vec::new(),
            },
        }
    }
}

/// The entry of the parent table for one explored cell.
pub struct DijkstraEntry {
    /// The best cumulative weight known for the cell.
    pub weight: u64,
    /// The table index of the predecessor; `usize::MAX` for the start cell.
    pub index: usize,
    /// The transition that led to the cell; absent for the start cell.
    pub edge: Option<DijkstraEdge>,
}

/// The cells a search from `start` may ever enter.
pub open spec fn universe(g: Graph, start: u64) -> Set<u64> {
    g.edges@.map_values(|r: EdgeRecord| r.edge.destination).to_set().insert(start)
}

pub open spec fn weight_sum(s: Seq<DijkstraEntry>) -> int
    decreases s.len(),
{
    if s.len() == 0 {
        0
    } else {
        weight_sum(s.drop_last()) + s.last().weight
    }
}

proof fn lemma_weight_sum_update(s: Seq<DijkstraEntry>, j: int, v: DijkstraEntry)
    requires
        0 <= j < s.len(),
    ensures
        weight_sum(s.update(j, v)) == weight_sum(s) - s[j].weight + v.weight,
    decreases s.len(),
{
    if j == s.len() - 1 {
        assert(s.update(j, v).drop_last() =~= s.drop_last());
    } else {
        lemma_weight_sum_update(s.drop_last(), j, v);
        assert(s.update(j, v).drop_last() =~= s.drop_last().update(j, v));
    }
}

proof fn lemma_weight_sum_nonneg(s: Seq<DijkstraEntry>)
    ensures
        weight_sum(s) >= 0,
    decreases s.len(),
{
    if s.len() > 0 {
        lemma_weight_sum_nonneg(s.drop_last());
    }
}

/// The lexicographic key `(weight, stamp)` of entry `i`.
pub open spec fn key_lt(e: Seq<DijkstraEntry>, st: Seq<nat>, a: int, b: int) -> bool {
    e[a].weight < e[b].weight || (e[a].weight == e[b].weight && st[a] < st[b])
}

/// The parent table of a search from `start` on `g`: the start cell sits at
/// index 0 with weight 0; every other entry names a predecessor by index and
/// a valid transition from the predecessor's cell to its own, and weighs at
/// least as much as the predecessor plus the transition. Along parent links
/// the key `(weight, stamp)` strictly decreases, so every chain of parents
/// ends at the start cell.
pub open spec fn table_ok(
    g: Graph,
    start: u64,
    dests: Set<u64>,
    cells: Seq<u64>,
    e: Seq<DijkstraEntry>,
    st: Seq<nat>,
) -> bool {
    &&& cells.len() == e.len()
    &&& st.len() == e.len()
    &&& e.len() >= 1
    &&& cells.no_duplicates()
    &&& cells[0] == start
    &&& e[0].weight == 0
    &&& e[0].edge is None
    &&& forall|i: int| 0 <= i < cells.len() ==> universe(g, start).contains(#[trigger] cells[i])
    &&& forall|i: int| 1 <= i < e.len() ==> entry_ok(g, dests, cells, e, st, i)
}

pub open spec fn entry_ok(
    g: Graph,
    dests: Set<u64>,
    cells: Seq<u64>,
    e: Seq<DijkstraEntry>,
    st: Seq<nat>,
    i: int,
) -> bool {
    let p = e[i].index as int;
    let step = e[i].edge->Some_0;
    &&& 0 <= p < e.len()
    &&& e[i].edge is Some
    &&& step.valid(g)
    &&& step.spec_origin(g) == cells[p]
    &&& step.spec_destination(g) == cells[i]
    &&& e[i].weight == e[p].weight + step.spec_weight(g)
    &&& key_lt(e, st, p, i)
    &&& (step is Long ==> forall|c: u64|
        g.edges@[step.record() as int].longedge->Some_0.0.interior_contains(c) ==> !dests.contains(c))
}

/// Every entry but the start names a predecessor that was expanded.
pub open spec fn parents_expanded(e: Seq<DijkstraEntry>, expanded: Set<int>) -> bool {
    forall|i: int| 1 <= i < e.len() ==> expanded.contains(#[trigger] e[i].index as int)
}

/// Every expanded entry lies in the table, and when its cell is a
/// destination it has been reached.
pub open spec fn expanded_reached(
    cells: Seq<u64>,
    e: Seq<DijkstraEntry>,
    expanded: Set<int>,
    dests: Set<u64>,
    reached: Seq<usize>,
) -> bool {
    forall|x: int|
        #[trigger] expanded.contains(x) ==> 0 <= x < e.len() && (dests.contains(cells[x])
            ==> reached.contains(x as usize))
}

/// Each frontier entry carries at least the weight of its table entry, and
/// at least the weight `level` of the latest expansion.
pub open spec fn frontier_above(frontier: Seq<(u64, usize)>, e: Seq<DijkstraEntry>, level: int) -> bool {
    forall|x: (u64, usize)|
        #[trigger] frontier.contains(x) ==> x.1 < e.len() && x.0 >= e[x.1 as int].weight && x.0 >= level
}

/// No expanded entry weighs more than `level`.
pub open spec fn expanded_below(e: Seq<DijkstraEntry>, expanded: Set<int>, level: int) -> bool {
    forall|x: int| #[trigger] expanded.contains(x) ==> 0 <= x < e.len() && e[x].weight <= level
}

/// A destination `c` is the cell of some expanded entry.
pub open spec fn covered(c: u64, dests: Set<u64>, cells: Seq<u64>, expanded: Set<int>) -> bool {
    dests.contains(c) ==> exists|x: int| #[trigger] expanded.contains(x) && cells[x] == c
}

/// The transition the search takes along record `k`.
pub open spec fn spec_choice(g: Graph, dests: Set<u64>, k: int) -> DijkstraEdge {
    match g.edges@[k].longedge {
        Some((le, _)) => if forall|c: u64| le.interior_contains(c) ==> !dests.contains(c) {
            DijkstraEdge::Long(k as usize)
        } else {
            DijkstraEdge::Single(k as usize)
        },
        None => DijkstraEdge::Single(k as usize),
    }
}

pub open spec fn long_of(g: Graph, k: int) -> Seq<Edge> {
    g.edges@[k].longedge->Some_0.0.edges@
}

/// Some expanded entry holds cell `c` with a weight of at most `bound`.
pub open spec fn settled_at(
    cells: Seq<u64>,
    e: Seq<DijkstraEntry>,
    expanded: Set<int>,
    c: u64,
    bound: int,
) -> bool {
    exists|t: int| #[trigger] expanded.contains(t) && 0 <= t < e.len() && cells[t] == c && e[t].weight <= bound
}

/// Cell `c` lies inside a long edge the search takes, from an expanded
/// origin whose weight plus the chain up to `c` is at most `bound`.
pub open spec fn inside_long(
    g: Graph,
    dests: Set<u64>,
    cells: Seq<u64>,
    e: Seq<DijkstraEntry>,
    expanded: Set<int>,
    c: u64,
    bound: int,
) -> bool {
    exists|k: int, m: int|
        0 <= k < g.edges@.len() && #[trigger] spec_choice(g, dests, k) is Long && 0 <= m < long_of(g, k).len()
            - 1 && (#[trigger] long_of(g, k)[m]).destination == c && settled_at(
            cells,
            e,
            expanded,
            g.edges@[k].edge.origin,
            bound - g.path_weight(long_of(g, k).subrange(0, m + 1)),
        )
}

/// Entry `x` has offered the end of the transition of record `k`, unless that
/// weight overflows.
pub open spec fn relaxed(
    g: Graph,
    dests: Set<u64>,
    cells: Seq<u64>,
    e: Seq<DijkstraEntry>,
    x: int,
    k: int,
) -> bool {
    let st = spec_choice(g, dests, k);
    g.edges@[k].edge.origin == cells[x] && e[x].weight + st.spec_weight(g) <= u64::MAX ==> exists|t: int|
        0 <= t < e.len() && cells[t] == st.spec_destination(g) && #[trigger] e[t].weight <= e[x].weight
            + st.spec_weight(g)
}

/// Every expanded entry has offered the ends of all transitions leaving it.
pub open spec fn all_relaxed(
    g: Graph,
    dests: Set<u64>,
    cells: Seq<u64>,
    e: Seq<DijkstraEntry>,
    expanded: Set<int>,
) -> bool {
    forall|x: int, k: int|
        #[trigger] expanded.contains(x) && 0 <= k < g.edges@.len() ==> #[trigger] relaxed(g, dests, cells, e, x, k)
}

/// Every entry that is not expanded, but `skip`, waits in the frontier with
/// its current weight.
pub open spec fn waiting(
    e: Seq<DijkstraEntry>,
    expanded: Set<int>,
    frontier: Seq<(u64, usize)>,
    skip: int,
) -> bool {
    forall|t: int|
        0 <= t < e.len() && t != skip && !expanded.contains(t) ==> #[trigger] frontier.contains(
            (e[t].weight, t as usize),
        )
}

/// Every entry with a weight below `w` is expanded.
pub open spec fn settled_below(e: Seq<DijkstraEntry>, expanded: Set<int>, w: int) -> bool {
    forall|t: int| 0 <= t < e.len() && #[trigger] e[t].weight < w ==> expanded.contains(t)
}

/// An entry `t` with weight below `w` is expanded, when every frontier
/// element weighs at least `w` and every entry but `index` (of weight `w`)
/// waits in the frontier.
proof fn lemma_settles(
    e: Seq<DijkstraEntry>,
    expanded: Set<int>,
    frontier: Seq<(u64, usize)>,
    w: u64,
    index: int,
    t: int,
)
    requires
        waiting(e, expanded, frontier, index),
        forall|x: (u64, usize)| #[trigger] frontier.contains(x) ==> x.0 >= w,
        0 <= index < e.len(),
        e[index].weight == w,
        0 <= t < e.len(),
        e[t].weight < w,
        e.len() <= usize::MAX,
    ensures
        expanded.contains(t),
{
    if !expanded.contains(t) {
        assert(t != index);
        assert(frontier.contains((e[t].weight, t as usize)));
    }
}

proof fn lemma_settled_below(
    e: Seq<DijkstraEntry>,
    expanded: Set<int>,
    frontier: Seq<(u64, usize)>,
    w: u64,
    index: int,
)
    requires
        waiting(e, expanded, frontier, index),
        forall|x: (u64, usize)| #[trigger] frontier.contains(x) ==> x.0 >= w,
        0 <= index < e.len(),
        e[index].weight == w,
        e.len() <= usize::MAX,
    ensures
        settled_below(e, expanded, w as int),
{
    assert forall|t: int| 0 <= t < e.len() && #[trigger] e[t].weight < w implies expanded.contains(t) by {
        lemma_settles(e, expanded, frontier, w, index, t);
    }
}

/// Every walk along unit edges from the start that weighs less than `w` ends
/// in a settled cell, or inside a long edge the search takes.
proof fn lemma_cut(
    g: Graph,
    start: u64,
    dests: Set<u64>,
    cells: Seq<u64>,
    e: Seq<DijkstraEntry>,
    stamps: Seq<nat>,
    expanded: Set<int>,
    w: int,
    p: Seq<Edge>,
)
    requires
        g.wf(),
        g.long_edges_unbranched(),
        table_ok(g, start, dests, cells, e, stamps),
        e.len() <= usize::MAX,
        g.edges@.len() <= usize::MAX,
        all_relaxed(g, dests, cells, e, expanded),
        w <= u64::MAX + 1,
        settled_below(e, expanded, w),
        g.is_path_from(start, p),
        g.path_weight(p) < w,
    ensures
        settled_at(cells, e, expanded, end_cell(start, p), g.path_weight(p)) || inside_long(
            g,
            dests,
            cells,
            e,
            expanded,
            end_cell(start, p),
            g.path_weight(p),
        ),
    decreases p.len(),
{
    if p.len() == 0 {
        assert(e[0].weight < w);
        assert(expanded.contains(0));
    } else {
        let q = p.drop_last();
        let u = p.last();
        assert(g.is_path_from(start, q)) by {
            assert forall|i: int| 0 <= i < q.len() implies g.has_edge(#[trigger] q[i]) by {
                assert(q[i] == p[i]);
            }
            assert forall|i: int| 0 <= i < q.len() - 1 implies #[trigger] q[i].destination == q[i + 1].origin by {
                assert(q[i] == p[i] && q[i + 1] == p[i + 1]);
            }
        }
        assert(g.path_weight(p) == g.path_weight(q) + g.edge_weight(u));
        assert(g.has_edge(p[p.len() - 1]));
        let kk = choose|kk: int| 0 <= kk < g.edges@.len() && #[trigger] g.edges@[kk].edge == u;
        g.lemma_record_weight(kk);
        assert(g.edge_weight(u) >= 0);
        lemma_cut(g, start, dests, cells, e, stamps, expanded, w, q);
        let c0 = end_cell(start, q);
        assert(u.origin == c0) by {
            if q.len() > 0 {
                assert(q.last() == p[p.len() - 2]);
            }
        }
        assert(end_cell(start, p) == u.destination);
        let wq = g.path_weight(q);
        let wp = g.path_weight(p);
        assert(g.record_wf(g.edges@[kk]));
        if settled_at(cells, e, expanded, c0, wq) {
            let t0 = choose|t0: int|
                #[trigger] expanded.contains(t0) && 0 <= t0 < e.len() && cells[t0] == c0 && e[t0].weight <= wq;
            assert(relaxed(g, dests, cells, e, t0, kk));
            let st = spec_choice(g, dests, kk);
            st.lemma_valid(g);
            match st {
                DijkstraEdge::Single(_) => {
                    let t = choose|t: int|
                        0 <= t < e.len() && cells[t] == st.spec_destination(g) && #[trigger] e[t].weight
                            <= e[t0].weight + st.spec_weight(g);
                    assert(e[t].weight < w);
                    assert(settled_at(cells, e, expanded, end_cell(start, p), wp));
                },
                DijkstraEdge::Long(_) => {
                    let le = long_of(g, kk);
                    assert(le[0] == u);
                    let s1 = le.subrange(0, 1);
                    assert(s1.drop_last() =~= Seq::<Edge>::empty());
                    assert(g.path_weight(s1.drop_last()) == 0);
                    assert(g.path_weight(s1) == g.edge_weight(u));
                    if le.len() == 1 {
                        assert(le =~= s1);
                        let t = choose|t: int|
                            0 <= t < e.len() && cells[t] == st.spec_destination(g) && #[trigger] e[t].weight
                                <= e[t0].weight + st.spec_weight(g);
                        assert(e[t].weight < w);
                        assert(settled_at(cells, e, expanded, end_cell(start, p), wp));
                    } else {
                        assert(settled_at(cells, e, expanded, g.edges@[kk].edge.origin, wp - g.path_weight(s1)));
                        assert(long_of(g, kk)[0].destination == end_cell(start, p));
                        assert(inside_long(g, dests, cells, e, expanded, end_cell(start, p), wp));
                    }
                },
            }
        } else {
            let (k, m) = choose|k: int, m: int|
                0 <= k < g.edges@.len() && #[trigger] spec_choice(g, dests, k) is Long && 0 <= m < long_of(
                    g,
                    k,
                ).len() - 1 && (#[trigger] long_of(g, k)[m]).destination == c0 && settled_at(
                    cells,
                    e,
                    expanded,
                    g.edges@[k].edge.origin,
                    wq - g.path_weight(long_of(g, k).subrange(0, m + 1)),
                );
            let le = long_of(g, k);
            assert(g.record_wf(g.edges@[k]));
            assert(u == le[m + 1]);
            let s_m = le.subrange(0, m + 1);
            let s_n = le.subrange(0, m + 2);
            assert(s_n.drop_last() =~= s_m);
            assert(s_n.last() == u);
            if m + 1 < le.len() - 1 {
                assert(long_of(g, k)[m + 1].destination == end_cell(start, p));
                assert(wp - g.path_weight(s_n) == wq - g.path_weight(s_m));
                assert(inside_long(g, dests, cells, e, expanded, end_cell(start, p), wp));
            } else {
                assert(s_n =~= le);
                let x = choose|x: int|
                    #[trigger] expanded.contains(x) && 0 <= x < e.len() && cells[x] == g.edges@[k].edge.origin
                        && e[x].weight <= wq - g.path_weight(s_m);
                assert(relaxed(g, dests, cells, e, x, k));
                let st = spec_choice(g, dests, k);
                let t = choose|t: int|
                    0 <= t < e.len() && cells[t] == st.spec_destination(g) && #[trigger] e[t].weight
                        <= e[x].weight + st.spec_weight(g);
                assert(e[t].weight < w);
                assert(settled_at(cells, e, expanded, end_cell(start, p), wp));
            }
        }
    }
}

/// No walk along unit edges from `start` to the cell of entry `t` weighs
/// less than the entry.
pub open spec fn optimal_at(g: Graph, start: u64, cells: Seq<u64>, e: Seq<DijkstraEntry>, t: int) -> bool {
    forall|p: Seq<Edge>|
        #[trigger] g.is_path_from(start, p) && end_cell(start, p) == cells[t] ==> g.path_weight(p)
            >= e[t].weight
}

/// Every destination with a walk from `start` lighter than `w` is the cell of
/// a reached entry.
pub open spec fn covers_cheaper(
    g: Graph,
    start: u64,
    dests: Set<u64>,
    cells: Seq<u64>,
    reached: Seq<usize>,
    w: int,
) -> bool {
    forall|p: Seq<Edge>|
        #[trigger] g.is_path_from(start, p) && dests.contains(end_cell(start, p)) && g.path_weight(p) < w
            ==> exists|v: int| 0 <= v < reached.len() && cells[#[trigger] reached[v] as int] == end_cell(start, p)
}

/// When an entry of weight `w` leaves the frontier, every destination with a
/// lighter walk from the start has been reached.
proof fn lemma_cheaper_reached(
    g: Graph,
    start: u64,
    dests: Set<u64>,
    cells: Seq<u64>,
    e: Seq<DijkstraEntry>,
    stamps: Seq<nat>,
    expanded: Set<int>,
    frontier: Seq<(u64, usize)>,
    reached: Seq<usize>,
    w: u64,
    index: int,
)
    requires
        g.wf(),
        g.long_edges_unbranched(),
        table_ok(g, start, dests, cells, e, stamps),
        e.len() <= usize::MAX,
        g.edges@.len() <= usize::MAX,
        all_relaxed(g, dests, cells, e, expanded),
        waiting(e, expanded, frontier, index),
        forall|x: (u64, usize)| #[trigger] frontier.contains(x) ==> x.0 >= w,
        0 <= index < e.len(),
        e[index].weight == w,
        expanded_reached(cells, e, expanded, dests, reached),
    ensures
        covers_cheaper(g, start, dests, cells, reached, w as int),
{
    lemma_settled_below(e, expanded, frontier, w, index);
    lemma_covers(g, start, dests, cells, e, stamps, expanded, reached, w as int);
}

/// Where every entry lighter than `w` is expanded, every destination with a
/// walk from the start lighter than `w` has been reached.
proof fn lemma_covers(
    g: Graph,
    start: u64,
    dests: Set<u64>,
    cells: Seq<u64>,
    e: Seq<DijkstraEntry>,
    stamps: Seq<nat>,
    expanded: Set<int>,
    reached: Seq<usize>,
    w: int,
)
    requires
        g.wf(),
        g.long_edges_unbranched(),
        table_ok(g, start, dests, cells, e, stamps),
        e.len() <= usize::MAX,
        g.edges@.len() <= usize::MAX,
        all_relaxed(g, dests, cells, e, expanded),
        w <= u64::MAX + 1,
        settled_below(e, expanded, w),
        expanded_reached(cells, e, expanded, dests, reached),
    ensures
        covers_cheaper(g, start, dests, cells, reached, w),
{
    assert forall|p: Seq<Edge>|
        #[trigger] g.is_path_from(start, p) && dests.contains(end_cell(start, p)) && g.path_weight(p)
            < w implies exists|v: int|
        0 <= v < reached.len() && cells[#[trigger] reached[v] as int] == end_cell(start, p) by {
        lemma_cut(g, start, dests, cells, e, stamps, expanded, w, p);
        let c = end_cell(start, p);
        if settled_at(cells, e, expanded, c, g.path_weight(p)) {
            let t = choose|t: int|
                #[trigger] expanded.contains(t) && 0 <= t < e.len() && cells[t] == c && e[t].weight
                    <= g.path_weight(p);
            assert(reached.contains(t as usize));
            let v = choose|v: int| 0 <= v < reached.len() && reached[v] == t as usize;
            assert(cells[reached[v] as int] == c);
        } else {
            let (k, m) = choose|k: int, m: int|
                0 <= k < g.edges@.len() && #[trigger] spec_choice(g, dests, k) is Long && 0 <= m < long_of(
                    g,
                    k,
                ).len() - 1 && (#[trigger] long_of(g, k)[m]).destination == c && settled_at(
                    cells,
                    e,
                    expanded,
                    g.edges@[k].edge.origin,
                    g.path_weight(p) - g.path_weight(long_of(g, k).subrange(0, m + 1)),
                );
            let le = g.edges@[k].longedge->Some_0.0;
            assert(le.interior_contains(c));
        }
    }
}

/// A destination taken from the frontier at its current weight `w` has no
/// cheaper walk from the start.
proof fn lemma_optimal_at_pop(
    g: Graph,
    start: u64,
    dests: Set<u64>,
    cells: Seq<u64>,
    e: Seq<DijkstraEntry>,
    stamps: Seq<nat>,
    expanded: Set<int>,
    frontier: Seq<(u64, usize)>,
    w: u64,
    index: int,
)
    requires
        g.wf(),
        g.long_edges_unbranched(),
        table_ok(g, start, dests, cells, e, stamps),
        e.len() <= usize::MAX,
        g.edges@.len() <= usize::MAX,
        all_relaxed(g, dests, cells, e, expanded),
        waiting(e, expanded, frontier, index),
        forall|x: (u64, usize)| #[trigger] frontier.contains(x) ==> x.0 >= w,
        0 <= index < e.len(),
        e[index].weight == w,
        dests.contains(cells[index]),
    ensures
        optimal_at(g, start, cells, e, index),
{
    assert forall|p: Seq<Edge>|
        #[trigger] g.is_path_from(start, p) && end_cell(start, p) == cells[index] implies g.path_weight(p)
            >= e[index].weight by {
        if g.path_weight(p) < w {
            lemma_settled_below(e, expanded, frontier, w, index);
        lemma_cut(g, start, dests, cells, e, stamps, expanded, w as int, p);
            let c = cells[index];
            if settled_at(cells, e, expanded, c, g.path_weight(p)) {
                let t = choose|t: int|
                    #[trigger] expanded.contains(t) && 0 <= t < e.len() && cells[t] == c && e[t].weight
                        <= g.path_weight(p);
                assert(t == index);
            } else {
                let (k, m) = choose|k: int, m: int|
                    0 <= k < g.edges@.len() && #[trigger] spec_choice(g, dests, k) is Long && 0 <= m
                        < long_of(g, k).len() - 1 && (#[trigger] long_of(g, k)[m]).destination == c
                        && settled_at(
                        cells,
                        e,
                        expanded,
                        g.edges@[k].edge.origin,
                        g.path_weight(p) - g.path_weight(long_of(g, k).subrange(0, m + 1)),
                    );
                let le = g.edges@[k].longedge->Some_0.0;
                assert(le.interior_contains(c));
            }
        }
    }
}

/// Removes and returns a frontier entry of least weight.
fn pop_min(frontier: &mut Vec<(u64, usize)>) -> (r: (u64, usize))
    requires
        old(frontier)@.len() > 0,
    ensures
        final(frontier)@.len() == old(frontier)@.len() - 1,
        old(frontier)@.contains(r),
        forall|i: int| 0 <= i < old(frontier)@.len() ==> r.0 <= (#[trigger] old(frontier)@[i]).0,
        forall|x: (u64, usize)| final(frontier)@.contains(x) ==> old(frontier)@.contains(x),
        forall|x: (u64, usize)| old(frontier)@.contains(x) && x != r ==> final(frontier)@.contains(x),
{
    let mut best: usize = 0;
    let mut i: usize = 1;
    while i < frontier.len()
        invariant
            1 <= i <= frontier@.len(),
            best < frontier@.len(),
            forall|k: int| 0 <= k < i ==> frontier@[best as int].0 <= (#[trigger] frontier@[k]).0,
        decreases frontier@.len() - i,
    {
        if frontier[i].0 < frontier[best].0 {
            best = i;
        }
        i = i + 1;
    }
    let ghost before = frontier@;
    let r = frontier.swap_remove(best);
    assert forall|x: (u64, usize)| before.contains(x) && x != r implies frontier@.contains(x) by {
        let k = choose|k: int| 0 <= k < before.len() && before[k] == x;
        assert(k != best);
        if k == before.len() - 1 {
            assert(frontier@[best as int] == x);
        } else {
            assert(frontier@[k] == x);
        }
    }
    assert forall|x: (u64, usize)| frontier@.contains(x) implies before.contains(x) by {
        let k = choose|k: int| 0 <= k < frontier@.len() && frontier@[k] == x;
        if k == best {
            assert(before[before.len() - 1] == x);
        } else {
            assert(before[k] == x);
        }
    }
    r
}

fn contains_index(v: &Vec<usize>, x: usize) -> (r: bool)
    ensures
        r == v@.contains(x),
{
    let mut i: usize = 0;
    while i < v.len()
        invariant
            i <= v@.len(),
            forall|k: int| 0 <= k < i ==> v@[k] != x,
        decreases v@.len() - i,
    {
        if v[i] == x {
            return true;
        }
        i = i + 1;
    }
    false
}

/// Walks the parent chain back from table index `di` and emits the path from
/// the start cell to the cell at `di`, with its long edges expanded.
fn reconstruct(
    g: &Graph,
    start: u64,
    table: &IndexMap<u64, ()>,
    entries: &Vec<DijkstraEntry>,
    di: usize,
    Ghost(dests): Ghost<Set<u64>>,
    Ghost(stamps): Ghost<Seq<nat>>,
    Ghost(expanded): Ghost<Set<int>>,
) -> (r: Path)
    requires
        g.wf(),
        table_ok(*g, start, dests, table_cells(*table), entries@, stamps),
        parents_expanded(entries@, expanded),
        di < entries@.len(),
    ensures
        is_route(*g, start, r@),
        route_end(start, r@) == table_cells(*table)[di as int],
        r.cost == entries@[di as int].weight,
        di == 0 ==> r.edges@.len() == 0,
        forall|m: int|
            0 <= m < r.edges@.len() - 1 ==> covered(
                #[trigger] r.edges@[m].destination,
                dests,
                table_cells(*table),
                expanded,
            ),
{
    let ghost cells = table_cells(*table);
    let ghost e = entries@;
    let mut chain: Vec<usize> = Vec::new();
    let mut cur: usize = di;
    while cur != 0
        invariant
            table_ok(*g, start, dests, cells, e, stamps),
            e == entries@,
            cur < e.len(),
            chain@.len() == 0 ==> cur == di,
            di == 0 ==> chain@.len() == 0,
            chain@.len() > 0 ==> chain@[0] == di && e[chain@.last() as int].index == cur,
            forall|k: int| 0 <= k < chain@.len() - 1 ==> e[#[trigger] chain@[k] as int].index == chain@[k + 1],
            forall|k: int| 0 <= k < chain@.len() ==> 1 <= #[trigger] chain@[k] < e.len(),
        decreases e[cur as int].weight, stamps[cur as int],
    {
        assert(entry_ok(*g, dests, cells, e, stamps, cur as int));
        chain.push(cur);
        cur = entries[cur].index;
    }
    let mut edges: Vec<Edge> = Vec::new();
    let mut cost: u64 = 0;
    let mut at: usize = 0;
    let mut k: usize = chain.len();
    while k > 0
        invariant
            table_ok(*g, start, dests, cells, e, stamps),
            g.wf(),
            e == entries@,
            k <= chain@.len(),
            at < e.len(),
            k == chain@.len() ==> at == 0,
            k == chain@.len() ==> edges@.len() == 0,
            k < chain@.len() ==> at == chain@[k as int],
            chain@.len() == 0 ==> di == 0,
            chain@.len() > 0 ==> chain@[0] == di && e[chain@.last() as int].index == 0,
            forall|j: int| 0 <= j < chain@.len() - 1 ==> e[#[trigger] chain@[j] as int].index == chain@[j + 1],
            forall|j: int| 0 <= j < chain@.len() ==> 1 <= #[trigger] chain@[j] < e.len(),
            g.is_path_from(start, edges@),
            end_cell(start, edges@) == cells[at as int],
            cost as int == g.path_weight(edges@),
            cost == e[at as int].weight,
            parents_expanded(e, expanded),
            forall|m: int|
                0 <= m < edges@.len() - 1 ==> covered(#[trigger] edges@[m].destination, dests, cells, expanded),
        decreases k,
    {
        k = k - 1;
        let idx = chain[k];
        assert(entry_ok(*g, dests, cells, e, stamps, idx as int));
        assert(e[idx as int].index == at);
        let step = match entries[idx].edge {
            Some(s) => s,
            None => DijkstraEdge::Single(0),
        };
        proof {
            step.lemma_valid(*g);
        }
        let sw: u64 = match step {
            DijkstraEdge::Single(j) => g.edges[j].weight,
            DijkstraEdge::Long(j) => match &g.edges[j].longedge {
                Some((_, w)) => *w,
                None => 0,
            },
        };
        assert(sw as int == step.spec_weight(*g));
        cost = cost + sw;
        let mut more = step.unit_edges(g);
        let ghost prefix = edges@;
        let ghost tail = more@;
        edges.append(&mut more);
        proof {
            g.lemma_path_weight_concat(prefix, tail);
            assert(edges@ == prefix + tail);
            assert forall|i: int| 0 <= i < edges@.len() implies g.has_edge(#[trigger] edges@[i]) by {
                if i >= prefix.len() {
                    assert(edges@[i] == tail[i - prefix.len()]);
                }
            }
            assert forall|i: int| 0 <= i < edges@.len() - 1 implies #[trigger] edges@[i].destination
                == edges@[i + 1].origin by {
                if i >= prefix.len() {
                    assert(edges@[i] == tail[i - prefix.len()]);
                    assert(edges@[i + 1] == tail[i + 1 - prefix.len()]);
                } else if i == prefix.len() - 1 {
                    assert(edges@[i + 1] == tail[0]);
                }
            }
            if prefix.len() == 0 {
                assert(edges@[0] == tail[0]);
            } else {
                assert(edges@[0] == prefix[0]);
            }
            assert(edges@.last() == tail.last());
            assert(expanded.contains(at as int));
            assert forall|m: int| 0 <= m < edges@.len() - 1 implies covered(
                #[trigger] edges@[m].destination,
                dests,
                cells,
                expanded,
            ) by {
                if m < prefix.len() - 1 {
                    assert(edges@[m] == prefix[m]);
                } else if m == prefix.len() - 1 {
                    assert(edges@[m] == prefix.last());
                    assert(cells[at as int] == edges@[m].destination);
                } else {
                    let t = m - prefix.len();
                    assert(edges@[m] == tail[t]);
                    assert(step is Long);
                    let le = g.edges@[step.record() as int].longedge->Some_0.0;
                    assert(tail == le.edges@);
                    assert(le.interior_contains(tail[t].destination));
                }
            }
        }
        at = idx;
    }
    Path { edges, cost }
}

/// The termination measure of the search: each round pops one frontier
/// entry, and each push either fills a new table slot or lowers a weight.
pub open spec fn potential(frontier_len: int, e: Seq<DijkstraEntry>, n: int) -> int {
    frontier_len + weight_sum(e) + (n - e.len()) * (u64::MAX + 2)
}

proof fn lemma_table_len(g: Graph, start: u64, cells: Seq<u64>)
    requires
        cells.no_duplicates(),
        forall|i: int| 0 <= i < cells.len() ==> universe(g, start).contains(#[trigger] cells[i]),
    ensures
        universe(g, start).finite(),
        cells.len() <= universe(g, start).len(),
{
    let u = universe(g, start);
    let m = g.edges@.map_values(|r: EdgeRecord| r.edge.destination);
    vstd::seq_lib::seq_to_set_is_finite(m);
    assert(u.finite());
    assert(cells.to_set().subset_of(u));
    vstd::set_lib::lemma_len_subset(cells.to_set(), u);
    cells.unique_seq_to_set();
}

proof fn lemma_step_in_universe(g: Graph, start: u64, step: DijkstraEdge)
    requires
        g.wf(),
        step.valid(g),
    ensures
        universe(g, start).contains(step.spec_destination(g)),
{
    step.lemma_valid(g);
    let s = step.spec_edges(g);
    assert(g.has_edge(s[s.len() - 1]));
    let j = choose|j: int| 0 <= j < g.edges@.len() && #[trigger] g.edges@[j].edge == s[s.len() - 1];
    let m = g.edges@.map_values(|r: EdgeRecord| r.edge.destination);
    assert(m[j] == step.spec_destination(g));
}

/// Offers the cell at the end of `step` the weight `new_weight`, reached from
/// the cell at table index `index`.
fn relax(
    g: &Graph,
    table: &mut IndexMap<u64, ()>,
    entries: &mut Vec<DijkstraEntry>,
    frontier: &mut Vec<(u64, usize)>,
    index: usize,
    step: DijkstraEdge,
    new_weight: u64,
    Ghost(start): Ghost<u64>,
    Ghost(dests): Ghost<Set<u64>>,
    Ghost(stamps): Ghost<Seq<nat>>,
    Ghost(clock): Ghost<nat>,
    Ghost(expanded): Ghost<Set<int>>,
    Ghost(level): Ghost<int>,
) -> (r: Ghost<Seq<nat>>)
    requires
        parents_expanded(old(entries)@, expanded),
        frontier_above(old(frontier)@, old(entries)@, level),
        expanded_below(old(entries)@, expanded, level),
        new_weight >= level,
        waiting(old(entries)@, expanded, old(frontier)@, -1),
        expanded.contains(index as int),
        g.wf(),
        table_ok(*g, start, dests, table_cells(*old(table)), old(entries)@, stamps),
        forall|i: int| 0 <= i < stamps.len() ==> #[trigger] stamps[i] < clock,
        forall|x: (u64, usize)| old(frontier)@.contains(x) ==> x.1 < old(entries)@.len(),
        index < old(entries)@.len(),
        step.valid(*g),
        step.spec_origin(*g) == table_cells(*old(table))[index as int],
        new_weight == old(entries)@[index as int].weight + step.spec_weight(*g),
        step is Long ==> forall|c: u64|
            g.edges@[step.record() as int].longedge->Some_0.0.interior_contains(c) ==> !dests.contains(c),
    ensures
        parents_expanded(final(entries)@, expanded),
        frontier_above(final(frontier)@, final(entries)@, level),
        expanded_below(final(entries)@, expanded, level),
        waiting(final(entries)@, expanded, final(frontier)@, -1),
        exists|t: int|
            0 <= t < final(entries)@.len() && table_cells(*final(table))[t] == step.spec_destination(*g)
                && #[trigger] final(entries)@[t].weight <= new_weight,
        forall|t: int|
            0 <= t < old(entries)@.len() ==> #[trigger] final(entries)@[t].weight <= old(entries)@[t].weight,
        forall|t: int|
            0 <= t < old(entries)@.len() && old(entries)@[t].weight <= level ==> (
            #[trigger] final(entries)@[t]).weight == old(entries)@[t].weight,
        table_ok(*g, start, dests, table_cells(*final(table)), final(entries)@, r@),
        forall|i: int| 0 <= i < r@.len() ==> #[trigger] r@[i] < clock + 1,
        forall|x: (u64, usize)| final(frontier)@.contains(x) ==> x.1 < final(entries)@.len(),
        final(entries)@.len() >= old(entries)@.len(),
        forall|i: int|
            0 <= i < old(entries)@.len() ==> #[trigger] table_cells(*final(table))[i] == table_cells(
                *old(table),
            )[i],
        final(entries)@[index as int].weight == old(entries)@[index as int].weight,
        potential(final(frontier)@.len() as int, final(entries)@, universe(*g, start).len() as int)
            <= potential(old(frontier)@.len() as int, old(entries)@, universe(*g, start).len() as int),
{
    let ghost cells = table_cells(*table);
    let ghost e = entries@;
    let ghost n = universe(*g, start).len() as int;
    proof {
        step.lemma_valid(*g);
        lemma_step_in_universe(*g, start, step);
        lemma_table_len(*g, start, cells);
        lemma_weight_sum_nonneg(e);
    }
    let cell = step.destination_cell(g);
    let entry = DijkstraEntry { weight: new_weight, index, edge: Some(step) };
    match table_index_of(table, cell) {
        None => {
            let slot = table_insert(table, cell);
            entries.push(entry);
            let ghost fr = frontier@;
            frontier.push((new_weight, slot));
            let ghost st2 = stamps.push(clock);
            proof {
                let c2 = table_cells(*table);
                assert(c2 == cells.push(cell));
                assert(entries@ == e.push(entry));
                assert(entries@.drop_last() =~= e);
                assert(c2.no_duplicates()) by {
                    assert forall|i: int, j: int| 0 <= i < c2.len() && 0 <= j < c2.len() && i != j
                        implies c2[i] != c2[j] by {
                        if i == cells.len() as int {
                            assert(c2[j] == cells[j]);
                        } else if j == cells.len() as int {
                            assert(c2[i] == cells[i]);
                        }
                    }
                }
                assert forall|i: int| 1 <= i < entries@.len() implies entry_ok(
                    *g,
                    dests,
                    c2,
                    entries@,
                    st2,
                    i,
                ) by {
                    if i < e.len() {
                        assert(entry_ok(*g, dests, cells, e, stamps, i));
                    }
                }
                assert forall|i: int| 1 <= i < entries@.len() implies expanded.contains(
                    #[trigger] entries@[i].index as int,
                ) by {
                    if i < e.len() {
                        assert(entries@[i] == e[i]);
                    }
                }
                assert forall|x: (u64, usize)| frontier@.contains(x) implies x.1 < entries@.len() by {
                    let k = choose|k: int| 0 <= k < frontier@.len() && frontier@[k] == x;
                    if k < fr.len() {
                        assert(fr[k] == x);
                        assert(fr.contains(x));
                    } else {
                        assert(x == (new_weight, slot));
                    }
                }
                assert((n - e.len() - 1) * (u64::MAX + 2) == (n - e.len()) * (u64::MAX + 2) - (
                u64::MAX + 2)) by (nonlinear_arith);
                assert forall|x: (u64, usize)| #[trigger] frontier@.contains(x) implies x.1 < entries@.len()
                    && x.0 >= entries@[x.1 as int].weight && x.0 >= level by {
                    let k = choose|k: int| 0 <= k < frontier@.len() && frontier@[k] == x;
                    if k < fr.len() {
                        assert(fr[k] == x);
                        assert(fr.contains(x));
                        assert(entries@[x.1 as int] == e[x.1 as int]);
                    } else {
                        assert(x == (new_weight, slot));
                    }
                }
                assert forall|x: int| #[trigger] expanded.contains(x) implies 0 <= x < entries@.len()
                    && entries@[x].weight <= level by {
                    assert(entries@[x] == e[x]);
                }
                assert forall|t: int|
                    0 <= t < entries@.len() && t != -1 && !expanded.contains(t) implies #[trigger] frontier@.contains(
                    (entries@[t].weight, t as usize),
                ) by {
                    if t < e.len() {
                        assert(entries@[t] == e[t]);
                        assert(fr.contains((e[t].weight, t as usize)));
                        let q = choose|q: int| 0 <= q < fr.len() && fr[q] == (e[t].weight, t as usize);
                        assert(frontier@[q] == fr[q]);
                    } else {
                        assert(frontier@[fr.len() as int] == (new_weight, slot));
                    }
                }
                assert(entries@[e.len() as int].weight <= new_weight);
                assert(c2[e.len() as int] == cell);
                assert forall|t: int| 0 <= t < e.len() implies #[trigger] entries@[t].weight <= e[t].weight by {
                    assert(entries@[t] == e[t]);
                }
            }
            Ghost(st2)
        },
        Some(j) => {
            if entries[j].weight > new_weight {
                let ghost fr = frontier@;
                entries.set(j, entry);
                frontier.push((new_weight, j));
                let ghost st2 = stamps.update(j as int, clock);
                proof {
                    assert(cells.no_duplicates());
                    assert(j != index);
                    assert(j != 0);
                    assert(!expanded.contains(j as int));
                    assert forall|i: int| 1 <= i < e.len() implies e[i].index != j by {
                        assert(expanded.contains(e[i].index as int));
                    }
                    assert forall|x: (u64, usize)| #[trigger] frontier@.contains(x) implies x.1
                        < entries@.len() && x.0 >= entries@[x.1 as int].weight && x.0 >= level by {
                        let k = choose|k: int| 0 <= k < frontier@.len() && frontier@[k] == x;
                        if k < fr.len() {
                            assert(fr[k] == x);
                            assert(fr.contains(x));
                        } else {
                            assert(x == (new_weight, j));
                        }
                    }
                    assert forall|x: int| #[trigger] expanded.contains(x) implies 0 <= x < entries@.len()
                        && entries@[x].weight <= level by {
                        assert(x != j as int);
                    }
                    assert forall|t: int|
                        0 <= t < entries@.len() && t != -1 && !expanded.contains(t) implies #[trigger] frontier@.contains(
                        (entries@[t].weight, t as usize),
                    ) by {
                        if t != j {
                            assert(entries@[t] == e[t]);
                            assert(fr.contains((e[t].weight, t as usize)));
                            let q = choose|q: int| 0 <= q < fr.len() && fr[q] == (e[t].weight, t as usize);
                            assert(frontier@[q] == fr[q]);
                        } else {
                            assert(frontier@[fr.len() as int] == (new_weight, j));
                        }
                    }
                    assert(entries@[j as int].weight <= new_weight);
                    assert forall|t: int| 0 <= t < e.len() implies #[trigger] entries@[t].weight <= e[t].weight by {
                        if t != j {
                            assert(entries@[t] == e[t]);
                        }
                    }
                    lemma_weight_sum_update(e, j as int, entry);
                    assert forall|i: int| 1 <= i < entries@.len() implies entry_ok(
                        *g,
                        dests,
                        cells,
                        entries@,
                        st2,
                        i,
                    ) by {
                        assert(entry_ok(*g, dests, cells, e, stamps, i));
                    }
                    assert forall|i: int| 1 <= i < entries@.len() implies expanded.contains(
                        #[trigger] entries@[i].index as int,
                    ) by {
                        if i != j {
                            assert(entries@[i] == e[i]);
                        }
                    }
                    assert forall|x: (u64, usize)| frontier@.contains(x) implies x.1
                        < entries@.len() by {
                        let k = choose|k: int| 0 <= k < frontier@.len() && frontier@[k] == x;
                        if k < fr.len() {
                            assert(fr[k] == x);
                            assert(fr.contains(x));
                        } else {
                            assert(x == (new_weight, j));
                        }
                    }
                }
                Ghost(st2)
            } else {
                assert(entries@[j as int].weight <= new_weight);
                Ghost(stamps)
            }
        },
    }
}

/// The transition the search takes along the record `k`: its long edge when
/// no interior cell of it is a destination, its unit edge otherwise.
fn edge_choice(g: &Graph, dests: &DestinationSet, k: usize) -> (r: (DijkstraEdge, u64))
    requires
        g.wf(),
        dests.wf(),
        k < g.edges@.len(),
    ensures
        r.0.valid(*g),
        r.0 == spec_choice(*g, dests@, k as int),
        r.0.record() == k,
        r.1 as int == r.0.spec_weight(*g),
        r.0.spec_origin(*g) == g.edges@[k as int].edge.origin,
        r.0 is Long <==> (g.edges@[k as int].longedge is Some && forall|c: u64|
            g.edges@[k as int].longedge->Some_0.0.interior_contains(c) ==> !dests@.contains(c)),
{
    proof {
        assert(g.record_wf(g.edges@[k as int]));
    }
    match &g.edges[k].longedge {
        Some((le, lw)) => {
            if dests.is_disjoint(le) {
                (DijkstraEdge::Long(k), *lw)
            } else {
                (DijkstraEdge::Single(k), g.edges[k].weight)
            }
        },
        None => (DijkstraEdge::Single(k), g.edges[k].weight),
    }
}

/// What a search from `start` emits: one path per reached destination and at
/// most the budget, in the canonical order, each a walk of the graph from
/// `start` to a destination that costs the sum of its unit edges' weights.
/// A destination that a path passes through has a path of its own. Where
/// long edges do not branch, no walk along unit edges from `start` to the
/// destination of a path is cheaper than the path, and a destination with a
/// walk cheaper than some path has a path too: the paths lead to the
/// cheapest destinations; and unless the budget is used up, every destination
/// reachable along unit edges within `u64::MAX` has a path.
pub open spec fn search_result_ok(
    g: Graph,
    start: u64,
    dests: Set<u64>,
    budget: Option<usize>,
    s: Seq<(Seq<Edge>, u64)>,
) -> bool {
    &&& s.len() <= dests.len()
    &&& (budget matches Some(k) ==> s.len() <= k)
    &&& is_sorted(s)
    &&& forall|i: int|
        0 <= i < s.len() ==> is_route(g, start, #[trigger] s[i]) && dests.contains(route_end(start, s[i]))
    &&& forall|i: int, m: int|
        0 <= i < s.len() && 0 <= m < s[i].0.len() - 1 && dests.contains(#[trigger] s[i].0[m].destination)
            ==> reaches(start, s, s[i].0[m].destination)
    &&& forall|i: int| 0 <= i < s.len() && route_end(start, #[trigger] s[i]) == start ==> s[i].0.len() == 0
    &&& forall|i: int, j: int|
        0 <= i < s.len() && 0 <= j < s.len() && i != j ==> route_end(start, #[trigger] s[i]) != route_end(
            start,
            #[trigger] s[j],
        )
    &&& (g.long_edges_unbranched() ==> forall|i: int, p: Seq<Edge>|
        0 <= i < s.len() && #[trigger] g.is_path_from(start, p) && end_cell(start, p) == route_end(
            start,
            #[trigger] s[i],
        ) ==> g.path_weight(p) >= s[i].1)
    &&& (g.long_edges_unbranched() ==> forall|i: int, p: Seq<Edge>|
        0 <= i < s.len() && #[trigger] g.is_path_from(start, p) && dests.contains(end_cell(start, p))
            && g.path_weight(p) < (#[trigger] s[i]).1 ==> reaches(start, s, end_cell(start, p)))
    &&& (g.long_edges_unbranched() && s.len() < budget_or_all(budget, dests.len()) ==> forall|p: Seq<Edge>|
        #[trigger] g.is_path_from(start, p) && dests.contains(end_cell(start, p)) && g.path_weight(p)
            <= u64::MAX ==> reaches(start, s, end_cell(start, p)))
}

/// The number of destinations a search may reach: the budget, at most all.
pub open spec fn budget_or_all(budget: Option<usize>, n: nat) -> int {
    match budget {
        Some(k) => if k < n {
            k as int
        } else {
            n as int
        },
        None => n as int,
    }
}

/// Some path of `s` ends in `c`.
pub open spec fn reaches(start: u64, s: Seq<(Seq<Edge>, u64)>, c: u64) -> bool {
    exists|q: int| 0 <= q < s.len() && route_end(start, s[q]) == c
}

/// Shortest paths from `start` to the cells of `destinations`.
///
/// The search stops once `num_destinations_to_reach` destinations (at most all
/// of them) have been reached, or when no cell is left to explore. One path is
/// emitted per reached destination, in the canonical order of paths; long
/// edges are only taken where none of their interior cells is a destination,
/// and come out expanded into their unit edges. A budget of zero emits
/// nothing. A transition whose cumulative weight would exceed `u64::MAX` is
/// not followed.
pub fn edge_dijkstra(
    g: &Graph,
    start: u64,
    destinations: &DestinationSet,
    num_destinations_to_reach: Option<usize>,
) -> (r: Vec<Path>)
    requires
        g.wf(),
        destinations.wf(),
    ensures
        r@.len() <= destinations@.len(),
        num_destinations_to_reach matches Some(k) ==> r@.len() <= k,
        search_result_ok(*g, start, destinations@, num_destinations_to_reach, paths_view(r@)),
{
    let ghost dests = destinations@;
    let n_dests = destinations.len();
    let target: usize = match num_destinations_to_reach {
        Some(k) => if k < n_dests {
            k
        } else {
            n_dests
        },
        None => n_dests,
    };
    let mut table = table_new();
    let first = table_insert(&mut table, start);
    let mut entries: Vec<DijkstraEntry> = Vec::new();
    entries.push(DijkstraEntry { weight: 0, index: usize::MAX, edge: None });
    let mut frontier: Vec<(u64, usize)> = Vec::new();
    frontier.push((0, first));
    let mut reached: Vec<usize> = Vec::new();
    let ghost mut stamps: Seq<nat> = seq![0];
    let ghost mut clock: nat = 1;
    let ghost mut expanded: Set<int> = Set::empty();
    let ghost mut level: int = 0;
    // The lengths read here bound indices by `usize::MAX` in the proofs.
    let n_records = g.edges.len();
    let ghost n = universe(*g, start).len() as int;
    proof {
        assert(frontier@[0] == (entries@[0].weight, 0usize));
        assert(table_cells(table) =~= seq![start]);
        assert(entries@.drop_last() =~= Seq::<DijkstraEntry>::empty());
        assert(weight_sum(entries@.drop_last()) == 0);
        assert(weight_sum(entries@) == 0);
        lemma_table_len(*g, start, table_cells(table));
    }
    while frontier.len() > 0 && reached.len() < target
        invariant
            g.wf(),
            destinations.wf(),
            dests == destinations@,
            target <= dests.len(),
            num_destinations_to_reach matches Some(k) ==> target <= k,
            n == universe(*g, start).len(),
            table_ok(*g, start, dests, table_cells(table), entries@, stamps),
            forall|i: int| 0 <= i < stamps.len() ==> #[trigger] stamps[i] < clock,
            forall|x: (u64, usize)| frontier@.contains(x) ==> x.1 < entries@.len(),
            reached@.len() <= target,
            reached@.no_duplicates(),
            forall|k: int|
                0 <= k < reached@.len() ==> #[trigger] reached@[k] < entries@.len() && dests.contains(
                    table_cells(table)[reached@[k] as int],
                ),
            parents_expanded(entries@, expanded),
            expanded_reached(table_cells(table), entries@, expanded, dests, reached@),
            frontier_above(frontier@, entries@, level),
            expanded_below(entries@, expanded, level),
            n_records == g.edges@.len(),
            reached@.len() < target ==> waiting(entries@, expanded, frontier@, -1),
            all_relaxed(*g, dests, table_cells(table), entries@, expanded),
            forall|u: int| 0 <= u < reached@.len() ==> entries@[#[trigger] reached@[u] as int].weight <= level,
            g.long_edges_unbranched() ==> forall|u: int|
                0 <= u < reached@.len() ==> optimal_at(*g, start, table_cells(table), entries@, #[trigger] reached@[u] as int),
            g.long_edges_unbranched() ==> forall|u: int|
                0 <= u < reached@.len() ==> covers_cheaper(
                    *g,
                    start,
                    dests,
                    table_cells(table),
                    reached@,
                    entries@[#[trigger] reached@[u] as int].weight as int,
                ),
        ensures
            reached@.len() >= target || frontier@.len() == 0,
        decreases potential(frontier@.len() as int, entries@, n),
    {
        proof {
            lemma_table_len(*g, start, table_cells(table));
            lemma_weight_sum_nonneg(entries@);
        }
        let ghost p0 = potential(frontier@.len() as int, entries@, n);
        proof {
            let d = n - entries@.len();
            assert(d >= 0);
            assert(d * (u64::MAX + 2) >= 0) by (nonlinear_arith)
                requires
                    d >= 0,
            ;
            assert(p0 >= 0);
        }
        let n_e0 = entries.len();
        let ghost fr0 = frontier@;
        assert(reached@.len() < target);
        let ghost was_waiting = waiting(entries@, expanded, fr0, -1);
        assert(was_waiting);
        let (weight, index) = pop_min(&mut frontier);
        proof {
            assert(fr0.contains((weight, index)));
            assert forall|x: (u64, usize)| #[trigger] frontier@.contains(x) implies x.1 < entries@.len()
                && x.0 >= entries@[x.1 as int].weight && x.0 >= level && x.0 >= weight by {
                assert(fr0.contains(x));
                let k = choose|k: int| 0 <= k < fr0.len() && fr0[k] == x;
                assert(weight <= fr0[k].0);
            }
            assert forall|t: int|
                0 <= t < entries@.len() && t != index as int && !expanded.contains(t) implies #[trigger] frontier@.contains(
                (entries@[t].weight, t as usize),
            ) by {
                assert(was_waiting);
                assert(0 <= t < entries@.len() && t != -1 && !expanded.contains(t));
                assert(fr0.contains((entries@[t].weight, t as usize)));
                assert((entries@[t].weight, t as usize) != (weight, index));
            }
            if !expanded.contains(index as int) {
                assert(was_waiting);
                assert(fr0.contains((entries@[index as int].weight, (index as int) as usize)));
                let q = choose|q: int| 0 <= q < fr0.len() && fr0[q] == (entries@[index as int].weight, index);
                assert(weight <= fr0[q].0);
            }
            if weight <= entries@[index as int].weight {
                level = weight as int;
            }
        }
        let cell = table_cell_at(&table, index);
        if destinations.contains(cell) && !contains_index(&reached, index) {
            let ghost rv = reached@;
            reached.push(index);
            proof {
                assert forall|a: int, b: int| 0 <= a < reached@.len() && 0 <= b < reached@.len() && a
                    != b implies reached@[a] != reached@[b] by {
                    if a == rv.len() as int {
                        assert(rv.contains(reached@[b]));
                    } else if b == rv.len() as int {
                        assert(rv.contains(reached@[a]));
                    }
                }
                assert forall|x: int| #[trigger] expanded.contains(x) implies 0 <= x < entries@.len() && (
                dests.contains(table_cells(table)[x]) ==> reached@.contains(x as usize)) by {
                    if dests.contains(table_cells(table)[x]) {
                        let t = choose|t: int| 0 <= t < rv.len() && rv[t] == x as usize;
                        assert(reached@[t] == x as usize);
                    }
                }
                assert(reached@[rv.len() as int] == index);
                assert(!rv.contains(index));
                assert(!expanded.contains(index as int));
                assert(weight == entries@[index as int].weight);
            }
            proof {
                if g.long_edges_unbranched() {
                    lemma_cheaper_reached(
                        *g,
                        start,
                        dests,
                        table_cells(table),
                        entries@,
                        stamps,
                        expanded,
                        frontier@,
                        rv,
                        weight,
                        index as int,
                    );
                    assert forall|u: int| 0 <= u < reached@.len() implies covers_cheaper(
                        *g,
                        start,
                        dests,
                        table_cells(table),
                        reached@,
                        entries@[#[trigger] reached@[u] as int].weight as int,
                    ) by {
                        let wu = entries@[reached@[u] as int].weight as int;
                        if u < rv.len() {
                            assert(reached@[u] == rv[u]);
                            assert(covers_cheaper(*g, start, dests, table_cells(table), rv, wu));
                        } else {
                            assert(reached@[u] == index);
                        }
                        assert forall|p: Seq<Edge>|
                            #[trigger] g.is_path_from(start, p) && dests.contains(end_cell(start, p))
                                && g.path_weight(p) < wu implies exists|v: int|
                            0 <= v < reached@.len() && table_cells(table)[#[trigger] reached@[v] as int]
                                == end_cell(start, p) by {
                            let v = choose|v: int|
                                0 <= v < rv.len() && table_cells(table)[#[trigger] rv[v] as int] == end_cell(start, p);
                            assert(reached@[v] == rv[v]);
                        }
                    }
                    lemma_optimal_at_pop(
                        *g,
                        start,
                        dests,
                        table_cells(table),
                        entries@,
                        stamps,
                        expanded,
                        frontier@,
                        weight,
                        index as int,
                    );
                }
            }
            if reached.len() >= target {
                break;
            }
        }
        assert(potential(frontier@.len() as int, entries@, n) < p0);
        assert(dests.contains(table_cells(table)[index as int]) ==> reached@.contains(index));
        if weight <= entries[index].weight {
            let cur = entries[index].weight;
            proof {
                assert(weight as int == cur as int);
                level = cur as int;
                let before = expanded;
                expanded = before.insert(index as int);
                assert forall|x: int| #[trigger] expanded.contains(x) implies 0 <= x < entries@.len()
                    && entries@[x].weight <= level by {
                    if x != index as int {
                        assert(before.contains(x));
                    }
                }
                assert forall|i: int| 1 <= i < entries@.len() implies expanded.contains(
                    #[trigger] entries@[i].index as int,
                ) by {
                    assert(before.contains(entries@[i].index as int));
                }
                assert forall|x: int| #[trigger] expanded.contains(x) implies 0 <= x < entries@.len() && (
                dests.contains(table_cells(table)[x]) ==> reached@.contains(x as usize)) by {
                    if x != index as int {
                        assert(before.contains(x));
                    }
                }
                assert forall|t: int|
                    0 <= t < entries@.len() && t != -1 && !expanded.contains(t) implies #[trigger] frontier@.contains(
                    (entries@[t].weight, t as usize),
                ) by {
                    assert(t != index as int && !before.contains(t));
                }
                assert forall|x: int, kk: int|
                    #[trigger] expanded.contains(x) && 0 <= kk < g.edges@.len() && (x != index as int || kk < 0)
                        implies #[trigger] relaxed(*g, dests, table_cells(table), entries@, x, kk) by {
                    assert(before.contains(x));
                }
            }
            let mut k: usize = 0;
            while k < g.edges.len()
                invariant
                    g.wf(),
                    destinations.wf(),
                    dests == destinations@,
                    n == universe(*g, start).len(),
                    table_ok(*g, start, dests, table_cells(table), entries@, stamps),
                    forall|i: int| 0 <= i < stamps.len() ==> #[trigger] stamps[i] < clock,
                    forall|x: (u64, usize)| frontier@.contains(x) ==> x.1 < entries@.len(),
                    index < entries@.len(),
                    table_cells(table)[index as int] == cell,
                    entries@[index as int].weight == cur,
                    reached@.len() <= target,
                    reached@.no_duplicates(),
                    forall|j: int|
                        0 <= j < reached@.len() ==> #[trigger] reached@[j] < entries@.len() && dests.contains(
                            table_cells(table)[reached@[j] as int],
                        ),
                    potential(frontier@.len() as int, entries@, n) < p0,
                    parents_expanded(entries@, expanded),
                    expanded_reached(table_cells(table), entries@, expanded, dests, reached@),
                    expanded.contains(index as int),
                    frontier_above(frontier@, entries@, level),
                    expanded_below(entries@, expanded, level),
                    cur == level,
                    n_records == g.edges@.len(),
                    waiting(entries@, expanded, frontier@, -1),
                    forall|x: int, kk: int|
                        #[trigger] expanded.contains(x) && 0 <= kk < g.edges@.len() && (x != index as int || kk
                            < k) ==> #[trigger] relaxed(*g, dests, table_cells(table), entries@, x, kk),
                    forall|u: int| 0 <= u < reached@.len() ==> entries@[#[trigger] reached@[u] as int].weight <= level,
                    g.long_edges_unbranched() ==> forall|u: int|
                        0 <= u < reached@.len() ==> optimal_at(*g, start, table_cells(table), entries@, #[trigger] reached@[u] as int),
                    g.long_edges_unbranched() ==> forall|u: int|
                        0 <= u < reached@.len() ==> covers_cheaper(
                            *g,
                            start,
                            dests,
                            table_cells(table),
                            reached@,
                            entries@[#[trigger] reached@[u] as int].weight as int,
                        ),
                decreases g.edges@.len() - k,
            {
                if g.edges[k].edge.origin == cell {
                    let (step, sw) = edge_choice(g, destinations, k);
                    match cur.checked_add(sw) {
                        Some(new_weight) => {
                            let ghost t0 = table_cells(table);
                            let ghost e0 = entries@;
                            let ghost rv = reached@;
                            let Ghost(st2) = relax(
                                g,
                                &mut table,
                                &mut entries,
                                &mut frontier,
                                index,
                                step,
                                new_weight,
                                Ghost(start),
                                Ghost(dests),
                                Ghost(stamps),
                                Ghost(clock),
                                Ghost(expanded),
                                Ghost(level),
                            );
                            proof {
                                stamps = st2;
                                clock = clock + 1;
                                assert forall|j: int| 0 <= j < reached@.len() implies #[trigger] reached@[j]
                                    < entries@.len() && dests.contains(
                                    table_cells(table)[reached@[j] as int],
                                ) by {
                                    assert(rv[j] < e0.len());
                                    assert(table_cells(table)[rv[j] as int] == t0[rv[j] as int]);
                                }
                                assert forall|x: int| #[trigger] expanded.contains(x) implies 0 <= x
                                    < entries@.len() && (dests.contains(table_cells(table)[x])
                                    ==> reached@.contains(x as usize)) by {
                                    assert(table_cells(table)[x] == t0[x]);
                                }
                                assert forall|x: int, kk: int|
                                    #[trigger] expanded.contains(x) && 0 <= kk < g.edges@.len() && (x != index as int
                                        || kk < k + 1) implies #[trigger] relaxed(
                                    *g,
                                    dests,
                                    table_cells(table),
                                    entries@,
                                    x,
                                    kk,
                                ) by {
                                    assert(entries@[x].weight == e0[x].weight);
                                    assert(table_cells(table)[x] == t0[x]);
                                    if x != index as int || kk < k {
                                        assert(relaxed(*g, dests, t0, e0, x, kk));
                                        let st = spec_choice(*g, dests, kk);
                                        if g.edges@[kk].edge.origin == t0[x] && e0[x].weight + st.spec_weight(*g)
                                            <= u64::MAX {
                                            let t = choose|t: int|
                                                0 <= t < e0.len() && t0[t] == st.spec_destination(*g)
                                                    && #[trigger] e0[t].weight <= e0[x].weight + st.spec_weight(*g);
                                            assert(entries@[t].weight <= e0[t].weight);
                                            assert(table_cells(table)[t] == t0[t]);
                                        }
                                    }
                                }
                                assert forall|u: int| 0 <= u < reached@.len() implies entries@[#[trigger] reached@[u] as int].weight
                                    <= level by {
                                    assert(entries@[reached@[u] as int].weight == e0[reached@[u] as int].weight);
                                }
                                if g.long_edges_unbranched() {
                                    assert forall|u: int| 0 <= u < reached@.len() implies optimal_at(
                                        *g,
                                        start,
                                        table_cells(table),
                                        entries@,
                                        #[trigger] reached@[u] as int,
                                    ) by {
                                        let r = reached@[u] as int;
                                        assert(optimal_at(*g, start, t0, e0, r));
                                        assert(entries@[r].weight == e0[r].weight);
                                        assert(table_cells(table)[r] == t0[r]);
                                    }
                                }
                            }
                        },
                        None => {},
                    }
                }
                k = k + 1;
            }
        }
        assert(potential(frontier@.len() as int, entries@, n) < p0);
        proof {
            if !expanded.contains(index as int) {
                assert((entries@[index as int].weight, index) != (weight, index));
                assert(fr0.contains((entries@[index as int].weight, index)));
            }
            lemma_table_len(*g, start, table_cells(table));
            lemma_weight_sum_nonneg(entries@);
            let d = n - entries@.len();
            assert(d * (u64::MAX + 2) >= 0) by (nonlinear_arith)
                requires
                    d >= 0,
            ;
        }
    }
    let n_final = entries.len();
    proof {
        assert(target == budget_or_all(num_destinations_to_reach, dests.len()));
        if g.long_edges_unbranched() && reached@.len() < target {
            assert(frontier@.len() == 0);
            assert forall|t: int|
                0 <= t < entries@.len() && #[trigger] entries@[t].weight < u64::MAX + 1 implies expanded.contains(
                t,
            ) by {
                if !expanded.contains(t) {
                    assert(frontier@.contains((entries@[t].weight, t as usize)));
                }
            }
            lemma_covers(
                *g,
                start,
                dests,
                table_cells(table),
                entries@,
                stamps,
                expanded,
                reached@,
                u64::MAX + 1,
            );
        }
    }
    let mut paths: Vec<Path> = Vec::new();
    let mut i: usize = 0;
    while i < reached.len()
        invariant
            g.wf(),
            i <= reached@.len(),
            paths@.len() == i,
            table_ok(*g, start, dests, table_cells(table), entries@, stamps),
            forall|k: int|
                0 <= k < reached@.len() ==> #[trigger] reached@[k] < entries@.len() && dests.contains(
                    table_cells(table)[reached@[k] as int],
                ),
            forall|k: int|
                0 <= k < paths@.len() ==> is_route(*g, start, #[trigger] paths@[k]@) && dests.contains(
                    route_end(start, paths@[k]@),
                ),
            forall|k: int| 0 <= k < paths@.len() ==> route_end(start, #[trigger] paths@[k]@) == table_cells(table)[reached@[k] as int],
            forall|k: int, m: int|
                0 <= k < paths@.len() && 0 <= m < paths@[k].edges@.len() - 1 ==> covered(
                    #[trigger] paths@[k].edges@[m].destination,
                    dests,
                    table_cells(table),
                    expanded,
                ),
            parents_expanded(entries@, expanded),
            expanded_reached(table_cells(table), entries@, expanded, dests, reached@),
            reached@.no_duplicates(),
            forall|k: int| 0 <= k < paths@.len() ==> (#[trigger] paths@[k]).cost == entries@[reached@[k] as int].weight,
            forall|k: int| 0 <= k < paths@.len() && reached@[k] == 0 ==> (#[trigger] paths@[k]).edges@.len() == 0,
            g.long_edges_unbranched() && reached@.len() < target ==> covers_cheaper(
                *g,
                start,
                dests,
                table_cells(table),
                reached@,
                u64::MAX + 1,
            ),
            g.long_edges_unbranched() ==> forall|u: int|
                0 <= u < reached@.len() ==> covers_cheaper(
                    *g,
                    start,
                    dests,
                    table_cells(table),
                    reached@,
                    entries@[#[trigger] reached@[u] as int].weight as int,
                ),
            g.long_edges_unbranched() ==> forall|u: int|
                0 <= u < reached@.len() ==> optimal_at(*g, start, table_cells(table), entries@, #[trigger] reached@[u] as int),
        decreases reached@.len() - i,
    {
        let p = reconstruct(
            g,
            start,
            &table,
            &entries,
            reached[i],
            Ghost(dests),
            Ghost(stamps),
            Ghost(expanded),
        );
        let ghost prev = paths@;
        paths.push(p);
        proof {
            assert forall|k: int, m: int|
                0 <= k < paths@.len() && 0 <= m < paths@[k].edges@.len() - 1 implies covered(
                #[trigger] paths@[k].edges@[m].destination,
                dests,
                table_cells(table),
                expanded,
            ) by {
                if k < prev.len() {
                    assert(paths@[k] == prev[k]);
                }
            }
        }
        i = i + 1;
    }
    let n_entries = entries.len();
    proof {
        assert forall|a: int, b: int| 0 <= a < paths@.len() && 0 <= b < paths@.len() && a != b implies route_end(
            start,
            paths@[a]@,
        ) != route_end(start, paths@[b]@) by {
            assert(reached@[a] != reached@[b]);
            assert(table_cells(table).no_duplicates());
        }
        assert(paths@.no_duplicates());
        paths@.lemma_multiset_has_no_duplicates();
    }
    let sorted = sort_paths(paths);
    proof {
        sorted@.lemma_multiset_has_no_duplicates_conv();
    }
    let ghost sv = paths_view(sorted@);
    assert forall|k: int| 0 <= k < sorted@.len() implies is_route(*g, start, #[trigger] sv[k])
        && dests.contains(route_end(start, sv[k])) by {
        assert(paths@.contains(sorted@[k]));
    }
    assert forall|k: int, m: int|
        0 <= k < sv.len() && 0 <= m < sv[k].0.len() - 1 && dests.contains(
            #[trigger] sv[k].0[m].destination,
        ) implies reaches(start, sv, sv[k].0[m].destination) by {
        let c = sv[k].0[m].destination;
        assert(paths@.contains(sorted@[k]));
        let t = choose|t: int| 0 <= t < paths@.len() && paths@[t] == sorted@[k];
        assert(covered(paths@[t].edges@[m].destination, dests, table_cells(table), expanded));
        let x = choose|x: int| #[trigger] expanded.contains(x) && table_cells(table)[x] == c;
        assert(0 <= x < entries@.len() && entries@.len() == n_entries);
        assert(reached@.contains(x as usize));
        let u = choose|u: int| 0 <= u < reached@.len() && reached@[u] == x as usize;
        assert(reached@[u] as int == x);
        assert(route_end(start, paths@[u]@) == c);
        assert(sorted@.contains(paths@[u]));
        let q = choose|q: int| 0 <= q < sorted@.len() && sorted@[q] == paths@[u];
        assert(route_end(start, sv[q]) == c);
    }
    proof {
        if g.long_edges_unbranched() {
        assert forall|i: int, p: Seq<Edge>|
            0 <= i < sv.len() && #[trigger] g.is_path_from(start, p) && end_cell(start, p) == route_end(
                start,
                #[trigger] sv[i],
            ) implies g.path_weight(p) >= sv[i].1 by {
            assert(paths@.contains(sorted@[i]));
            let a = choose|a: int| 0 <= a < paths@.len() && paths@[a] == sorted@[i];
            assert(optimal_at(*g, start, table_cells(table), entries@, reached@[a] as int));
            assert(sv[i] == paths@[a]@);
        }
        if reached@.len() < target {
            assert forall|p: Seq<Edge>|
                #[trigger] g.is_path_from(start, p) && dests.contains(end_cell(start, p)) && g.path_weight(p)
                    <= u64::MAX implies reaches(start, sv, end_cell(start, p)) by {
                let v = choose|v: int|
                    0 <= v < reached@.len() && table_cells(table)[#[trigger] reached@[v] as int] == end_cell(start, p);
                assert(route_end(start, paths@[v]@) == end_cell(start, p));
                assert(sorted@.contains(paths@[v]));
                let q = choose|q: int| 0 <= q < sorted@.len() && sorted@[q] == paths@[v];
                assert(route_end(start, sv[q]) == end_cell(start, p));
            }
        }
        assert forall|i: int, p: Seq<Edge>|
            0 <= i < sv.len() && #[trigger] g.is_path_from(start, p) && dests.contains(end_cell(start, p))
                && g.path_weight(p) < (#[trigger] sv[i]).1 implies reaches(start, sv, end_cell(start, p)) by {
            assert(paths@.contains(sorted@[i]));
            let a = choose|a: int| 0 <= a < paths@.len() && paths@[a] == sorted@[i];
            assert(sv[i] == paths@[a]@);
            assert(covers_cheaper(
                *g,
                start,
                dests,
                table_cells(table),
                reached@,
                entries@[reached@[a] as int].weight as int,
            ));
            let v = choose|v: int|
                0 <= v < reached@.len() && table_cells(table)[#[trigger] reached@[v] as int] == end_cell(start, p);
            assert(route_end(start, paths@[v]@) == end_cell(start, p));
            assert(sorted@.contains(paths@[v]));
            let q = choose|q: int| 0 <= q < sorted@.len() && sorted@[q] == paths@[v];
            assert(route_end(start, sv[q]) == end_cell(start, p));
        }
    }
    }
    assert forall|i: int| 0 <= i < sv.len() && route_end(start, #[trigger] sv[i]) == start implies sv[i].0.len()
        == 0 by {
        assert(paths@.contains(sorted@[i]));
        let a = choose|a: int| 0 <= a < paths@.len() && paths@[a] == sorted@[i];
        assert(sv[i] == paths@[a]@);
        assert(table_cells(table)[reached@[a] as int] == start);
        assert(table_cells(table)[0] == start);
        assert(reached@[a] == 0);
    }
    assert forall|i: int, j: int| 0 <= i < sv.len() && 0 <= j < sv.len() && i != j implies route_end(
        start,
        #[trigger] sv[i],
    ) != route_end(start, #[trigger] sv[j]) by {
        assert(sorted@[i] != sorted@[j]);
        assert(paths@.contains(sorted@[i]));
        assert(paths@.contains(sorted@[j]));
        let a = choose|a: int| 0 <= a < paths@.len() && paths@[a] == sorted@[i];
        let b = choose|b: int| 0 <= b < paths@.len() && paths@[b] == sorted@[j];
        assert(a != b);
    }
    sorted
}

/// The cells the paths of `s` lead to.
pub open spec fn route_ends(start: u64, s: Seq<(Seq<Edge>, u64)>) -> Seq<u64> {
    s.map_values(|v: (Seq<Edge>, u64)| route_end(start, v))
}

/// A search result that holds as many paths as there are destinations leads
/// to every destination.
proof fn lemma_full_result(g: Graph, start: u64, dests: Set<u64>, budget: Option<usize>, s: Seq<(Seq<Edge>, u64)>)
    requires
        dests.finite(),
        search_result_ok(g, start, dests, budget, s),
        s.len() == dests.len(),
    ensures
        forall|d: u64| dests.contains(d) ==> reaches(start, s, d),
{
    let ends = route_ends(start, s);
    assert(ends.no_duplicates()) by {
        assert forall|i: int, j: int| 0 <= i < ends.len() && 0 <= j < ends.len() && i != j implies ends[i]
            != ends[j] by {
            assert(route_end(start, s[i]) != route_end(start, s[j]));
        }
    }
    ends.unique_seq_to_set();
    assert(ends.to_set().subset_of(dests)) by {
        assert forall|c: u64| ends.to_set().contains(c) implies dests.contains(c) by {
            let i = choose|i: int| 0 <= i < ends.len() && ends[i] == c;
            assert(dests.contains(route_end(start, s[i])));
        }
    }
    assert forall|d: u64| dests.contains(d) implies reaches(start, s, d) by {
        if !ends.to_set().contains(d) {
            vstd::set_lib::lemma_len_subset(ends.to_set(), dests.remove(d));
        } else {
            let i = choose|i: int| 0 <= i < ends.len() && ends[i] == d;
            assert(route_end(start, s[i]) == d);
        }
    }
}

/// Two search results from `start` to `dests` whose budget does not bind
/// lead to the same destinations, each at the same cost, in the same order,
/// where long edges do not branch. Only the choice between equally cheap
/// walks to one destination is left open.
pub proof fn lemma_results_agree(
    g: Graph,
    start: u64,
    dests: Set<u64>,
    budget: Option<usize>,
    s1: Seq<(Seq<Edge>, u64)>,
    s2: Seq<(Seq<Edge>, u64)>,
)
    requires
        g.long_edges_unbranched(),
        dests.finite(),
        budget_or_all(budget, dests.len()) == dests.len(),
        search_result_ok(g, start, dests, budget, s1),
        search_result_ok(g, start, dests, budget, s2),
    ensures
        forall|d: u64| reaches(start, s1, d) <==> reaches(start, s2, d),
        forall|i: int, j: int|
            0 <= i < s1.len() && 0 <= j < s2.len() && route_end(start, #[trigger] s1[i]) == route_end(
                start,
                #[trigger] s2[j],
            ) ==> s1[i].1 == s2[j].1,
        s1.len() == s2.len(),
        route_ends(start, s1) == route_ends(start, s2),
        forall|i: int| 0 <= i < s1.len() ==> (#[trigger] s1[i]).1 == s2[i].1,
{
    lemma_reaches_one_way(g, start, dests, budget, s1, s2);
    lemma_reaches_one_way(g, start, dests, budget, s2, s1);
    assert forall|i: int, j: int|
        0 <= i < s1.len() && 0 <= j < s2.len() && route_end(start, #[trigger] s1[i]) == route_end(
            start,
            #[trigger] s2[j],
        ) implies s1[i].1 == s2[j].1 by {
        assert(g.is_path_from(start, s1[i].0));
        assert(g.is_path_from(start, s2[j].0));
    }
    let r1 = route_ends(start, s1);
    let r2 = route_ends(start, s2);
    assert(r1.no_duplicates()) by {
        assert forall|i: int, j: int| 0 <= i < r1.len() && 0 <= j < r1.len() && i != j implies r1[i] != r1[j] by {
            assert(route_end(start, s1[i]) != route_end(start, s1[j]));
        }
    }
    assert(r2.no_duplicates()) by {
        assert forall|i: int, j: int| 0 <= i < r2.len() && 0 <= j < r2.len() && i != j implies r2[i] != r2[j] by {
            assert(route_end(start, s2[i]) != route_end(start, s2[j]));
        }
    }
    assert(r1.to_set() =~= r2.to_set()) by {
        assert forall|c: u64| r1.to_set().contains(c) <==> r2.to_set().contains(c) by {
            if r1.to_set().contains(c) {
                let i = choose|i: int| 0 <= i < r1.len() && r1[i] == c;
                assert(reaches(start, s1, c));
                let j = choose|j: int| 0 <= j < s2.len() && route_end(start, s2[j]) == c;
                assert(r2[j] == c);
            }
            if r2.to_set().contains(c) {
                let j = choose|j: int| 0 <= j < r2.len() && r2[j] == c;
                assert(reaches(start, s2, c));
                let i = choose|i: int| 0 <= i < s1.len() && route_end(start, s1[i]) == c;
                assert(r1[i] == c);
            }
        }
    }
    r1.unique_seq_to_set();
    r2.unique_seq_to_set();
    lemma_same_order(start, s1, s2);
}

proof fn lemma_reaches_one_way(
    g: Graph,
    start: u64,
    dests: Set<u64>,
    budget: Option<usize>,
    s1: Seq<(Seq<Edge>, u64)>,
    s2: Seq<(Seq<Edge>, u64)>,
)
    requires
        g.long_edges_unbranched(),
        dests.finite(),
        budget_or_all(budget, dests.len()) == dests.len(),
        search_result_ok(g, start, dests, budget, s1),
        search_result_ok(g, start, dests, budget, s2),
    ensures
        forall|d: u64| reaches(start, s1, d) ==> reaches(start, s2, d),
{
    assert forall|d: u64| reaches(start, s1, d) implies reaches(start, s2, d) by {
        let q = choose|q: int| 0 <= q < s1.len() && route_end(start, s1[q]) == d;
        assert(g.is_path_from(start, s1[q].0));
        assert(dests.contains(d));
        if s2.len() < dests.len() {
            assert(end_cell(start, s1[q].0) == d);
        } else {
            lemma_full_result(g, start, dests, budget, s2);
        }
    }
}

/// Sorted in canonical order, leading to distinct cells, and leading back to
/// `start` only by the empty path.
pub open spec fn canonical_list(start: u64, s: Seq<(Seq<Edge>, u64)>) -> bool {
    &&& is_sorted(s)
    &&& forall|i: int, j: int|
        0 <= i < s.len() && 0 <= j < s.len() && i != j ==> route_end(start, #[trigger] s[i]) != route_end(
            start,
            #[trigger] s[j],
        )
    &&& forall|i: int| 0 <= i < s.len() && route_end(start, #[trigger] s[i]) == start ==> s[i].0.len() == 0
}

/// In a canonical list the destination key of a path is fixed by the cell it
/// leads to.
proof fn lemma_key(start: u64, s: Seq<(Seq<Edge>, u64)>, i: int)
    requires
        canonical_list(start, s),
        0 <= i < s.len(),
    ensures
        spec_destination(s[i]) == if route_end(start, s[i]) == start {
            None::<u64>
        } else {
            Some(route_end(start, s[i]))
        },
{
}

proof fn lemma_drop_first_canonical(start: u64, s: Seq<(Seq<Edge>, u64)>)
    requires
        canonical_list(start, s),
        s.len() > 0,
    ensures
        canonical_list(start, s.drop_first()),
        forall|d: u64|
            reaches(start, s.drop_first(), d) <==> (reaches(start, s, d) && d != route_end(start, s[0])),
{
    let t = s.drop_first();
    assert forall|k: int| 0 <= k < t.len() - 1 implies path_le(#[trigger] t[k], t[k + 1]) by {
        assert(t[k] == s[k + 1] && t[k + 1] == s[k + 2]);
    }
    assert forall|i: int, j: int| 0 <= i < t.len() && 0 <= j < t.len() && i != j implies route_end(
        start,
        #[trigger] t[i],
    ) != route_end(start, #[trigger] t[j]) by {
        assert(t[i] == s[i + 1] && t[j] == s[j + 1]);
    }
    assert forall|i: int| 0 <= i < t.len() && route_end(start, #[trigger] t[i]) == start implies t[i].0.len()
        == 0 by {
        assert(t[i] == s[i + 1]);
    }
    assert forall|d: u64| reaches(start, t, d) <==> (reaches(start, s, d) && d != route_end(start, s[0])) by {
        if reaches(start, t, d) {
            let q = choose|q: int| 0 <= q < t.len() && route_end(start, t[q]) == d;
            assert(t[q] == s[q + 1]);
            assert(route_end(start, s[q + 1]) != route_end(start, s[0]));
        }
        if reaches(start, s, d) && d != route_end(start, s[0]) {
            let q = choose|q: int| 0 <= q < s.len() && route_end(start, s[q]) == d;
            assert(q != 0);
            assert(t[q - 1] == s[q]);
        }
    }
}

/// Two canonical lists that lead to the same cells, at the same cost per
/// cell, list those cells in the same order at the same costs.
proof fn lemma_same_order(start: u64, s1: Seq<(Seq<Edge>, u64)>, s2: Seq<(Seq<Edge>, u64)>)
    requires
        canonical_list(start, s1),
        canonical_list(start, s2),
        s1.len() == s2.len(),
        forall|d: u64| reaches(start, s1, d) <==> reaches(start, s2, d),
        forall|i: int, j: int|
            0 <= i < s1.len() && 0 <= j < s2.len() && route_end(start, #[trigger] s1[i]) == route_end(
                start,
                #[trigger] s2[j],
            ) ==> s1[i].1 == s2[j].1,
    ensures
        route_ends(start, s1) == route_ends(start, s2),
        forall|i: int| 0 <= i < s1.len() ==> (#[trigger] s1[i]).1 == s2[i].1,
    decreases s1.len(),
{
    if s1.len() == 0 {
        assert(route_ends(start, s1) =~= route_ends(start, s2));
    } else {
        let e1 = route_end(start, s1[0]);
        let e2 = route_end(start, s2[0]);
        assert(reaches(start, s1, e1));
        assert(reaches(start, s2, e2));
        let j = choose|j: int| 0 <= j < s2.len() && route_end(start, s2[j]) == e1;
        let i = choose|i: int| 0 <= i < s1.len() && route_end(start, s1[i]) == e2;
        lemma_sorted_first_least(s1, i);
        lemma_sorted_first_least(s2, j);
        lemma_key(start, s1, 0);
        lemma_key(start, s1, i);
        lemma_key(start, s2, 0);
        lemma_key(start, s2, j);
        assert(s1[i].1 == s2[0].1);
        assert(s2[j].1 == s1[0].1);
        if e1 != e2 {
            assert(i != 0);
            assert(j != 0);
            assert(spec_destination(s1[0]) != spec_destination(s1[i]));
            assert(spec_destination(s2[0]) == spec_destination(s1[i]));
            assert(spec_destination(s2[j]) == spec_destination(s1[0]));
            assert(destination_le(spec_destination(s1[0]), spec_destination(s1[i])));
            assert(destination_le(spec_destination(s1[i]), spec_destination(s1[0])));
            assert(false);
        }
        let t1 = s1.drop_first();
        let t2 = s2.drop_first();
        lemma_drop_first_canonical(start, s1);
        lemma_drop_first_canonical(start, s2);
        assert forall|a: int, b: int|
            0 <= a < t1.len() && 0 <= b < t2.len() && route_end(start, #[trigger] t1[a]) == route_end(
                start,
                #[trigger] t2[b],
            ) implies t1[a].1 == t2[b].1 by {
            assert(t1[a] == s1[a + 1] && t2[b] == s2[b + 1]);
        }
        assert forall|d: u64| reaches(start, t1, d) <==> reaches(start, t2, d) by {
            assert(reaches(start, s1, d) <==> reaches(start, s2, d));
        }
        lemma_same_order(start, t1, t2);
        assert(route_ends(start, s1) =~= route_ends(start, s2)) by {
            assert forall|k: int| 0 <= k < s1.len() implies route_ends(start, s1)[k] == route_ends(start, s2)[k] by {
                if k > 0 {
                    assert(t1[k - 1] == s1[k] && t2[k - 1] == s2[k]);
                    assert(route_ends(start, t1)[k - 1] == route_ends(start, t2)[k - 1]);
                }
            }
        }
        assert forall|k: int| 0 <= k < s1.len() implies (#[trigger] s1[k]).1 == s2[k].1 by {
            if k > 0 {
                assert(t1[k - 1] == s1[k] && t2[k - 1] == s2[k]);
            }
        }
    }
}

} // verus!

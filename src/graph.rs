//! The routing graph: cells, unit edges, long edges and their weights.
use vstd::prelude::*;

verus! {

/// A directed adjacency between two cells sharing a side.
#[derive(Debug, Clone, Copy, PartialEq, Eq, Structural)]
pub struct Edge {
    pub origin: u64,
    pub destination: u64,
}

/// What a graph node may be used for.
#[derive(Debug, Clone, Copy, PartialEq, Eq, Structural)]
pub struct NodeType {
    pub is_origin: bool,
    pub is_destination: bool,
}

/// A precomputed chain of unit edges without branches, from the origin
/// of its first edge to the destination of its last edge.
#[derive(Debug, Clone)]
pub struct LongEdge {
    pub edges: Vec<Edge>,
}

/// The record the graph holds for one unit edge: its weight, and possibly
/// a long edge starting with this unit edge together with the long edge's
/// aggregated weight.
#[derive(Debug, Clone)]
pub struct EdgeRecord {
    pub edge: Edge,
    pub weight: u64,
    pub longedge: Option<(LongEdge, u64)>,
}

/// A directed, weighted graph of cells.
#[derive(Debug, Clone)]
pub struct Graph {
    pub edges: Vec<EdgeRecord>,
    pub nodes: Vec<(u64, NodeType)>,
}

/// Consecutive edges of `s` meet in a common cell.
pub open spec fn is_chain(s: Seq<Edge>) -> bool {
    forall|i: int| 0 <= i < s.len() - 1 ==> #[trigger] s[i].destination == s[i + 1].origin
}

/// The cell a sequence of edges leads to when it starts at `start`.
pub open spec fn end_cell(start: u64, s: Seq<Edge>) -> u64 {
    if s.len() == 0 {
        start
    } else {
        s.last().destination
    }
}

impl LongEdge {
    pub open spec fn wf(&self) -> bool {
        &&& self.edges@.len() >= 1
        &&& is_chain(self.edges@)
    }

    /// The cells strictly between the long edge's origin and destination.
    pub open spec fn interior_contains(&self, c: u64) -> bool {
        exists|i: int| 0 <= i < self.edges@.len() - 1 && #[trigger] self.edges@[i].destination == c
    }

    pub open spec fn spec_origin_cell(&self) -> u64 {
        self.edges@[0].origin
    }

    pub open spec fn spec_destination_cell(&self) -> u64 {
        self.edges@.last().destination
    }

    pub fn origin_cell(&self) -> (r: u64)
        requires
            self.wf(),
        ensures
            r == self.spec_origin_cell(),
    {
        self.edges[0].origin
    }

    pub fn destination_cell(&self) -> (r: u64)
        requires
            self.wf(),
        ensures
            r == self.spec_destination_cell(),
    {
        self.edges[self.edges.len() - 1].destination
    }

    /// The first unit edge of the chain.
    pub fn in_edge(&self) -> (r: Edge)
        requires
            self.wf(),
        ensures
            r == self.edges@[0],
    {
        self.edges[0]
    }

    /// The last unit edge of the chain.
    pub fn out_edge(&self) -> (r: Edge)
        requires
            self.wf(),
        ensures
            r == self.edges@.last(),
    {
        self.edges[self.edges.len() - 1]
    }
}

impl Graph {
    /// Some record of the graph is for the unit edge `e`.
    pub open spec fn has_edge(&self, e: Edge) -> bool {
        exists|i: int| 0 <= i < self.edges@.len() && #[trigger] self.edges@[i].edge == e
    }

    /// The weight the graph gives the unit edge `e`.
    pub open spec fn edge_weight(&self, e: Edge) -> int {
        let i = choose|i: int| 0 <= i < self.edges@.len() && #[trigger] self.edges@[i].edge == e;
        self.edges@[i].weight as int
    }

    /// The sum of the weights of the unit edges of `s`.
    pub open spec fn path_weight(&self, s: Seq<Edge>) -> int
        decreases s.len(),
    {
        if s.len() == 0 {
            0
        } else {
            self.path_weight(s.drop_last()) + self.edge_weight(s.last())
        }
    }

    /// `s` is a walk along unit edges of the graph starting at `start`.
    pub open spec fn is_path_from(&self, start: u64, s: Seq<Edge>) -> bool {
        &&& is_chain(s)
        &&& (s.len() > 0 ==> s[0].origin == start)
        &&& forall|i: int| 0 <= i < s.len() ==> self.has_edge(#[trigger] s[i])
    }

    /// Unit edges are unique among the records, and each long edge is a chain
    /// of unit edges of the graph that starts with the edge of its record and
    /// weighs as much as its unit edges together.
    pub open spec fn wf(&self) -> bool {
        &&& forall|i: int, j: int|
            0 <= i < self.edges@.len() && 0 <= j < self.edges@.len() && #[trigger] self.edges@[i].edge
                == #[trigger] self.edges@[j].edge ==> i == j
        &&& forall|i: int| 0 <= i < self.edges@.len() ==> self.record_wf(#[trigger] self.edges@[i])
    }

    /// The interior cells of every long edge have no unit edge leaving them
    /// but the next one of the chain.
    pub open spec fn long_edges_unbranched(&self) -> bool {
        forall|k: int, m: int, j: int|
            0 <= k < self.edges@.len() && self.edges@[k].longedge is Some && 0 <= m
                < self.edges@[k].longedge->Some_0.0.edges@.len() - 1 && 0 <= j < self.edges@.len()
                && #[trigger] self.edges@[j].edge.origin == (
            #[trigger] self.edges@[k].longedge->Some_0.0.edges@[m]).destination ==> self.edges@[j].edge
                == self.edges@[k].longedge->Some_0.0.edges@[m + 1]
    }

    pub open spec fn record_wf(&self, r: EdgeRecord) -> bool {
        match r.longedge {
            None => true,
            Some((le, w)) => {
                &&& le.wf()
                &&& le.edges@[0] == r.edge
                &&& self.is_path_from(r.edge.origin, le.edges@)
                &&& w as int == self.path_weight(le.edges@)
            },
        }
    }

    /// The weight of a record's unit edge is the graph's weight of that edge.
    pub proof fn lemma_record_weight(&self, i: int)
        requires
            self.wf(),
            0 <= i < self.edges@.len(),
        ensures
            self.has_edge(self.edges@[i].edge),
            self.edge_weight(self.edges@[i].edge) == self.edges@[i].weight as int,
    {
        let e = self.edges@[i].edge;
        assert(self.has_edge(e));
        let j = choose|j: int| 0 <= j < self.edges@.len() && #[trigger] self.edges@[j].edge == e;
        assert(self.edges@[j].edge == self.edges@[i].edge);
    }

    /// The weight of a concatenation is the sum of the weights of its parts.
    pub proof fn lemma_path_weight_concat(&self, a: Seq<Edge>, b: Seq<Edge>)
        ensures
            self.path_weight(a + b) == self.path_weight(a) + self.path_weight(b),
        decreases b.len(),
    {
        if b.len() == 0 {
            assert(a + b =~= a);
        } else {
            self.lemma_path_weight_concat(a, b.drop_last());
            assert((a + b).drop_last() =~= a + b.drop_last());
        }
    }

    /// The type of the node `cell`: the type given with its first entry
    /// among the nodes, absent when the cell is no node.
    pub open spec fn spec_node_type(&self, cell: u64) -> Option<NodeType> {
        if exists|i: int| 0 <= i < self.nodes@.len() && (#[trigger] self.nodes@[i]).0 == cell {
            let i = choose|i: int|
                0 <= i < self.nodes@.len() && (#[trigger] self.nodes@[i]).0 == cell && forall|j: int|
                    0 <= j < i ==> (#[trigger] self.nodes@[j]).0 != cell;
            Some(self.nodes@[i].1)
        } else {
            None
        }
    }

    /// `cell` is a node usable as a destination, or as an origin.
    pub open spec fn qualifies(&self, cell: u64, for_destinations: bool) -> bool {
        match self.spec_node_type(cell) {
            Some(t) => if for_destinations {
                t.is_destination
            } else {
                t.is_origin
            },
            None => false,
        }
    }

    /// The type of the node `cell`, if it is a node of the graph.
    pub fn node_type(&self, cell: u64) -> (r: Option<NodeType>)
        ensures
            r == self.spec_node_type(cell),
    {
        let mut i: usize = 0;
        while i < self.nodes.len()
            invariant
                i <= self.nodes@.len(),
                forall|k: int| 0 <= k < i ==> (#[trigger] self.nodes@[k]).0 != cell,
            decreases self.nodes@.len() - i,
        {
            if self.nodes[i].0 == cell {
                proof {
                    let c = choose|c: int|
                        0 <= c < self.nodes@.len() && (#[trigger] self.nodes@[c]).0 == cell && forall|j: int|
                            0 <= j < c ==> (#[trigger] self.nodes@[j]).0 != cell;
                    assert(0 <= c < self.nodes@.len() && self.nodes@[c].0 == cell && forall|j: int|
                        0 <= j < c ==> (#[trigger] self.nodes@[j]).0 != cell);
                    assert(c == i) by {
                        if c < i {
                            assert(self.nodes@[c].0 != cell);
                        } else if c > i {
                            assert(self.nodes@[i as int].0 != cell);
                        }
                    }
                }
                return Some(self.nodes[i].1);
            }
            i = i + 1;
        }
        None
    }

    /// The unit edges of the records are pairwise distinct.
    pub open spec fn unique_edges(&self) -> bool {
        forall|i: int, j: int|
            0 <= i < self.edges@.len() && 0 <= j < self.edges@.len() && #[trigger] self.edges@[i].edge
                == #[trigger] self.edges@[j].edge ==> i == j
    }

    /// With unique unit edges, the weight of a record's unit edge is the
    /// record's weight.
    proof fn lemma_unique_weight(&self, i: int)
        requires
            self.unique_edges(),
            0 <= i < self.edges@.len(),
        ensures
            self.has_edge(self.edges@[i].edge),
            self.edge_weight(self.edges@[i].edge) == self.edges@[i].weight as int,
    {
        let e = self.edges@[i].edge;
        assert(self.has_edge(e));
        let j = choose|j: int| 0 <= j < self.edges@.len() && #[trigger] self.edges@[j].edge == e;
        assert(self.edges@[j].edge == self.edges@[i].edge);
    }

    /// The index of the record of the unit edge `e`, if there is one.
    fn find_edge(&self, e: Edge) -> (r: Option<usize>)
        ensures
            r matches Some(j) ==> j < self.edges@.len() && self.edges@[j as int].edge == e,
            r is None ==> !self.has_edge(e),
    {
        let mut j: usize = 0;
        while j < self.edges.len()
            invariant
                j <= self.edges@.len(),
                forall|k: int| 0 <= k < j ==> (#[trigger] self.edges@[k]).edge != e,
            decreases self.edges@.len() - j,
        {
            if self.edges[j].edge == e {
                return Some(j);
            }
            j = j + 1;
        }
        None
    }

    fn edges_are_unique(&self) -> (r: bool)
        ensures
            r == self.unique_edges(),
    {
        let n = self.edges.len();
        let mut i: usize = 0;
        while i < n
            invariant
                n == self.edges@.len(),
                i <= n,
                forall|a: int, b: int|
                    0 <= a < i && 0 <= b < n && a != b ==> #[trigger] self.edges@[a].edge
                        != #[trigger] self.edges@[b].edge,
            decreases n - i,
        {
            let mut j: usize = 0;
            while j < n
                invariant
                    n == self.edges@.len(),
                    i < n,
                    j <= n,
                    forall|a: int, b: int|
                        0 <= a < i && 0 <= b < n && a != b ==> #[trigger] self.edges@[a].edge
                            != #[trigger] self.edges@[b].edge,
                    forall|b: int| 0 <= b < j && b != i ==> self.edges@[i as int].edge != #[trigger] self.edges@[b].edge,
                decreases n - j,
            {
                if j != i && self.edges[i].edge == self.edges[j].edge {
                    return false;
                }
                j = j + 1;
            }
            i = i + 1;
        }
        true
    }

    /// Whether the record `k` satisfies `record_wf`, given unique unit edges.
    fn record_is_well_formed(&self, k: usize) -> (r: bool)
        requires
            self.unique_edges(),
            k < self.edges@.len(),
        ensures
            r == self.record_wf(self.edges@[k as int]),
    {
        let rec = &self.edges[k];
        match &rec.longedge {
            None => true,
            Some((le, w)) => {
                let m = le.edges.len();
                if m == 0 || le.edges[0] != rec.edge {
                    return false;
                }
                let mut sum: u64 = 0;
                let mut i: usize = 0;
                while i < m
                    invariant
                        m == le.edges@.len(),
                        m >= 1,
                        self.unique_edges(),
                        k < self.edges@.len(),
                        *rec == self.edges@[k as int],
                        rec.longedge == Some((*le, *w)),
                        i <= m,
                        le.edges@[0] == rec.edge,
                        forall|t: int| 0 <= t < i - 1 ==> #[trigger] le.edges@[t].destination == le.edges@[t + 1].origin,
                        forall|t: int| 0 <= t < i ==> self.has_edge(#[trigger] le.edges@[t]),
                        sum as int == self.path_weight(le.edges@.subrange(0, i as int)),
                    decreases m - i,
                {
                    let e = le.edges[i];
                    if i > 0 && le.edges[i - 1].destination != e.origin {
                        assert(le.edges@[i - 1].destination != le.edges@[(i - 1) + 1].origin);
                        assert(!is_chain(le.edges@));
                        assert(!le.wf());
                        return false;
                    }
                    match self.find_edge(e) {
                        None => {
                            assert(!self.has_edge(le.edges@[i as int]));
                            assert(!self.is_path_from(rec.edge.origin, le.edges@));
                            return false;
                        },
                        Some(j) => {
                            proof {
                                self.lemma_unique_weight(j as int);
                                let s1 = le.edges@.subrange(0, i + 1);
                                assert(s1.drop_last() =~= le.edges@.subrange(0, i as int));
                                assert(s1.last() == e);
                            }
                            let ew = self.edges[j].weight;
                            match sum.checked_add(ew) {
                                None => {
                                    proof {
                                        self.lemma_path_weight_prefix(le.edges@, i + 1);
                                    }
                                    return false;
                                },
                                Some(s2) => {
                                    sum = s2;
                                },
                            }
                        },
                    }
                    i = i + 1;
                }
                assert(le.edges@.subrange(0, m as int) =~= le.edges@);
                sum == *w
            },
        }
    }

    /// The weight of a walk is at least the weight of each of its prefixes.
    proof fn lemma_path_weight_prefix(&self, s: Seq<Edge>, i: int)
        requires
            0 <= i <= s.len(),
        ensures
            self.path_weight(s.subrange(0, i)) <= self.path_weight(s),
        decreases s.len() - i,
    {
        if i < s.len() {
            self.lemma_path_weight_prefix(s, i + 1);
            let s1 = s.subrange(0, i + 1);
            assert(s1.drop_last() =~= s.subrange(0, i));
            self.lemma_edge_weight_nonneg(s1.last());
        } else {
            assert(s.subrange(0, i) =~= s);
        }
    }

    proof fn lemma_edge_weight_nonneg(&self, e: Edge)
        ensures
            self.edge_weight(e) >= 0,
    {
    }

    /// Whether the graph satisfies `wf`, which routing on it requires.
    pub fn is_well_formed(&self) -> (r: bool)
        ensures
            r == self.wf(),
    {
        if !self.edges_are_unique() {
            return false;
        }
        let mut k: usize = 0;
        while k < self.edges.len()
            invariant
                k <= self.edges@.len(),
                self.unique_edges(),
                forall|t: int| 0 <= t < k ==> self.record_wf(#[trigger] self.edges@[t]),
            decreases self.edges@.len() - k,
        {
            if !self.record_is_well_formed(k) {
                return false;
            }
            k = k + 1;
        }
        true
    }

    /// Whether no interior cell of a long edge has a unit edge leaving it but
    /// the next one of its chain; routing then finds the cheapest walks.
    pub fn long_edges_are_unbranched(&self) -> (r: bool)
        ensures
            r == self.long_edges_unbranched(),
    {
        let n = self.edges.len();
        let mut k: usize = 0;
        while k < n
            invariant
                n == self.edges@.len(),
                k <= n,
                forall|kk: int, m: int, j: int|
                    0 <= kk < k && self.edges@[kk].longedge is Some && 0 <= m
                        < self.edges@[kk].longedge->Some_0.0.edges@.len() - 1 && 0 <= j < n
                        && #[trigger] self.edges@[j].edge.origin == (
                    #[trigger] self.edges@[kk].longedge->Some_0.0.edges@[m]).destination ==> self.edges@[j].edge
                        == self.edges@[kk].longedge->Some_0.0.edges@[m + 1],
            decreases n - k,
        {
            if let Some((le, _)) = &self.edges[k].longedge {
                let len = le.edges.len();
                let last: usize = if len == 0 {
                    0
                } else {
                    len - 1
                };
                let mut m: usize = 0;
                while m < last
                    invariant
                        last == if len == 0 { 0 } else { len - 1 },
                        n == self.edges@.len(),
                        k < n,
                        self.edges@[k as int].longedge == Some((*le, self.edges@[k as int].longedge->Some_0.1)),
                        len == le.edges@.len(),
                        forall|kk: int, mm: int, j: int|
                            0 <= kk < k && self.edges@[kk].longedge is Some && 0 <= mm
                                < self.edges@[kk].longedge->Some_0.0.edges@.len() - 1 && 0 <= j < n
                                && #[trigger] self.edges@[j].edge.origin == (
                            #[trigger] self.edges@[kk].longedge->Some_0.0.edges@[mm]).destination
                                ==> self.edges@[j].edge == self.edges@[kk].longedge->Some_0.0.edges@[mm + 1],
                        forall|mm: int, j: int|
                            0 <= mm < m && 0 <= j < n && #[trigger] self.edges@[j].edge.origin == (
                            #[trigger] le.edges@[mm]).destination ==> self.edges@[j].edge == le.edges@[mm + 1],
                    decreases len - m,
                {
                    let c = le.edges[m].destination;
                    let next = le.edges[m + 1];
                    let mut j: usize = 0;
                    while j < n
                        invariant
                            n == self.edges@.len(),
                            k < n,
                            self.edges@[k as int].longedge == Some((*le, self.edges@[k as int].longedge->Some_0.1)),
                            m + 1 < len,
                            len == le.edges@.len(),
                            c == le.edges@[m as int].destination,
                            next == le.edges@[m + 1],
                            forall|jj: int|
                                0 <= jj < j && #[trigger] self.edges@[jj].edge.origin == c ==> self.edges@[jj].edge
                                    == next,
                        decreases n - j,
                    {
                        if self.edges[j].edge.origin == c && self.edges[j].edge != next {
                            proof {
                                let kk = k as int;
                                let mm = m as int;
                                let jj = j as int;
                                assert(self.edges@[jj].edge.origin == self.edges@[kk].longedge->Some_0.0.edges@[mm].destination);
                            }
                            return false;
                        }
                        j = j + 1;
                    }
                    m = m + 1;
                }
            }
            k = k + 1;
        }
        true
    }
}

} // verus!

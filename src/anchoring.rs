//! Anchoring of user cells to cells of the graph.
use vstd::prelude::*;
use crate::error::Error;
use crate::graph::Graph;

verus! {

/// What the graph reports for a user cell: the cell itself, and the cell of
/// the graph it is anchored to, if any lies within the allowed gap.
#[derive(Debug, Clone, Copy, PartialEq, Eq, Structural)]
pub struct GapBridgedCellNode {
    pub cell: u64,
    pub corresponding_cell_in_graph: Option<u64>,
}

impl GapBridgedCellNode {
    /// The user cell.
    pub fn cell(&self) -> (r: u64)
        ensures
            r == self.cell,
    {
        self.cell
    }

    /// The anchor cell in the graph, absent when the cell could not be
    /// anchored.
    pub fn corresponding_cell_in_graph(&self) -> (r: Option<u64>)
        ensures
            r == self.corresponding_cell_in_graph,
    {
        self.corresponding_cell_in_graph
    }
}

/// What anchoring without gap gives for `cell`: the cell itself when it is a
/// node of the requested kind, else nothing.
pub open spec fn direct_node(g: Graph, cell: u64, for_destinations: bool) -> GapBridgedCellNode {
    GapBridgedCellNode {
        cell,
        corresponding_cell_in_graph: if g.qualifies(cell, for_destinations) {
            Some(cell)
        } else {
            None
        },
    }
}

impl Graph {
    /// Anchors each cell to itself when it is a node usable as a destination
    /// (`for_destinations`) or as an origin; other cells stay unanchored.
    /// Bridging gaps of one cell or more takes the cell grid's neighbourhood,
    /// which the caller supplies as ready `GapBridgedCellNode`s.
    pub fn direct_cell_nodes(&self, cells: &Vec<u64>, for_destinations: bool) -> (r: Vec<GapBridgedCellNode>)
        ensures
            r@.len() == cells@.len(),
            forall|k: int|
                0 <= k < cells@.len() ==> #[trigger] r@[k] == direct_node(*self, cells@[k], for_destinations),
    {
        let mut out: Vec<GapBridgedCellNode> = Vec::new();
        let mut k: usize = 0;
        while k < cells.len()
            invariant
                k <= cells@.len(),
                out@.len() == k,
                forall|j: int|
                    0 <= j < k ==> #[trigger] out@[j] == direct_node(*self, cells@[j], for_destinations),
            decreases cells@.len() - k,
        {
            let cell = cells[k];
            let anchored = match self.node_type(cell) {
                Some(t) => if for_destinations {
                    t.is_destination
                } else {
                    t.is_origin
                },
                None => false,
            };
            let corresponding_cell_in_graph = if anchored {
                Some(cell)
            } else {
                None
            };
            out.push(GapBridgedCellNode { cell, corresponding_cell_in_graph });
            k = k + 1;
        }
        out
    }
}

/// The position of the group of anchor `a` in `g`, or -1 without one.
pub open spec fn group_index(g: Seq<(u64, Seq<u64>)>, a: u64) -> int {
    if exists|i: int| 0 <= i < g.len() && (#[trigger] g[i]).0 == a {
        choose|i: int| 0 <= i < g.len() && (#[trigger] g[i]).0 == a
    } else {
        -1
    }
}

/// Files the user cell `c` under anchor `a`: appended to the group of `a`, or
/// in a new group at the end.
pub open spec fn add_to_group(g: Seq<(u64, Seq<u64>)>, a: u64, c: u64) -> Seq<(u64, Seq<u64>)> {
    let i = group_index(g, a);
    if i >= 0 {
        g.update(i, (a, g[i].1.push(c)))
    } else {
        g.push((a, seq![c]))
    }
}

/// The anchored user cells grouped by anchor, groups in the order in which
/// their anchors first appear, cells within a group in input order.
pub open spec fn origin_groups(nodes: Seq<GapBridgedCellNode>) -> Seq<(u64, Seq<u64>)>
    decreases nodes.len(),
{
    if nodes.len() == 0 {
        Seq::empty()
    } else {
        let g = origin_groups(nodes.drop_last());
        let n = nodes.last();
        match n.corresponding_cell_in_graph {
            None => g,
            Some(a) => add_to_group(g, a, n.cell),
        }
    }
}

/// The anchors of `g` are pairwise distinct.
pub open spec fn distinct_anchors(g: Seq<(u64, Seq<u64>)>) -> bool {
    forall|i: int, j: int| 0 <= i < g.len() && 0 <= j < g.len() && i != j ==> g[i].0 != g[j].0
}

pub open spec fn groups_view(v: Seq<(u64, Vec<u64>)>) -> Seq<(u64, Seq<u64>)> {
    v.map_values(|p: (u64, Vec<u64>)| (p.0, p.1@))
}

/// Maps each anchor to the first user cell anchored there, in the order in
/// which the anchors first appear.
pub open spec fn destination_pairs(nodes: Seq<GapBridgedCellNode>) -> Seq<(u64, u64)>
    decreases nodes.len(),
{
    if nodes.len() == 0 {
        Seq::empty()
    } else {
        let d = destination_pairs(nodes.drop_last());
        let n = nodes.last();
        match n.corresponding_cell_in_graph {
            None => d,
            Some(a) => if exists|i: int| 0 <= i < d.len() && (#[trigger] d[i]).0 == a {
                d
            } else {
                d.push((a, n.cell))
            },
        }
    }
}

/// Some node of `nodes` is anchored.
pub open spec fn any_anchored(nodes: Seq<GapBridgedCellNode>) -> bool {
    exists|i: int| 0 <= i < nodes.len() && (#[trigger] nodes[i]).corresponding_cell_in_graph is Some
}

proof fn lemma_destination_pairs_empty(nodes: Seq<GapBridgedCellNode>)
    ensures
        (destination_pairs(nodes).len() == 0) == !any_anchored(nodes),
    decreases nodes.len(),
{
    if nodes.len() > 0 {
        let rest = nodes.drop_last();
        lemma_destination_pairs_empty(rest);
        if any_anchored(rest) {
            let i = choose|i: int| 0 <= i < rest.len() && (#[trigger] rest[i]).corresponding_cell_in_graph is Some;
            assert(nodes[i] == rest[i]);
        }
        if any_anchored(nodes) && !any_anchored(rest) {
            let i = choose|i: int| 0 <= i < nodes.len() && (#[trigger] nodes[i]).corresponding_cell_in_graph is Some;
            if i < rest.len() {
                assert(rest[i] == nodes[i]);
            }
        }
        if nodes.last().corresponding_cell_in_graph is Some {
            assert(nodes[nodes.len() - 1] == nodes.last());
        }
    }
}

/// Groups the anchored user cells by the cell of the graph they are anchored
/// to, so that one search serves every user cell of a group. User cells
/// without an anchor are left out.
pub fn filtered_origin_cells(nodes: &Vec<GapBridgedCellNode>) -> (r: Vec<(u64, Vec<u64>)>)
    ensures
        groups_view(r@) == origin_groups(nodes@),
        distinct_anchors(groups_view(r@)),
{
    let mut groups: Vec<(u64, Vec<u64>)> = Vec::new();
    let mut k: usize = 0;
    while k < nodes.len()
        invariant
            k <= nodes@.len(),
            groups_view(groups@) == origin_groups(nodes@.subrange(0, k as int)),
            distinct_anchors(groups_view(groups@)),
        decreases nodes@.len() - k,
    {
        let node = nodes[k];
        let ghost gv = groups_view(groups@);
        assert(nodes@.subrange(0, k + 1).drop_last() =~= nodes@.subrange(0, k as int));
        assert(nodes@.subrange(0, k + 1).last() == node);
        if let Some(a) = node.corresponding_cell_in_graph {
            let mut i: usize = 0;
            while i < groups.len() && groups[i].0 != a
                invariant
                    i <= groups@.len(),
                    forall|j: int| 0 <= j < i ==> groups@[j].0 != a,
                decreases groups@.len() - i,
            {
                i = i + 1;
            }
            if i < groups.len() {
                assert(gv[i as int].0 == a);
                assert(group_index(gv, a) == i) by {
                    let c = group_index(gv, a);
                    assert(0 <= c < gv.len() && gv[c].0 == a);
                }
                let ghost before = groups@;
                groups[i].1.push(node.cell);
                assert(groups_view(groups@) =~= gv.update(i as int, (a, gv[i as int].1.push(node.cell))));
            } else {
                assert forall|j: int| 0 <= j < gv.len() implies (#[trigger] gv[j]).0 != a by {
                    assert(gv[j].0 == groups@[j].0);
                }
                let mut cells: Vec<u64> = Vec::new();
                cells.push(node.cell);
                groups.push((a, cells));
                assert(groups_view(groups@) =~= gv.push((a, seq![node.cell])));
            }
        }
        k = k + 1;
    }
    assert(nodes@.subrange(0, k as int) =~= nodes@);
    groups
}

/// Maps each anchor of a destination to the first user cell anchored there.
/// Fails when no destination could be anchored: routing would otherwise
/// traverse the complete graph.
pub fn filtered_destination_cells(nodes: &Vec<GapBridgedCellNode>) -> (r: Result<Vec<(u64, u64)>, Error>)
    ensures
        r is Err <==> !any_anchored(nodes@),
        r matches Err(e) ==> e == Error::DestinationsNotInGraph,
        r matches Ok(v) ==> v@ == destination_pairs(nodes@),
{
    let mut pairs: Vec<(u64, u64)> = Vec::new();
    let mut k: usize = 0;
    while k < nodes.len()
        invariant
            k <= nodes@.len(),
            pairs@ == destination_pairs(nodes@.subrange(0, k as int)),
        decreases nodes@.len() - k,
    {
        let node = nodes[k];
        assert(nodes@.subrange(0, k + 1).drop_last() =~= nodes@.subrange(0, k as int));
        assert(nodes@.subrange(0, k + 1).last() == node);
        if let Some(a) = node.corresponding_cell_in_graph {
            let mut i: usize = 0;
            while i < pairs.len() && pairs[i].0 != a
                invariant
                    i <= pairs@.len(),
                    forall|j: int| 0 <= j < i ==> pairs@[j].0 != a,
                decreases pairs@.len() - i,
            {
                i = i + 1;
            }
            if i == pairs.len() {
                pairs.push((a, node.cell));
            } else {
                assert(pairs@[i as int].0 == a);
            }
        }
        k = k + 1;
    }
    assert(nodes@.subrange(0, k as int) =~= nodes@);
    proof {
        lemma_destination_pairs_empty(nodes@);
    }
    if pairs.len() == 0 {
        Err(Error::DestinationsNotInGraph)
    } else {
        Ok(pairs)
    }
}

} // verus!

//! One-to-many and many-to-many routing entry points.
use vstd::prelude::*;
use crate::anchoring::{
    GapBridgedCellNode, any_anchored, destination_pairs, filtered_destination_cells,
    filtered_origin_cells, group_index, groups_view, origin_groups,
};
use crate::destination_set::DestinationSet;
use crate::dijkstra::{edge_dijkstra, search_result_ok};
use crate::error::Error;
use crate::graph::{Edge, Graph};
use crate::path::{Path, paths_view};

verus! {

/// Options of a routing request.
pub trait ShortestPathOptions {
    /// The gap allowance the options hold.
    spec fn spec_num_gap_cells_to_graph(&self) -> u32;

    /// The destination budget the options hold.
    spec fn spec_num_destinations_to_reach(&self) -> Option<usize>;

    /// Number of cells allowed to be missing between a cell and the graph
    /// while the cell still counts as connected to the graph.
    fn num_gap_cells_to_graph(&self) -> (r: u32)
        ensures
            r == self.spec_num_gap_cells_to_graph(),
    ;

    /// Routing from an origin stops once this many destinations are reached;
    /// when unset, it goes on until all destinations are reached.
    fn num_destinations_to_reach(&self) -> (r: Option<usize>)
        ensures
            r == self.spec_num_destinations_to_reach(),
    ;
}

/// Routing options with a plain value for each option.
#[derive(Debug, Clone, Copy, PartialEq, Eq, Structural)]
pub struct DefaultShortestPathOptions {
    pub num_gap_cells_to_graph: u32,
    pub num_destinations_to_reach: Option<usize>,
}

impl DefaultShortestPathOptions {
    /// No gap bridging and no destination budget.
    pub fn new() -> (r: Self)
        ensures
            r.num_gap_cells_to_graph == 0,
            r.num_destinations_to_reach is None,
    {
        DefaultShortestPathOptions { num_gap_cells_to_graph: 0, num_destinations_to_reach: None }
    }
}

impl Default for DefaultShortestPathOptions {
    fn default() -> (r: Self)
        ensures
            r.num_gap_cells_to_graph == 0,
            r.num_destinations_to_reach is None,
    {
        Self::new()
    }
}

impl ShortestPathOptions for DefaultShortestPathOptions {
    open spec fn spec_num_gap_cells_to_graph(&self) -> u32 {
        self.num_gap_cells_to_graph
    }

    open spec fn spec_num_destinations_to_reach(&self) -> Option<usize> {
        self.num_destinations_to_reach
    }

    fn num_gap_cells_to_graph(&self) -> (r: u32) {
        self.num_gap_cells_to_graph
    }

    fn num_destinations_to_reach(&self) -> (r: Option<usize>) {
        self.num_destinations_to_reach
    }
}

/// The anchors of the destinations that could be anchored.
pub open spec fn anchor_set(nodes: Seq<GapBridgedCellNode>) -> Set<u64> {
    destination_pairs(nodes).map_values(|p: (u64, u64)| p.0).to_set()
}

/// One entry per user cell of every group, carrying its group's result.
pub open spec fn rekeyed(
    groups: Seq<(u64, Seq<u64>)>,
    results: Seq<Seq<(Seq<Edge>, u64)>>,
) -> Seq<(u64, Seq<(Seq<Edge>, u64)>)>
    decreases groups.len(),
{
    if groups.len() == 0 {
        Seq::empty()
    } else {
        let last = groups.len() - 1;
        rekeyed(groups.drop_last(), results) + groups[last].1.map_values(
            |c: u64| (c, results[last]),
        )
    }
}

pub open spec fn keyed_view(v: Seq<(u64, Vec<Path>)>) -> Seq<(u64, Seq<(Seq<Edge>, u64)>)> {
    v.map_values(|e: (u64, Vec<Path>)| (e.0, paths_view(e.1@)))
}

/// `e` pairs a user cell of some group with the result of that group.
pub open spec fn from_some_group(
    groups: Seq<(u64, Seq<u64>)>,
    results: Seq<Seq<(Seq<Edge>, u64)>>,
    e: (u64, Seq<(Seq<Edge>, u64)>),
) -> bool {
    exists|i: int, j: int|
        0 <= i < groups.len() && 0 <= j < groups[i].1.len() && e == (#[trigger] groups[i].1[j], results[i])
}

/// Every user cell of every group is a key of the re-keyed result, with the
/// result of its group; so user cells that share an anchor receive equal
/// path lists. And every entry of the re-keyed result is of that form.
pub proof fn lemma_rekey_fidelity(groups: Seq<(u64, Seq<u64>)>, results: Seq<Seq<(Seq<Edge>, u64)>>)
    requires
        results.len() == groups.len(),
    ensures
        forall|i: int, j: int|
            0 <= i < groups.len() && 0 <= j < groups[i].1.len() ==> rekeyed(groups, results).contains(
                (#[trigger] groups[i].1[j], results[i]),
            ),
        forall|k: int|
            0 <= k < rekeyed(groups, results).len() ==> from_some_group(
                groups,
                results,
                #[trigger] rekeyed(groups, results)[k],
            ),
    decreases groups.len(),
{
    if groups.len() > 0 {
        let last = groups.len() - 1;
        let front = groups.drop_last();
        let rf = results.drop_last();
        lemma_rekey_fidelity(front, rf);
        lemma_rekeyed_prefix(front, results);
        let a = rekeyed(front, results);
        let b = groups[last].1.map_values(|c: u64| (c, results[last]));
        let r = rekeyed(groups, results);
        assert(r == a + b);
        assert(a == rekeyed(front, rf));
        assert forall|i: int, j: int|
            0 <= i < groups.len() && 0 <= j < groups[i].1.len() implies r.contains(
            (#[trigger] groups[i].1[j], results[i]),
        ) by {
            if i < last {
                assert(front[i] == groups[i]);
                assert(a.contains((front[i].1[j], rf[i])));
                let k = choose|k: int| 0 <= k < a.len() && a[k] == (front[i].1[j], rf[i]);
                assert(r[k] == a[k]);
            } else {
                assert(r[a.len() + j] == b[j]);
            }
        }
        assert forall|k: int| 0 <= k < r.len() implies from_some_group(groups, results, #[trigger] r[k]) by {
            if k < a.len() {
                assert(r[k] == a[k]);
                assert(from_some_group(front, rf, a[k]));
                let (i, j) = choose|i: int, j: int|
                    0 <= i < front.len() && 0 <= j < front[i].1.len() && a[k] == (
                        #[trigger] front[i].1[j],
                        rf[i],
                    );
                assert(front[i] == groups[i]);
                assert(r[k] == (groups[i].1[j], results[i]));
            } else {
                let j = k - a.len();
                assert(r[k] == b[j]);
                assert(r[k] == (groups[last].1[j], results[last]));
            }
        }
    }
}

/// The re-keyed result of a prefix of the groups reads only the matching
/// prefix of the results.
proof fn lemma_rekeyed_prefix(groups: Seq<(u64, Seq<u64>)>, results: Seq<Seq<(Seq<Edge>, u64)>>)
    requires
        results.len() >= groups.len(),
    ensures
        rekeyed(groups, results) == rekeyed(groups, results.subrange(0, groups.len() as int)),
        results.len() == groups.len() + 1 ==> results.subrange(0, groups.len() as int) == results.drop_last(),
    decreases groups.len(),
{
    if results.len() == groups.len() + 1 {
        assert(results.subrange(0, groups.len() as int) =~= results.drop_last());
    }
    if groups.len() > 0 {
        let front = groups.drop_last();
        let sub = results.subrange(0, groups.len() as int);
        lemma_rekeyed_prefix(front, results);
        lemma_rekeyed_prefix(front, sub);
        assert(sub.subrange(0, front.len() as int) =~= results.subrange(0, front.len() as int));
    }
}

fn clone_paths(v: &Vec<Path>) -> (r: Vec<Path>)
    ensures
        paths_view(r@) == paths_view(v@),
{
    let mut out: Vec<Path> = Vec::new();
    let mut i: usize = 0;
    while i < v.len()
        invariant
            i <= v@.len(),
            paths_view(out@) == paths_view(v@.subrange(0, i as int)),
        decreases v@.len() - i,
    {
        let p = v[i].duplicate();
        let ghost prev = out@;
        out.push(p);
        proof {
            assert(v@.subrange(0, i + 1) =~= v@.subrange(0, i as int).push(v@[i as int]));
            assert(paths_view(out@) =~= paths_view(prev).push(p@));
            assert(paths_view(v@.subrange(0, i + 1)) =~= paths_view(v@.subrange(0, i as int)).push(
                v@[i as int]@,
            ));
        }
        i = i + 1;
    }
    assert(v@.subrange(0, i as int) =~= v@);
    out
}

/// Emits, for every user cell of every group, the result of its group.
pub fn rekey(groups: &Vec<(u64, Vec<u64>)>, results: &Vec<Vec<Path>>) -> (r: Vec<(u64, Vec<Path>)>)
    requires
        results@.len() == groups@.len(),
    ensures
        keyed_view(r@) == rekeyed(groups_view(groups@), results@.map_values(|v: Vec<Path>| paths_view(v@))),
{
    let ghost gv = groups_view(groups@);
    let ghost rv = results@.map_values(|v: Vec<Path>| paths_view(v@));
    let mut out: Vec<(u64, Vec<Path>)> = Vec::new();
    let mut i: usize = 0;
    while i < groups.len()
        invariant
            i <= groups@.len(),
            results@.len() == groups@.len(),
            gv == groups_view(groups@),
            rv == results@.map_values(|v: Vec<Path>| paths_view(v@)),
            keyed_view(out@) == rekeyed(gv.subrange(0, i as int), rv),
        decreases groups@.len() - i,
    {
        let cells = &groups[i].1;
        let mut j: usize = 0;
        let ghost base = keyed_view(out@);
        let ghost tail = gv[i as int].1.map_values(|c: u64| (c, rv[i as int]));
        while j < cells.len()
            invariant
                j <= cells@.len(),
                i < groups@.len(),
                *cells == groups@[i as int].1,
                i < results@.len(),
                gv == groups_view(groups@),
                rv == results@.map_values(|v: Vec<Path>| paths_view(v@)),
                tail == gv[i as int].1.map_values(|c: u64| (c, rv[i as int])),
                tail.len() == cells@.len(),
                keyed_view(out@) == base + tail.subrange(0, j as int),
            decreases cells@.len() - j,
        {
            let copy = clone_paths(&results[i]);
            let ghost prev = out@;
            out.push((cells[j], copy));
            proof {
                assert(rv[i as int] == paths_view(results@[i as int]@));
                assert(gv[i as int] == (groups@[i as int].0, groups@[i as int].1@));
                assert(tail[j as int] == (cells@[j as int], rv[i as int]));
                assert(keyed_view(out@) =~= keyed_view(prev).push(tail[j as int]));
            }
            j = j + 1;
            assert(keyed_view(out@) =~= base + tail.subrange(0, j as int));
        }
        assert(tail.subrange(0, j as int) =~= tail);
        assert(gv.subrange(0, i + 1).drop_last() =~= gv.subrange(0, i as int));
        i = i + 1;
    }
    assert(gv.subrange(0, i as int) =~= gv);
    out
}

/// The destination anchors as a set.
fn destination_set(pairs: &Vec<(u64, u64)>) -> (r: DestinationSet)
    ensures
        r.wf(),
        r@ == pairs@.map_values(|p: (u64, u64)| p.0).to_set(),
{
    let mut cells: Vec<u64> = Vec::new();
    let mut i: usize = 0;
    while i < pairs.len()
        invariant
            i <= pairs@.len(),
            cells@ == pairs@.subrange(0, i as int).map_values(|p: (u64, u64)| p.0),
        decreases pairs@.len() - i,
    {
        cells.push(pairs[i].0);
        i = i + 1;
        assert(cells@ =~= pairs@.subrange(0, i as int).map_values(|p: (u64, u64)| p.0));
    }
    assert(pairs@.subrange(0, i as int) =~= pairs@);
    DestinationSet::new(&cells)
}

impl Graph {
    /// Shortest paths from one origin to the destinations.
    ///
    /// An origin without anchor yields no paths. Otherwise the request fails
    /// when no destination could be anchored, and else a search from the
    /// origin's anchor to the destination anchors gives the paths.
    ///
    /// The cells arrive already anchored: the caller changes their resolution
    /// and bridges gaps of up to `num_gap_cells_to_graph` cells before the
    /// call (`direct_cell_nodes` does so for a gap of zero). Only the
    /// destination budget of `options` is read here.
    pub fn shortest_path(
        &self,
        origin: GapBridgedCellNode,
        destinations: &Vec<GapBridgedCellNode>,
        options: &DefaultShortestPathOptions,
    ) -> (r: Result<Vec<Path>, Error>)
        requires
            self.wf(),
        ensures
            origin.corresponding_cell_in_graph is None ==> (r matches Ok(v) && v@.len() == 0),
            origin.corresponding_cell_in_graph is Some && !any_anchored(destinations@) ==> r == Err::<
                Vec<Path>,
                Error,
            >(Error::DestinationsNotInGraph),
            origin.corresponding_cell_in_graph is Some && any_anchored(destinations@) ==> (
            r matches Ok(v) && search_result_ok(
                *self,
                origin.corresponding_cell_in_graph->Some_0,
                anchor_set(destinations@),
                options.num_destinations_to_reach,
                paths_view(v@),
            )),
    {
        let mut origins: Vec<GapBridgedCellNode> = Vec::new();
        origins.push(origin);
        let groups = filtered_origin_cells(&origins);
        proof {
            assert(origins@.drop_last() =~= Seq::<GapBridgedCellNode>::empty());
            assert(origins@.last() == origin);
            let empty = Seq::<(u64, Seq<u64>)>::empty();
            assert(origin_groups(origins@.drop_last()) == empty);
            if let Some(a) = origin.corresponding_cell_in_graph {
                assert(group_index(empty, a) == -1);
                assert(origin_groups(origins@) == seq![(a, seq![origin.cell])]);
            } else {
                assert(origin_groups(origins@) == empty);
            }
        }
        if groups.len() == 0 {
            return Ok(Vec::new());
        }
        let anchor = groups[0].0;
        assert(groups_view(groups@)[0] == (groups@[0].0, groups@[0].1@));
        match filtered_destination_cells(destinations) {
            Err(e) => Err(e),
            Ok(pairs) => {
                let set = destination_set(&pairs);
                Ok(edge_dijkstra(self, anchor, &set, options.num_destinations_to_reach))
            },
        }
    }

    /// Shortest paths from each origin to the destinations, keyed by the
    /// user's origin cells.
    ///
    /// Without an anchored origin the result is empty. Otherwise the request
    /// fails when no destination could be anchored. Else one search runs per
    /// origin anchor, and each user cell anchored there receives its result.
    ///
    /// As for `shortest_path`, gap bridging is the caller's work, done before
    /// the call; only the destination budget of `options` is read here.
    pub fn shortest_path_many_to_many(
        &self,
        origins: &Vec<GapBridgedCellNode>,
        destinations: &Vec<GapBridgedCellNode>,
        options: &DefaultShortestPathOptions,
    ) -> (r: Result<Vec<(u64, Vec<Path>)>, Error>)
        requires
            self.wf(),
        ensures
            origin_groups(origins@).len() == 0 ==> (r matches Ok(v) && v@.len() == 0),
            origin_groups(origins@).len() > 0 && !any_anchored(destinations@) ==> r == Err::<
                Vec<(u64, Vec<Path>)>,
                Error,
            >(Error::DestinationsNotInGraph),
            origin_groups(origins@).len() > 0 && any_anchored(destinations@) ==> (r matches Ok(v)
                && exists|results: Seq<Seq<(Seq<Edge>, u64)>>|
                #![trigger rekeyed(origin_groups(origins@), results)]
                {
                    &&& results.len() == origin_groups(origins@).len()
                    &&& keyed_view(v@) == rekeyed(origin_groups(origins@), results)
                    &&& forall|i: int|
                        0 <= i < results.len() ==> search_result_ok(
                            *self,
                            (#[trigger] origin_groups(origins@)[i]).0,
                            anchor_set(destinations@),
                            options.num_destinations_to_reach,
                            results[i],
                        )
                }),
    {
        let groups = filtered_origin_cells(origins);
        if groups.len() == 0 {
            return Ok(Vec::new());
        }
        let pairs = match filtered_destination_cells(destinations) {
            Err(e) => {
                return Err(e);
            },
            Ok(pairs) => pairs,
        };
        let set = destination_set(&pairs);
        let ghost gv = groups_view(groups@);
        let mut results: Vec<Vec<Path>> = Vec::new();
        let mut i: usize = 0;
        while i < groups.len()
            invariant
                self.wf(),
                set.wf(),
                set@ == anchor_set(destinations@),
                gv == groups_view(groups@),
                i <= groups@.len(),
                results@.len() == i,
                forall|k: int|
                    0 <= k < i ==> search_result_ok(
                        *self,
                        #[trigger] gv[k].0,
                        anchor_set(destinations@),
                        options.num_destinations_to_reach,
                        paths_view(results@[k]@),
                    ),
            decreases groups@.len() - i,
        {
            let paths = edge_dijkstra(self, groups[i].0, &set, options.num_destinations_to_reach);
            results.push(paths);
            i = i + 1;
        }
        let out = rekey(&groups, &results);
        let ghost rv = results@.map_values(|v: Vec<Path>| paths_view(v@));
        assert(keyed_view(out@) == rekeyed(origin_groups(origins@), rv));
        assert forall|k: int| 0 <= k < rv.len() implies search_result_ok(
            *self,
            (#[trigger] origin_groups(origins@)[k]).0,
            anchor_set(destinations@),
            options.num_destinations_to_reach,
            rv[k],
        ) by {
            assert(gv[k].0 == origin_groups(origins@)[k].0);
        }
        Ok(out)
    }

    /// Like `shortest_path_many_to_many`, with every path handed through
    /// `path_map_fn` after the paths of each origin were put in canonical
    /// order. Gap bridging is the caller's work, done before the call.
    pub fn shortest_path_many_to_many_map<F, O>(
        &self,
        origins: &Vec<GapBridgedCellNode>,
        destinations: &Vec<GapBridgedCellNode>,
        options: &DefaultShortestPathOptions,
        path_map_fn: &F,
    ) -> (r: Result<Vec<(u64, Vec<O>)>, Error>) where F: Fn(Path) -> O
        requires
            self.wf(),
            forall|p: Path| path_map_fn.requires((p,)),
        ensures
            origin_groups(origins@).len() == 0 ==> (r matches Ok(v) && v@.len() == 0),
            origin_groups(origins@).len() > 0 && !any_anchored(destinations@) ==> r == Err::<
                Vec<(u64, Vec<O>)>,
                Error,
            >(Error::DestinationsNotInGraph),
            origin_groups(origins@).len() > 0 && any_anchored(destinations@) ==> (r matches Ok(v)
                && exists|results: Seq<Seq<(Seq<Edge>, u64)>>|
                #![trigger rekeyed(origin_groups(origins@), results)]
                {
                    &&& results.len() == origin_groups(origins@).len()
                    &&& mapped_from(*path_map_fn, v@, rekeyed(origin_groups(origins@), results))
                    &&& forall|i: int|
                        0 <= i < results.len() ==> search_result_ok(
                            *self,
                            (#[trigger] origin_groups(origins@)[i]).0,
                            anchor_set(destinations@),
                            options.num_destinations_to_reach,
                            results[i],
                        )
                }),
    {
        match self.shortest_path_many_to_many(origins, destinations, options) {
            Err(e) => Err(e),
            Ok(keyed) => {
                let ghost kv = keyed_view(keyed@);
                let out = map_keyed(&keyed, path_map_fn);
                assert(mapped_from(*path_map_fn, out@, kv));
                Ok(out)
            },
        }
    }
}

/// `v` holds, key by key and position by position, what `f` makes of the
/// paths of `keyed`.
pub open spec fn mapped_from<F: Fn(Path) -> O, O>(
    f: F,
    v: Seq<(u64, Vec<O>)>,
    keyed: Seq<(u64, Seq<(Seq<Edge>, u64)>)>,
) -> bool {
    &&& v.len() == keyed.len()
    &&& forall|k: int|
        #![trigger v[k]]
        0 <= k < v.len() ==> {
            &&& v[k].0 == keyed[k].0
            &&& v[k].1@.len() == keyed[k].1.len()
            &&& forall|m: int|
                0 <= m < v[k].1@.len() ==> made_from(f, keyed[k].1[m], #[trigger] v[k].1@[m])
        }
}

/// `o` is what `f` returned for a path with the view `pv`.
pub open spec fn made_from<F: Fn(Path) -> O, O>(f: F, pv: (Seq<Edge>, u64), o: O) -> bool {
    exists|p: Path| p@ == pv && #[trigger] f.ensures((p,), o)
}

fn map_keyed<F: Fn(Path) -> O, O>(keyed: &Vec<(u64, Vec<Path>)>, f: &F) -> (r: Vec<(u64, Vec<O>)>)
    requires
        forall|p: Path| f.requires((p,)),
    ensures
        mapped_from(*f, r@, keyed_view(keyed@)),
{
    let ghost kv = keyed_view(keyed@);
    let mut out: Vec<(u64, Vec<O>)> = Vec::new();
    let mut k: usize = 0;
    while k < keyed.len()
        invariant
            k <= keyed@.len(),
            kv == keyed_view(keyed@),
            forall|p: Path| f.requires((p,)),
            mapped_from(*f, out@, kv.subrange(0, k as int)),
        decreases keyed@.len() - k,
    {
        let paths = &keyed[k].1;
        let mut mapped: Vec<O> = Vec::new();
        let mut m: usize = 0;
        while m < paths.len()
            invariant
                m <= paths@.len(),
                k < keyed@.len(),
                *paths == keyed@[k as int].1,
                forall|p: Path| f.requires((p,)),
                mapped@.len() == m,
                forall|j: int| 0 <= j < m ==> made_from(*f, paths@[j]@, #[trigger] mapped@[j]),
            decreases paths@.len() - m,
        {
            let p = paths[m].duplicate();
            let ghost pv = p;
            let o = f(p);
            let ghost prev = mapped@;
            mapped.push(o);
            assert forall|j: int| 0 <= j < m + 1 implies made_from(*f, paths@[j]@, #[trigger] mapped@[j]) by {
                if j < m {
                    assert(mapped@[j] == prev[j]);
                } else {
                    assert(pv@ == paths@[j]@ && f.ensures((pv,), mapped@[j]));
                }
            }
            m = m + 1;
        }
        let ghost prev_out = out@;
        out.push((keyed[k].0, mapped));
        proof {
            let ks = kv.subrange(0, k + 1);
            assert forall|i: int| 0 <= i < out@.len() implies {
                &&& (#[trigger] out@[i]).0 == ks[i].0
                &&& out@[i].1@.len() == ks[i].1.len()
                &&& forall|j: int|
                    0 <= j < out@[i].1@.len() ==> made_from(*f, ks[i].1[j], #[trigger] out@[i].1@[j])
            } by {
                if i < k {
                    assert(out@[i] == prev_out[i]);
                    assert(ks[i] == kv.subrange(0, k as int)[i]);
                } else {
                    assert(ks[i] == kv[k as int]);
                    assert(kv[k as int] == (keyed@[k as int].0, paths_view(keyed@[k as int].1@)));
                    assert forall|j: int| 0 <= j < out@[i].1@.len() implies made_from(
                        *f,
                        ks[i].1[j],
                        #[trigger] out@[i].1@[j],
                    ) by {
                        assert(ks[i].1[j] == paths@[j]@);
                        assert(out@[i].1@[j] == mapped@[j]);
                    }
                }
            }
        }
        k = k + 1;
    }
    assert(kv.subrange(0, k as int) =~= kv);
    out
}

} // verus!

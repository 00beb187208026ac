use h3ron_graph::anchoring::{filtered_destination_cells, filtered_origin_cells, GapBridgedCellNode};
use h3ron_graph::destination_set::DestinationSet;
use h3ron_graph::dijkstra::edge_dijkstra;
use h3ron_graph::error::Error;
use h3ron_graph::graph::{Edge, EdgeRecord, Graph, LongEdge, NodeType};
use h3ron_graph::path::{path_less_or_equal, sort_paths, Path};
use h3ron_graph::shortest_path::{rekey, DefaultShortestPathOptions};

const C0: u64 = 100;
const C1: u64 = 101;
const C2: u64 = 102;
const C3: u64 = 103;
const C4: u64 = 104;

fn e(origin: u64, destination: u64) -> Edge {
    Edge { origin, destination }
}

fn unit(origin: u64, destination: u64, weight: u64) -> EdgeRecord {
    EdgeRecord { edge: e(origin, destination), weight, longedge: None }
}

fn graph(edges: Vec<EdgeRecord>) -> Graph {
    Graph { edges, nodes: vec![] }
}

fn on_graph(cell: u64) -> GapBridgedCellNode {
    GapBridgedCellNode { cell, corresponding_cell_in_graph: Some(cell) }
}

fn no_budget() -> DefaultShortestPathOptions {
    DefaultShortestPathOptions::new()
}

fn budget(k: usize) -> DefaultShortestPathOptions {
    DefaultShortestPathOptions { num_gap_cells_to_graph: 0, num_destinations_to_reach: Some(k) }
}

fn chain_graph_with_long_edge() -> Graph {
    let long = LongEdge { edges: vec![e(C0, C1), e(C1, C2), e(C2, C3), e(C3, C4)] };
    graph(vec![
        EdgeRecord { edge: e(C0, C1), weight: 1, longedge: Some((long, 4)) },
        unit(C1, C2, 1),
        unit(C2, C3, 1),
        unit(C3, C4, 1),
    ])
}

#[test]
fn trivial_single_edge() {
    let g = graph(vec![unit(C0, C1, 5)]);
    let paths = g.shortest_path(on_graph(C0), &vec![on_graph(C1)], &no_budget()).unwrap();
    assert_eq!(paths.len(), 1);
    assert_eq!(paths[0].cost, 5);
    assert_eq!(paths[0].edges, vec![e(C0, C1)]);
}

#[test]
fn two_paths_tie_break_is_deterministic() {
    let g = graph(vec![unit(C0, C1, 1), unit(C1, C3, 2), unit(C0, C2, 2), unit(C2, C3, 1)]);
    let first = g.shortest_path(on_graph(C0), &vec![on_graph(C3)], &no_budget()).unwrap();
    let second = g.shortest_path(on_graph(C0), &vec![on_graph(C3)], &no_budget()).unwrap();
    assert_eq!(first.len(), 1);
    assert_eq!(first[0].cost, 3);
    assert_eq!(first[0].edges.len(), 2);
    assert_eq!(first[0].edges[0].origin, C0);
    assert_eq!(first[0].edges[1].destination, C3);
    assert_eq!(first[0].edges, second[0].edges);
    assert_eq!(first[0].cost, second[0].cost);
}

#[test]
fn long_edge_with_intervening_destination() {
    let g = chain_graph_with_long_edge();
    let paths = g
        .shortest_path(on_graph(C0), &vec![on_graph(C2), on_graph(C4)], &no_budget())
        .unwrap();
    assert_eq!(paths.len(), 2);
    assert_eq!(paths[0].cost, 2);
    assert_eq!(paths[0].edges, vec![e(C0, C1), e(C1, C2)]);
    assert_eq!(paths[1].cost, 4);
    assert_eq!(paths[1].edges, vec![e(C0, C1), e(C1, C2), e(C2, C3), e(C3, C4)]);
}

#[test]
fn long_edge_is_taken_and_expanded() {
    let g = chain_graph_with_long_edge();
    let paths = g.shortest_path(on_graph(C0), &vec![on_graph(C4)], &no_budget()).unwrap();
    assert_eq!(paths.len(), 1);
    assert_eq!(paths[0].cost, 4);
    assert_eq!(paths[0].edges, vec![e(C0, C1), e(C1, C2), e(C2, C3), e(C3, C4)]);
}

#[test]
fn gap_bridged_origin_is_keyed_by_user_cell() {
    let user_cell: u64 = 99;
    let g = graph(vec![unit(C0, C1, 5), unit(C1, C2, 2)]);
    let origins = vec![GapBridgedCellNode { cell: user_cell, corresponding_cell_in_graph: Some(C0) }];
    let options = DefaultShortestPathOptions { num_gap_cells_to_graph: 1, num_destinations_to_reach: None };
    let dests = vec![on_graph(C2)];
    let result = g.shortest_path_many_to_many(&origins, &dests, &options).unwrap();
    assert_eq!(result.len(), 1);
    assert_eq!(result[0].0, user_cell);
    let direct = g.shortest_path(on_graph(C0), &dests, &options).unwrap();
    assert_eq!(result[0].1.len(), direct.len());
    assert_eq!(result[0].1[0].edges, direct[0].edges);
    assert_eq!(result[0].1[0].cost, direct[0].cost);
    assert_eq!(direct[0].cost, 7);
}

#[test]
fn empty_destinations_fail() {
    let g = graph(vec![unit(C0, C1, 5)]);
    let r = g.shortest_path(on_graph(C0), &vec![], &no_budget());
    assert!(matches!(r, Err(Error::DestinationsNotInGraph)));
    let r = g.shortest_path_many_to_many(&vec![on_graph(C0)], &vec![], &no_budget());
    assert!(matches!(r, Err(Error::DestinationsNotInGraph)));
}

#[test]
fn unanchored_destinations_fail() {
    let g = graph(vec![unit(C0, C1, 5)]);
    let dests = vec![GapBridgedCellNode { cell: 7, corresponding_cell_in_graph: None }];
    let r = g.shortest_path(on_graph(C0), &dests, &no_budget());
    assert!(matches!(r, Err(Error::DestinationsNotInGraph)));
}

#[test]
fn unanchored_origin_gives_no_paths() {
    let g = graph(vec![unit(C0, C1, 5)]);
    let origin = GapBridgedCellNode { cell: 7, corresponding_cell_in_graph: None };
    let r = g.shortest_path(origin, &vec![], &no_budget()).unwrap();
    assert!(r.is_empty());
    let r = g.shortest_path_many_to_many(&vec![origin], &vec![on_graph(C1)], &no_budget()).unwrap();
    assert!(r.is_empty());
}

/// Origins 1, 2 and 3 on a line of cells 10..=16 with unit weights in both
/// directions; destinations 10, 12, 14, 15, 16.
fn line_graph() -> Graph {
    let mut edges = vec![];
    for c in 10..16u64 {
        edges.push(unit(c, c + 1, 1));
        edges.push(unit(c + 1, c, 1));
    }
    graph(edges)
}

#[test]
fn budgeted_many_to_many() {
    let g = line_graph();
    let origins = vec![on_graph(11), on_graph(13), on_graph(16)];
    let dests: Vec<GapBridgedCellNode> = [10u64, 12, 14, 15, 16].iter().map(|c| on_graph(*c)).collect();
    let result = g.shortest_path_many_to_many(&origins, &dests, &budget(2)).unwrap();
    assert_eq!(result.len(), 3);
    let find = |cell: u64| result.iter().find(|(c, _)| *c == cell).unwrap().1.clone();
    let from11 = find(11);
    assert_eq!(from11.len(), 2);
    assert_eq!((from11[0].cost, from11[0].destination_cell()), (1, Some(10)));
    assert_eq!((from11[1].cost, from11[1].destination_cell()), (1, Some(12)));
    let from13 = find(13);
    assert_eq!(from13.len(), 2);
    assert_eq!((from13[0].cost, from13[0].destination_cell()), (1, Some(12)));
    assert_eq!((from13[1].cost, from13[1].destination_cell()), (1, Some(14)));
    let from16 = find(16);
    assert_eq!(from16.len(), 2);
    assert_eq!((from16[0].cost, from16[0].destination_cell()), (0, None));
    assert_eq!((from16[1].cost, from16[1].destination_cell()), (1, Some(15)));
}

#[test]
fn zero_budget_gives_no_paths() {
    let g = line_graph();
    let paths = g.shortest_path(on_graph(11), &vec![on_graph(12)], &budget(0)).unwrap();
    assert!(paths.is_empty());
}

#[test]
fn paths_are_sorted_by_cost_then_destination() {
    let g = line_graph();
    let dests: Vec<GapBridgedCellNode> = [10u64, 12, 14, 15, 16].iter().map(|c| on_graph(*c)).collect();
    let paths = g.shortest_path(on_graph(13), &dests, &no_budget()).unwrap();
    let summary: Vec<(u64, Option<u64>)> = paths.iter().map(|p| (p.cost, p.destination_cell())).collect();
    assert_eq!(
        summary,
        vec![(1, Some(12)), (1, Some(14)), (2, Some(15)), (3, Some(10)), (3, Some(16))]
    );
    for p in &paths {
        let sum: u64 = p.edges.iter().map(|_| 1u64).sum();
        assert_eq!(p.cost, sum);
    }
}

#[test]
fn shared_anchor_gets_equal_path_lists() {
    let g = line_graph();
    let origins = vec![
        GapBridgedCellNode { cell: 1, corresponding_cell_in_graph: Some(13) },
        GapBridgedCellNode { cell: 2, corresponding_cell_in_graph: Some(13) },
        GapBridgedCellNode { cell: 3, corresponding_cell_in_graph: None },
    ];
    let dests = vec![on_graph(10), on_graph(16)];
    let result = g.shortest_path_many_to_many(&origins, &dests, &no_budget()).unwrap();
    assert_eq!(result.len(), 2);
    assert_eq!(result[0].0, 1);
    assert_eq!(result[1].0, 2);
    assert_eq!(result[0].1.len(), 2);
    for (a, b) in result[0].1.iter().zip(result[1].1.iter()) {
        assert_eq!(a.edges, b.edges);
        assert_eq!(a.cost, b.cost);
    }
}

#[test]
fn edge_dijkstra_stops_after_budget() {
    let g = line_graph();
    let set = DestinationSet::new(&vec![10, 12, 14, 15, 16]);
    let all = edge_dijkstra(&g, 13, &set, None);
    assert_eq!(all.len(), 5);
    let one = edge_dijkstra(&g, 13, &set, Some(1));
    assert_eq!(one.len(), 1);
    assert_eq!(one[0].cost, 1);
}

#[test]
fn unreachable_destination_is_left_out() {
    let g = graph(vec![unit(C0, C1, 5), unit(C2, C3, 1)]);
    let paths = g
        .shortest_path(on_graph(C0), &vec![on_graph(C1), on_graph(C3)], &no_budget())
        .unwrap();
    assert_eq!(paths.len(), 1);
    assert_eq!(paths[0].destination_cell(), Some(C1));
}

#[test]
fn overflowing_weights_are_not_followed() {
    let g = graph(vec![unit(C0, C1, u64::MAX), unit(C1, C2, 1)]);
    let paths = g
        .shortest_path(on_graph(C0), &vec![on_graph(C1), on_graph(C2)], &no_budget())
        .unwrap();
    assert_eq!(paths.len(), 1);
    assert_eq!(paths[0].cost, u64::MAX);
}

#[test]
fn origin_cells_are_grouped_by_anchor() {
    let nodes = vec![
        GapBridgedCellNode { cell: 1, corresponding_cell_in_graph: Some(20) },
        GapBridgedCellNode { cell: 2, corresponding_cell_in_graph: None },
        GapBridgedCellNode { cell: 3, corresponding_cell_in_graph: Some(30) },
        GapBridgedCellNode { cell: 4, corresponding_cell_in_graph: Some(20) },
    ];
    let groups = filtered_origin_cells(&nodes);
    assert_eq!(groups, vec![(20, vec![1, 4]), (30, vec![3])]);
}

#[test]
fn destination_cells_keep_first_user_cell() {
    let nodes = vec![
        GapBridgedCellNode { cell: 1, corresponding_cell_in_graph: Some(20) },
        GapBridgedCellNode { cell: 2, corresponding_cell_in_graph: Some(20) },
        GapBridgedCellNode { cell: 3, corresponding_cell_in_graph: Some(30) },
    ];
    let pairs = filtered_destination_cells(&nodes).unwrap();
    assert_eq!(pairs, vec![(20, 1), (30, 3)]);
}

#[test]
fn destination_set_membership_and_disjointness() {
    let set = DestinationSet::new(&vec![5, 3, 9, 3]);
    assert_eq!(set.len(), 3);
    assert!(set.contains(3));
    assert!(set.contains(9));
    assert!(!set.contains(4));
    assert!(!set.is_empty());
    let crossing = LongEdge { edges: vec![e(1, 3), e(3, 4), e(4, 6)] };
    assert!(!set.is_disjoint(&crossing));
    let ending = LongEdge { edges: vec![e(1, 2), e(2, 4), e(4, 5)] };
    assert!(set.is_disjoint(&ending));
    assert_eq!(ending.origin_cell(), 1);
    assert_eq!(ending.destination_cell(), 5);
    assert_eq!(ending.in_edge(), e(1, 2));
    assert_eq!(ending.out_edge(), e(4, 5));
}

#[test]
fn canonical_order_of_paths() {
    let a = Path { edges: vec![e(1, 2)], cost: 3 };
    let b = Path { edges: vec![e(1, 3)], cost: 3 };
    let c = Path { edges: vec![e(0, 2)], cost: 3 };
    let d = Path { edges: vec![], cost: 3 };
    let cheap = Path { edges: vec![e(9, 9)], cost: 1 };
    assert!(path_less_or_equal(&a, &b));
    assert!(!path_less_or_equal(&b, &a));
    assert!(path_less_or_equal(&c, &a));
    assert!(path_less_or_equal(&d, &c));
    let sorted = sort_paths(vec![b.clone(), a.clone(), cheap.clone(), c.clone(), d.clone()]);
    let costs_dests: Vec<(u64, Option<u64>)> = sorted.iter().map(|p| (p.cost, p.destination_cell())).collect();
    assert_eq!(costs_dests, vec![(1, Some(9)), (3, None), (3, Some(2)), (3, Some(2)), (3, Some(3))]);
    assert_eq!(sorted[2].edges, vec![e(0, 2)]);
    assert_eq!(sorted[3].edges, vec![e(1, 2)]);
}

#[test]
fn rekey_copies_group_results() {
    let groups = vec![(20u64, vec![1u64, 4]), (30, vec![3])];
    let results = vec![vec![Path { edges: vec![e(20, 21)], cost: 2 }], vec![]];
    let out = rekey(&groups, &results);
    assert_eq!(out.len(), 3);
    assert_eq!(out[0].0, 1);
    assert_eq!(out[1].0, 4);
    assert_eq!(out[2].0, 3);
    assert_eq!(out[0].1[0].edges, vec![e(20, 21)]);
    assert_eq!(out[1].1[0].cost, 2);
    assert!(out[2].1.is_empty());
}

#[test]
fn direct_cell_nodes_anchor_matching_nodes() {
    let g = Graph {
        edges: vec![unit(C0, C1, 1)],
        nodes: vec![
            (C0, NodeType { is_origin: true, is_destination: false }),
            (C1, NodeType { is_origin: false, is_destination: true }),
        ],
    };
    let origins = g.direct_cell_nodes(&vec![C0, C1, C2], false);
    assert_eq!(
        origins,
        vec![
            GapBridgedCellNode { cell: C0, corresponding_cell_in_graph: Some(C0) },
            GapBridgedCellNode { cell: C1, corresponding_cell_in_graph: None },
            GapBridgedCellNode { cell: C2, corresponding_cell_in_graph: None },
        ]
    );
    let dests = g.direct_cell_nodes(&vec![C0, C1], true);
    assert_eq!(dests[0].corresponding_cell_in_graph(), None);
    assert_eq!(dests[1].corresponding_cell_in_graph(), Some(C1));
    assert_eq!(dests[1].cell(), C1);
    let paths = g.shortest_path(origins[0], &dests, &no_budget()).unwrap();
    assert_eq!(paths.len(), 1);
    assert_eq!(paths[0].cost, 1);
}

#[test]
fn node_type_lookup() {
    let g = Graph {
        edges: vec![unit(C0, C1, 1)],
        nodes: vec![(C0, NodeType { is_origin: true, is_destination: false })],
    };
    assert_eq!(g.node_type(C0), Some(NodeType { is_origin: true, is_destination: false }));
    assert_eq!(g.node_type(C1), None);
    let twice = Graph {
        edges: vec![],
        nodes: vec![
            (C0, NodeType { is_origin: true, is_destination: false }),
            (C0, NodeType { is_origin: false, is_destination: true }),
        ],
    };
    assert_eq!(twice.node_type(C0), Some(NodeType { is_origin: true, is_destination: false }));
}

#[test]
fn error_messages() {
    assert_eq!(Error::EmptyArray.message(), "Empty array");
    assert_eq!(Error::DestinationsNotInGraph.message(), "none of the destination cells is part of the graph");
}

#[test]
fn many_to_many_map_transforms_paths() {
    let g = line_graph();
    let origins = vec![
        GapBridgedCellNode { cell: 1, corresponding_cell_in_graph: Some(13) },
        on_graph(11),
    ];
    let dests = vec![on_graph(10), on_graph(16)];
    let to_cost = |p: Path| p.cost;
    let result = g.shortest_path_many_to_many_map(&origins, &dests, &no_budget(), &to_cost).unwrap();
    assert_eq!(result, vec![(1, vec![3, 3]), (11, vec![1, 5])]);
    let none = g.shortest_path_many_to_many_map(&origins, &vec![], &no_budget(), &to_cost);
    assert!(matches!(none, Err(Error::DestinationsNotInGraph)));
}

#[test]
fn default_options() {
    let o = DefaultShortestPathOptions::default();
    assert_eq!(o.num_gap_cells_to_graph, 0);
    assert_eq!(o.num_destinations_to_reach, None);
    assert_eq!(o, DefaultShortestPathOptions::new());
}

#[test]
fn well_formed_graphs() {
    assert!(line_graph().is_well_formed());
    assert!(chain_graph_with_long_edge().is_well_formed());
    assert!(chain_graph_with_long_edge().long_edges_are_unbranched());
    assert!(line_graph().long_edges_are_unbranched());
    assert!(graph(vec![]).is_well_formed());
}

#[test]
fn duplicate_unit_edges_are_not_well_formed() {
    let g = graph(vec![unit(C0, C1, 1), unit(C0, C1, 2)]);
    assert!(!g.is_well_formed());
}

#[test]
fn inconsistent_long_edges_are_not_well_formed() {
    let wrong_weight = LongEdge { edges: vec![e(C0, C1), e(C1, C2)] };
    let g = graph(vec![
        EdgeRecord { edge: e(C0, C1), weight: 1, longedge: Some((wrong_weight, 3)) },
        unit(C1, C2, 1),
    ]);
    assert!(!g.is_well_formed());
    let missing = LongEdge { edges: vec![e(C0, C1), e(C1, C2)] };
    let g = graph(vec![EdgeRecord { edge: e(C0, C1), weight: 1, longedge: Some((missing, 2)) }]);
    assert!(!g.is_well_formed());
    let broken = LongEdge { edges: vec![e(C0, C1), e(C2, C3)] };
    let g = graph(vec![
        EdgeRecord { edge: e(C0, C1), weight: 1, longedge: Some((broken, 2)) },
        unit(C2, C3, 1),
    ]);
    assert!(!g.is_well_formed());
    let other_start = LongEdge { edges: vec![e(C1, C2)] };
    let g = graph(vec![
        EdgeRecord { edge: e(C0, C1), weight: 1, longedge: Some((other_start, 1)) },
        unit(C1, C2, 1),
    ]);
    assert!(!g.is_well_formed());
}

#[test]
fn branch_off_a_long_edge_is_not_explored() {
    let side: u64 = 109;
    let long = LongEdge { edges: vec![e(C0, C1), e(C1, C2), e(C2, C3), e(C3, C4)] };
    let g = graph(vec![
        EdgeRecord { edge: e(C0, C1), weight: 1, longedge: Some((long, 4)) },
        unit(C1, C2, 1),
        unit(C2, C3, 1),
        unit(C3, C4, 1),
        unit(C1, side, 1),
    ]);
    assert!(g.is_well_formed());
    assert!(!g.long_edges_are_unbranched());
    let paths = g.shortest_path(on_graph(C0), &vec![on_graph(side)], &no_budget()).unwrap();
    assert!(paths.is_empty());
    let paths = g
        .shortest_path(on_graph(C0), &vec![on_graph(side), on_graph(C1)], &no_budget())
        .unwrap();
    assert_eq!(paths.len(), 2);
    assert_eq!((paths[0].cost, paths[0].destination_cell()), (1, Some(C1)));
    assert_eq!((paths[1].cost, paths[1].destination_cell()), (2, Some(side)));
}

#[test]
fn cheaper_detour_is_found() {
    let g = graph(vec![unit(C0, C4, 10), unit(C0, C1, 1), unit(C1, C2, 1), unit(C2, C4, 1)]);
    let paths = g.shortest_path(on_graph(C0), &vec![on_graph(C4)], &no_budget()).unwrap();
    assert_eq!(paths.len(), 1);
    assert_eq!(paths[0].cost, 3);
    assert_eq!(paths[0].edges, vec![e(C0, C1), e(C1, C2), e(C2, C4)]);
}

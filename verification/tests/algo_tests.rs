use std::collections::HashMap;

use prepona::connected_components::ConnectedComponents;
use prepona::dsets::DisjointSets;
use prepona::id_map::IdMap;
use prepona::kruskal::Kruskal;
use prepona::storage::AdjMatrix;
use prepona::storage::EdgeType;
use prepona::storage::Weight;

fn undirected() -> AdjMatrix {
    AdjMatrix::init(EdgeType::Undirected)
}

#[test]
fn empty_graph() {
    let graph = undirected();

    let pairs = Kruskal::init(&graph).execute(&graph);

    assert_eq!(pairs.len(), 0);
}

#[test]
fn trivial_directed_graph() {
    //  Given: Graph
    //                5
    //      f ----------------.
    //      |                 |
    //    3 |  1     1     4  |
    //      a --- b --- d --- e
    //    3 |   5 |   2 |   1 |
    //      |     |     |     |
    //      c ----'-----'-----'
    let mut graph = undirected();
    let a = graph.add_vertex();
    let b = graph.add_vertex();
    let c = graph.add_vertex();
    let d = graph.add_vertex();
    let e = graph.add_vertex();
    let f = graph.add_vertex();

    graph.add_edge(a, b, Weight::Finite(1)).unwrap();
    graph.add_edge(a, c, Weight::Finite(3)).unwrap();
    graph.add_edge(a, f, Weight::Finite(3)).unwrap();

    graph.add_edge(b, c, Weight::Finite(5)).unwrap();
    graph.add_edge(b, d, Weight::Finite(1)).unwrap();

    graph.add_edge(d, c, Weight::Finite(2)).unwrap();
    graph.add_edge(d, e, Weight::Finite(4)).unwrap();

    graph.add_edge(e, c, Weight::Finite(1)).unwrap();
    graph.add_edge(e, f, Weight::Finite(5)).unwrap();

    let mut tags = HashMap::<usize, &'static str>::new();
    tags.insert(a, "a");
    tags.insert(b, "b");
    tags.insert(c, "c");
    tags.insert(d, "d");
    tags.insert(e, "e");
    tags.insert(f, "f");

    let pairs = Kruskal::init(&graph).execute(&graph);

    assert_eq!(pairs.len(), 5);
    assert!(vec![(a, b), (b, a)]
        .iter()
        .any(|pair| pairs.contains(&pair)));

    assert!(vec![(b, d), (d, b)]
        .iter()
        .any(|pair| pairs.contains(&pair)));

    assert!(vec![(e, c), (c, e)]
        .iter()
        .any(|pair| pairs.contains(&pair)));

    assert!(vec![(c, d), (d, c)]
        .iter()
        .any(|pair| pairs.contains(&pair)));

    assert!(vec![(a, f), (f, a)]
        .iter()
        .any(|pair| pairs.contains(&pair)));
}

#[test]
fn kruskal_total_weight_is_minimal() {
    // same graph as `trivial_directed_graph`: the forest must weigh
    // 1 + 1 + 1 + 2 + 3 = 8
    let mut graph = undirected();
    let a = graph.add_vertex();
    let b = graph.add_vertex();
    let c = graph.add_vertex();
    let d = graph.add_vertex();
    let e = graph.add_vertex();
    let f = graph.add_vertex();

    graph.add_edge(a, b, Weight::Finite(1)).unwrap();
    graph.add_edge(a, c, Weight::Finite(3)).unwrap();
    graph.add_edge(a, f, Weight::Finite(3)).unwrap();
    graph.add_edge(b, c, Weight::Finite(5)).unwrap();
    graph.add_edge(b, d, Weight::Finite(1)).unwrap();
    graph.add_edge(d, c, Weight::Finite(2)).unwrap();
    graph.add_edge(d, e, Weight::Finite(4)).unwrap();
    graph.add_edge(e, c, Weight::Finite(1)).unwrap();
    graph.add_edge(e, f, Weight::Finite(5)).unwrap();

    let pairs = Kruskal::init(&graph).execute(&graph);

    assert_eq!(pairs.len(), 5);
    let total: u64 = pairs
        .iter()
        .map(|&(u, v)| match graph.get(u, v).unwrap() {
            Weight::Finite(w) => w,
            Weight::Infinite => panic!("accepted pair is not an edge"),
        })
        .sum();
    assert_eq!(total, 8);
    // every accepted pair is a real edge with ascending endpoints
    for &(u, v) in &pairs {
        assert!(u < v);
        assert!(graph.get(u, v).unwrap().is_finite());
    }
}

#[test]
fn cc_test() {
    //      a  ---  b   d           g
    //      |      /    |
    //      c ___/      e  --- f
    let mut graph = undirected();
    let a = graph.add_vertex();
    let b = graph.add_vertex();
    let c = graph.add_vertex();
    let d = graph.add_vertex();
    let e = graph.add_vertex();
    let f = graph.add_vertex();
    let g = graph.add_vertex();

    graph.add_edge(a, b, Weight::Finite(1)).unwrap();
    graph.add_edge(a, c, Weight::Finite(1)).unwrap();
    graph.add_edge(c, b, Weight::Finite(1)).unwrap();

    graph.add_edge(d, e, Weight::Finite(1)).unwrap();
    graph.add_edge(e, f, Weight::Finite(1)).unwrap();

    let mut tags = HashMap::<usize, &'static str>::new();
    tags.insert(a, "a");
    tags.insert(b, "b");
    tags.insert(c, "c");
    tags.insert(d, "d");
    tags.insert(e, "e");
    tags.insert(f, "f");
    tags.insert(g, "g");

    let ccs = ConnectedComponents::init(&graph).execute(&graph);

    for cc in ccs {
        println!(
            "{:?}",
            cc.iter()
                .map(|v_id| tags.get(v_id).unwrap().to_string())
                .collect::<String>()
        )
    }
}

#[test]
fn connected_components_partition() {
    // components {a, b, c} (edges a-b, a-c, c-b), {d, e, f} (d-e, e-f),
    // and the isolated {g}
    let mut graph = undirected();
    let a = graph.add_vertex();
    let b = graph.add_vertex();
    let c = graph.add_vertex();
    let d = graph.add_vertex();
    let e = graph.add_vertex();
    let f = graph.add_vertex();
    let g = graph.add_vertex();

    graph.add_edge(a, b, Weight::Finite(1)).unwrap();
    graph.add_edge(a, c, Weight::Finite(1)).unwrap();
    graph.add_edge(c, b, Weight::Finite(1)).unwrap();
    graph.add_edge(d, e, Weight::Finite(1)).unwrap();
    graph.add_edge(e, f, Weight::Finite(1)).unwrap();

    let ccs = ConnectedComponents::init(&graph).execute(&graph);

    assert_eq!(ccs.len(), 3);
    let mut memberships: Vec<Vec<usize>> = ccs
        .iter()
        .map(|cc| {
            let mut s = cc.clone();
            s.sort();
            s
        })
        .collect();
    memberships.sort();
    assert_eq!(memberships, vec![vec![a, b, c], vec![d, e, f], vec![g]]);
    // partition: together the components hold each live vertex exactly once
    let mut all: Vec<usize> = ccs.iter().flatten().copied().collect();
    all.sort();
    assert_eq!(all, vec![a, b, c, d, e, f, g]);
}

#[test]
fn component_opens_with_minimum_member() {
    let mut graph = undirected();
    let a = graph.add_vertex();
    let b = graph.add_vertex();
    let c = graph.add_vertex();
    let d = graph.add_vertex();
    graph.add_edge(c, a, Weight::Finite(1)).unwrap();
    graph.add_edge(d, b, Weight::Finite(1)).unwrap();

    let ccs = ConnectedComponents::init(&graph).execute(&graph);
    assert_eq!(ccs.len(), 2);
    for cc in &ccs {
        let min = *cc.iter().min().unwrap();
        assert_eq!(cc[0], min);
    }
}

#[test]
fn kruskal_result_weights_nondecreasing() {
    let mut graph = undirected();
    let a = graph.add_vertex();
    let b = graph.add_vertex();
    let c = graph.add_vertex();
    let d = graph.add_vertex();
    graph.add_edge(a, b, Weight::Finite(9)).unwrap();
    graph.add_edge(b, c, Weight::Finite(1)).unwrap();
    graph.add_edge(c, d, Weight::Finite(5)).unwrap();

    let pairs = Kruskal::init(&graph).execute(&graph);
    let weights: Vec<u64> = pairs
        .iter()
        .map(|&(u, v)| match graph.get(u, v).unwrap() {
            Weight::Finite(w) => w,
            Weight::Infinite => panic!("accepted pair is not an edge"),
        })
        .collect();
    assert_eq!(weights, vec![1, 5, 9]);
}

#[test]
fn connected_components_after_removal() {
    // removing the cut vertex b splits {a, b, c} into {a} and {c}
    let mut graph = undirected();
    let a = graph.add_vertex();
    let b = graph.add_vertex();
    let c = graph.add_vertex();
    graph.add_edge(a, b, Weight::Finite(1)).unwrap();
    graph.add_edge(b, c, Weight::Finite(1)).unwrap();

    let before = ConnectedComponents::init(&graph).execute(&graph);
    assert_eq!(before.len(), 1);

    graph.remove_vertex(b).unwrap();
    let after = ConnectedComponents::init(&graph).execute(&graph);
    assert_eq!(after.len(), 2);
    let mut memberships: Vec<Vec<usize>> = after.into_iter().collect();
    memberships.sort();
    assert_eq!(memberships, vec![vec![a], vec![c]]);
}

#[test]
fn kruskal_spanning_forest_edge_count() {
    // two components: a triangle and one extra edge; the forest has
    // (vertex count) - (component count) = 5 - 2 = 3 edges
    let mut graph = undirected();
    let a = graph.add_vertex();
    let b = graph.add_vertex();
    let c = graph.add_vertex();
    let d = graph.add_vertex();
    let e = graph.add_vertex();
    graph.add_edge(a, b, Weight::Finite(2)).unwrap();
    graph.add_edge(b, c, Weight::Finite(3)).unwrap();
    graph.add_edge(a, c, Weight::Finite(10)).unwrap();
    graph.add_edge(d, e, Weight::Finite(1)).unwrap();

    let pairs = Kruskal::init(&graph).execute(&graph);
    assert_eq!(pairs.len(), 3);
    // the heaviest triangle edge is not in the minimum forest
    assert!(!pairs.contains(&(a, c)) && !pairs.contains(&(c, a)));
    let total: u64 = pairs
        .iter()
        .map(|&(u, v)| match graph.get(u, v).unwrap() {
            Weight::Finite(w) => w,
            Weight::Infinite => panic!("accepted pair is not an edge"),
        })
        .sum();
    assert_eq!(total, 6);
}

#[test]
fn id_map_round_trip() {
    let mut graph = undirected();
    let a = graph.add_vertex();
    let b = graph.add_vertex();
    let c = graph.add_vertex();
    graph.remove_vertex(b).unwrap();

    let map = graph.continuous_id_map();
    assert_eq!(map.len(), 2);
    assert_eq!(map.real_id_of(0), a);
    assert_eq!(map.real_id_of(1), c);
    assert_eq!(map.virt_id_of(a), 0);
    assert_eq!(map.virt_id_of(c), 1);
    assert_eq!(map.get_virt_to_real(1), Some(c));
    assert_eq!(map.get_virt_to_real(2), None);
}

#[test]
fn vertices_and_neighbors() {
    let mut graph = undirected();
    let a = graph.add_vertex();
    let b = graph.add_vertex();
    let c = graph.add_vertex();
    graph.add_edge(a, b, Weight::Finite(1)).unwrap();
    assert_eq!(graph.vertices(), vec![a, b, c]);
    assert_eq!(graph.neighbors(a), vec![b]);
    assert_eq!(graph.neighbors(b), vec![a]);
    assert_eq!(graph.neighbors(c), Vec::<usize>::new());
    let mut edges = graph.edges();
    edges.sort();
    assert_eq!(edges, vec![(a, b, 1), (b, a, 1)]);
}

#[test]
fn disjoint_sets_merge() {
    let mut sets = DisjointSets::init(4);
    assert!(sets.same_set(0, 0));
    assert!(!sets.same_set(0, 1));
    sets.union(0, 1);
    assert!(sets.same_set(0, 1));
    assert!(!sets.same_set(0, 2));
    sets.union(2, 3);
    sets.union(1, 3);
    assert!(sets.same_set(0, 3));
    assert!(sets.same_set(1, 2));
}

#[test]
fn id_map_is_rebuilt_after_mutation() {
    let mut graph = undirected();
    let a = graph.add_vertex();
    let b = graph.add_vertex();
    let map_before = graph.continuous_id_map();
    assert_eq!(map_before.len(), 2);
    graph.remove_vertex(a).unwrap();
    let map_after = graph.continuous_id_map();
    assert_eq!(map_after.len(), 1);
    assert_eq!(map_after.real_id_of(0), b);
    let _ = IdMap { virt_to_real: vec![b] };
}

use prepona::storage::AdjMatrix;
use prepona::storage::EdgeType;
use prepona::storage::Weight;
use prepona::subgraph::MultiRootSubgraph;
use prepona::subgraph::Subgraph;

fn sample_graph() -> (AdjMatrix, usize, usize, usize, usize) {
    let mut g = AdjMatrix::init(EdgeType::Undirected);
    let a = g.add_vertex();
    let b = g.add_vertex();
    let c = g.add_vertex();
    let d = g.add_vertex();
    g.add_edge(a, b, Weight::Finite(1)).unwrap();
    g.add_edge(b, c, Weight::Finite(2)).unwrap();
    g.add_edge(c, d, Weight::Finite(3)).unwrap();
    (g, a, b, c, d)
}

#[test]
fn multi_root_subgraph_roots() {
    let (g, a, b, c, _) = sample_graph();
    let sub = MultiRootSubgraph::init(
        &g,
        vec![(a, b, 1), (b, c, 2)],
        vec![a, b, c],
        vec![a, c],
    );
    assert_eq!(sub.roots(), &vec![a, c]);
    assert!(sub.is_root(a));
    assert!(!sub.is_root(b));
    assert!(sub.is_root(c));
    assert!(!sub.is_root(99));
}

#[test]
fn subgraph_queries() {
    let (g, a, b, c, d) = sample_graph();
    let sub = MultiRootSubgraph::init(
        &g,
        vec![(a, b, 1), (b, c, 2)],
        vec![a, b, c],
        vec![a],
    );

    assert_eq!(sub.vertices(), vec![a, b, c]);
    assert_eq!(sub.edges_count(), 2);
    assert_eq!(sub.edges(), vec![(a, b, 1), (b, c, 2)]);

    // undirected: both endpoints are neighbors of b
    assert_eq!(sub.neighbors(b), vec![a, c]);
    assert_eq!(sub.edges_from(b), vec![(a, 1), (c, 2)]);
    assert_eq!(sub.edges_from(d), Vec::<(usize, u64)>::new());

    assert!(sub.has_any_edge(a, b));
    assert!(sub.has_any_edge(b, a));
    assert!(!sub.has_any_edge(a, c));

    assert_eq!(sub.edges_between(b, a), vec![1]);
    assert_eq!(sub.edges_between(a, c), Vec::<u64>::new());

    assert_eq!(sub.edge(0), Some((a, b, 1)));
    assert_eq!(sub.edge(5), None);
    assert_eq!(sub.edge_between(a, b, 0), Some(1));
    assert_eq!(sub.edge_between(a, c, 0), None);
    assert_eq!(sub.edge_between(a, b, 9), None);

    // the directed view exposes each undirected edge once per direction
    assert_eq!(
        sub.as_directed_edges(),
        vec![(a, b, 1), (b, c, 2), (b, a, 1), (c, b, 2)]
    );
}

#[test]
fn directed_subgraph_views() {
    let mut g = AdjMatrix::init(EdgeType::Directed);
    let a = g.add_vertex();
    let b = g.add_vertex();
    g.add_edge(a, b, Weight::Finite(1)).unwrap();
    let sub = Subgraph::init(&g, vec![(a, b, 1)], vec![a, b]);
    assert_eq!(sub.neighbors(a), vec![b]);
    assert_eq!(sub.neighbors(b), Vec::<usize>::new());
    assert!(sub.has_any_edge(a, b));
    assert!(!sub.has_any_edge(b, a));
    assert_eq!(sub.as_directed_edges(), vec![(a, b, 1)]);
}

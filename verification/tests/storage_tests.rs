use prepona::storage::AdjMatrix;
use prepona::storage::EdgeType;
use prepona::storage::GraphError;
use prepona::storage::Weight;

#[test]
fn add_vertex() {
    let mut adj_matrix = AdjMatrix::init(EdgeType::Directed);

    for i in 0usize..10 {
        let vertex_id = adj_matrix.add_vertex();
        assert_eq!(i, vertex_id);
    }

    assert_eq!(adj_matrix.vertex_count(), 10);
    assert_eq!(adj_matrix.slots.len(), 100);
}

#[test]
fn access_using_index() {
    let mut adj_matrix = AdjMatrix::init(EdgeType::Directed);

    for _ in 0usize..10 {
        let _ = adj_matrix.add_vertex();
    }

    for i in 0..adj_matrix.vertex_count() {
        for j in 0..adj_matrix.vertex_count() {
            assert!(adj_matrix.get(i, j).unwrap().is_infinite())
        }
    }
}

#[test]
fn undirected_storage_is_triangular() {
    let mut m = AdjMatrix::init(EdgeType::Undirected);
    for n in 1usize..=10 {
        m.add_vertex();
        assert_eq!(m.slots.len(), n * (n + 1) / 2);
    }
}

#[test]
fn vertex_count_accounting() {
    let mut m = AdjMatrix::init(EdgeType::Undirected);
    let a = m.add_vertex();
    let b = m.add_vertex();
    let c = m.add_vertex();
    assert_eq!(m.total_vertex_count(), 3);
    assert_eq!(m.vertex_count(), 3);
    assert_eq!(m.reusable_ids.len(), 0);

    m.remove_vertex(b).unwrap();
    assert_eq!(m.total_vertex_count(), 3);
    assert_eq!(m.vertex_count(), 2);
    assert_eq!(m.reusable_ids.len(), 1);
    // no id is simultaneously live and reusable
    for id in 0..m.total_vertex_count() {
        assert!(!(m.is_live(id) && m.reusable_ids.contains(&id)));
    }
    assert!(m.is_live(a));
    assert!(!m.is_live(b));
    assert!(m.is_live(c));

    // the recycled id is preferred by the next addition
    let d = m.add_vertex();
    assert_eq!(d, b);
    assert_eq!(m.total_vertex_count(), 3);
    assert_eq!(m.vertex_count(), 3);
    assert_eq!(m.reusable_ids.len(), 0);
}

#[test]
fn remove_edge_is_idempotent() {
    let mut m = AdjMatrix::init(EdgeType::Undirected);
    let a = m.add_vertex();
    let b = m.add_vertex();
    m.add_edge(a, b, Weight::Finite(7)).unwrap();

    let first = m.remove_edge(a, b).unwrap();
    assert_eq!(first, Weight::Finite(7));

    let second = m.remove_edge(a, b).unwrap();
    assert_eq!(second, Weight::Infinite);
    // and the storage state is unchanged by the second removal
    assert_eq!(m.get(a, b).unwrap(), Weight::Infinite);
    assert_eq!(m.slots.len(), 3);
}

#[test]
fn remove_vertex_clears_incident_slots() {
    let mut m = AdjMatrix::init(EdgeType::Undirected);
    let a = m.add_vertex();
    let b = m.add_vertex();
    let c = m.add_vertex();
    let d = m.add_vertex();
    m.add_edge(a, b, Weight::Finite(1)).unwrap();
    m.add_edge(b, c, Weight::Finite(2)).unwrap();
    m.add_edge(b, d, Weight::Finite(3)).unwrap();
    m.add_edge(a, c, Weight::Finite(9)).unwrap();

    m.remove_vertex(b).unwrap();

    // every slot incident to b, in both directions, is cleared
    for other in [a, c, d] {
        assert!(m
            .get(other, b)
            .is_err_and(|e| e == GraphError::InvalidVertex(b)));
    }
    // unrelated slots are untouched
    assert_eq!(m.get(a, c).unwrap(), Weight::Finite(9));
    assert_eq!(m.get(a, d).unwrap(), Weight::Infinite);
    // readding reuses b's id with all its slots absent
    let e = m.add_vertex();
    assert_eq!(e, b);
    for other in [a, c, d] {
        assert_eq!(m.get(other, e).unwrap(), Weight::Infinite);
        assert_eq!(m.get(e, other).unwrap(), Weight::Infinite);
    }
}

#[test]
fn undirected_edge_is_symmetric() {
    let mut m = AdjMatrix::init(EdgeType::Undirected);
    let a = m.add_vertex();
    let b = m.add_vertex();
    m.add_edge(a, b, Weight::Finite(4)).unwrap();
    assert_eq!(m.get(b, a).unwrap(), Weight::Finite(4));
    assert_eq!(m.get(a, b).unwrap(), Weight::Finite(4));
}

#[test]
fn directed_edge_is_one_way() {
    let mut m = AdjMatrix::init(EdgeType::Directed);
    let a = m.add_vertex();
    let b = m.add_vertex();
    m.add_edge(a, b, Weight::Finite(4)).unwrap();
    assert_eq!(m.get(a, b).unwrap(), Weight::Finite(4));
    assert_eq!(m.get(b, a).unwrap(), Weight::Infinite);
}

#[test]
fn access_error_kinds_are_distinguishable() {
    let mut m = AdjMatrix::init(EdgeType::Undirected);
    let a = m.add_vertex();
    let b = m.add_vertex();
    m.remove_vertex(b).unwrap();

    // a recycled id reports which vertex is invalid
    assert_eq!(m.get(b, a), Err(GraphError::InvalidVertex(b)));
    assert_eq!(m.get(a, b), Err(GraphError::InvalidVertex(b)));
    assert_eq!(
        m.add_edge(b, a, Weight::Finite(1)),
        Err(GraphError::InvalidVertex(b))
    );
    assert_eq!(m.remove_edge(a, b), Err(GraphError::InvalidVertex(b)));

    // an id beyond the matrix width is an out-of-bounds access
    assert_eq!(m.get(5, a), Err(GraphError::OutOfBounds));
    assert_eq!(m.add_edge(a, 5, Weight::Finite(1)), Err(GraphError::OutOfBounds));

    // removing a vertex that is not live is a precondition violation
    assert_eq!(m.remove_vertex(b), Err(GraphError::InvalidVertex(b)));
    assert_eq!(m.remove_vertex(17), Err(GraphError::InvalidVertex(17)));
}

#[test]
fn weight_sentinel_orders_above_finite() {
    assert!(Weight::Finite(u64::MAX).le(&Weight::Infinite));
    assert!(!Weight::Infinite.le(&Weight::Finite(u64::MAX)));
    assert!(Weight::Infinite.le(&Weight::Infinite));
    assert!(Weight::Finite(3).le(&Weight::Finite(4)));
    assert!(!Weight::Finite(4).le(&Weight::Finite(3)));
    assert!(Weight::Finite(0).is_finite());
    assert!(Weight::Infinite.is_infinite());
}

#[test]
fn is_directed_flags() {
    let d = AdjMatrix::init(EdgeType::Directed);
    assert!(d.is_directed());
    assert!(!d.is_undirected());
    let u = AdjMatrix::init(EdgeType::Undirected);
    assert!(u.is_undirected());
    assert!(!u.is_directed());
}

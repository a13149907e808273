//! An in-memory graph library built around an adjacency-matrix storage
//! engine: directed and undirected layouts with closed-form slot indexing,
//! vertex-id recycling, a real/virtual id mapping, a depth-first traversal
//! engine with a listener protocol, and the classic algorithms built on top
//! (connected components, Kruskal's minimum spanning forest), plus a
//! read-only subgraph projection.

pub mod connected_components;
pub mod dsets;
pub mod kruskal;
pub mod id_map;
pub mod storage;
pub mod subgraph;
pub mod traversal;

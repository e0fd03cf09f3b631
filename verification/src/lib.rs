//! Fire spreading and containment on weighted directed road graphs.
//!
//! A fire ignites at a number of root nodes and travels along the edges of a
//! graph, taking as many ticks to cross an edge as the edge weighs. Every few
//! ticks a containment strategy may defend a bounded number of nodes, which
//! then never burn.
//!
//! The crate provides the graph store with its text format, an indexed binary
//! min-heap, single-source shortest paths, the record of burning and defended
//! nodes, the containment strategies and the simulation that drives them.
pub mod binary_minheap;
pub mod fire;
pub mod format;
pub mod geometry;
pub mod graph;
pub mod node_data;
mod ordering;
pub mod problem;
pub mod random;
pub mod settings;
pub mod shortest_path;
pub mod strategy;

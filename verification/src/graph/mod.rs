//! Graphs: an editable graph keyed by arbitrary vertex numbers, and the dense
//! adjacency-list graph that the search works on.

pub mod generator;
pub mod parser;
pub mod simple_graph;
pub mod undirected;

pub use generator::{GeneratorError, SimpleGraphGenerator};
pub use parser::{build_graph, normalize_edges, parse_edge_lines, parse_edge_list, BuildError};
pub use simple_graph::GraphError;
pub use simple_graph::SimpleGraph;
pub use undirected::UndirectedGraph;

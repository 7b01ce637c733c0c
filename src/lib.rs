//! A mutable dataflow graph: nodes joined by directed value edges, run once per
//! cycle in an order that respects every dependency through a non-delaying node,
//! while feedback loops that pass through a delaying node are allowed.
pub mod connection;
pub mod graph;
pub mod node;
pub mod order;
pub mod text;

pub use connection::Connection;
pub use graph::{Graph, GraphError};
pub use node::{InputId, Node, NodeId, NodeModel, OutputId};
pub use order::NodePorts;

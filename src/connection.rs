use vstd::prelude::*;
use crate::node::{InputId, NodeId, OutputId};

verus! {

/// Graph edge from an output of a source node to an input of a target node.
#[derive(Clone, Copy, Debug, PartialEq, Eq, Structural, Hash)]
pub struct Connection {
    pub source_node: NodeId,
    pub source_output: OutputId,
    pub target_input: InputId,
    pub target_node: NodeId,
}

impl Connection {
    /// Creates a new connection.
    pub fn new(source_node: NodeId, source_output: OutputId, target_node: NodeId, target_input: InputId) -> (r: Self)
        ensures
            r.source_node == source_node,
            r.source_output == source_output,
            r.target_node == target_node,
            r.target_input == target_input,
    {
        Connection { source_node, source_output, target_input, target_node }
    }
}

} // verus!

use dataflow::{Connection, GraphError, InputId, NodeId, OutputId};

#[test]
fn message_for_missing_connection() {
    let c = Connection::new(NodeId(12), OutputId(0), NodeId(3), InputId(7));
    assert_eq!(
        GraphError::ConnectionNotExists(c).message(),
        "Connection { source_node: NodeId(12), source_output: OutputId(0), target_input: InputId(7), target_node: NodeId(3) } does not exist in graph."
    );
    assert_eq!(GraphError::ConnectionNotExists(c).message(), format!("{:?} does not exist in graph.", c));
}

#[test]
fn message_for_cycle() {
    assert_eq!(GraphError::CycleWithoutDelay.message(), "Graph contains a cycle without delay.");
}

#[test]
fn message_for_connected_input() {
    assert_eq!(
        GraphError::InputAlreadyConnected(NodeId(40), InputId(1)).message(),
        "Input with id 1 on node with id 40 is already connected."
    );
}

#[test]
fn message_for_missing_input() {
    assert_eq!(
        GraphError::InputNotExists(NodeId(9), InputId(305)).message(),
        "Input with id 305 does not exist on node with id 9."
    );
}

#[test]
fn message_for_missing_node() {
    assert_eq!(
        GraphError::NodeNotExists(NodeId(4294967295)).message(),
        "Node with id 4294967295 does not exist in graph."
    );
}

#[test]
fn message_for_missing_output() {
    assert_eq!(
        GraphError::OutputNotExists(NodeId(0), OutputId(10)).message(),
        "Output with id 10 does not exist on node with id 0."
    );
}

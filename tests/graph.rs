use dataflow::{Connection, Graph, GraphError, InputId, Node, NodeId, NodeModel, OutputId};

/// The contents of the node kinds below, as one type.
#[derive(Clone, Copy, Debug, PartialEq)]
enum Model {
    Variable(f64),
    Addition(f64, f64, f64),
    Delay(f64, f64),
}

impl NodeModel for Model {
    type Value = f64;

    fn output_of(&self, id: OutputId) -> f64 {
        match (*self, id.0) {
            (Model::Variable(v), 0) => v,
            (Model::Addition(_, _, sum), 0) => sum,
            (Model::Delay(_, out), 0) => out,
            _ => panic!("Output with id {} does not exist.", id.0),
        }
    }

    fn with_input(&self, id: InputId, v: f64) -> Model {
        match (*self, id.0) {
            (Model::Variable(_), 0) => Model::Variable(v),
            (Model::Addition(_, b, sum), 0) => Model::Addition(v, b, sum),
            (Model::Addition(a, _, sum), 1) => Model::Addition(a, v, sum),
            (Model::Delay(_, out), 0) => Model::Delay(v, out),
            _ => panic!("Input with id {} does not exist.", id.0),
        }
    }

    fn stepped(&self) -> Model {
        match *self {
            Model::Variable(v) => Model::Variable(v),
            Model::Addition(a, b, _) => Model::Addition(a, b, a + b),
            Model::Delay(input, _) => Model::Delay(input, input),
        }
    }

    fn has_input(&self, id: InputId) -> bool {
        match *self {
            Model::Addition(..) => id.0 < 2,
            _ => id.0 == 0,
        }
    }

    fn has_output(&self, id: OutputId) -> bool {
        id.0 == 0
    }

    fn delays(&self) -> bool {
        matches!(self, Model::Delay(..))
    }
}

/// Holds a value: its output is the last value set on its input.
struct Variable {
    value: f64,
}

impl Variable {
    fn new(value: f64) -> Self {
        Variable { value }
    }
}

impl Node for Variable {
    type Value = f64;

    type Model = Model;

    fn model(&self) -> Model {
        Model::Variable(self.value)
    }

    fn delayed_processing(&self) -> bool {
        false
    }

    fn get_output(&self, id: OutputId) -> f64 {
        match id.0 {
            0 => self.value,
            _ => panic!("Output with id {} does not exist.", id.0),
        }
    }

    fn list_inputs(&self) -> &[InputId] {
        &[InputId(0)]
    }

    fn list_outputs(&self) -> &[OutputId] {
        &[OutputId(0)]
    }

    fn process(&mut self) {}

    fn set_input(&mut self, id: InputId, value: f64) {
        match id.0 {
            0 => self.value = value,
            _ => panic!("Input with id {} does not exist.", id.0),
        }
    }
}

/// Adds its two inputs.
struct Addition {
    summands: (f64, f64),
    sum: f64,
}

impl Addition {
    fn new() -> Self {
        Addition { summands: (0.0, 0.0), sum: 0.0 }
    }
}

impl Node for Addition {
    type Value = f64;

    type Model = Model;

    fn model(&self) -> Model {
        Model::Addition(self.summands.0, self.summands.1, self.sum)
    }

    fn delayed_processing(&self) -> bool {
        false
    }

    fn get_output(&self, id: OutputId) -> f64 {
        match id.0 {
            0 => self.sum,
            _ => panic!("Output with id {} does not exist.", id.0),
        }
    }

    fn list_inputs(&self) -> &[InputId] {
        &[InputId(0), InputId(1)]
    }

    fn list_outputs(&self) -> &[OutputId] {
        &[OutputId(0)]
    }

    fn process(&mut self) {
        self.sum = self.summands.0 + self.summands.1;
    }

    fn set_input(&mut self, id: InputId, value: f64) {
        match id.0 {
            0 => self.summands.0 = value,
            1 => self.summands.1 = value,
            _ => panic!("Input with id {} does not exist.", id.0),
        }
    }
}

/// Delays its input by one processing cycle.
struct Delay {
    value: (f64, f64),
}

impl Delay {
    fn new() -> Self {
        Delay { value: (0.0, 0.0) }
    }
}

impl Node for Delay {
    type Value = f64;

    type Model = Model;

    fn model(&self) -> Model {
        Model::Delay(self.value.0, self.value.1)
    }

    fn delayed_processing(&self) -> bool {
        true
    }

    fn get_output(&self, id: OutputId) -> f64 {
        match id.0 {
            0 => self.value.1,
            _ => panic!("Output with id {} does not exist.", id.0),
        }
    }

    fn list_inputs(&self) -> &[InputId] {
        &[InputId(0)]
    }

    fn list_outputs(&self) -> &[OutputId] {
        &[OutputId(0)]
    }

    fn process(&mut self) {
        self.value.1 = self.value.0;
    }

    fn set_input(&mut self, id: InputId, value: f64) {
        match id.0 {
            0 => self.value.0 = value,
            _ => panic!("Input with id {} does not exist.", id.0),
        }
    }
}

type DynGraph = Graph<Box<dyn Node<Value = f64, Model = Model>>>;

fn order_of(graph: &DynGraph) -> Vec<NodeId> {
    graph.processing_order().clone()
}

fn output_of(graph: &DynGraph, id: NodeId) -> f64 {
    graph.get_node(id).unwrap().get_output(OutputId(0))
}

#[test]
fn add_connection() {
    let mut graph: DynGraph = Graph::new();
    let node0 = graph.add_node(Box::new(Variable::new(1.0)));
    let node1 = graph.add_node(Box::new(Variable::new(2.0)));
    assert_eq!(graph.connections().len(), 0);

    graph.add_connection(Connection::new(node0, OutputId(0), node1, InputId(0))).unwrap();
    assert_eq!(graph.connections().len(), 1);

    // Invalid connections.
    assert_eq!(
        graph.add_connection(Connection::new(node0, OutputId(0), node1, InputId(0))),
        Err(GraphError::InputAlreadyConnected(node1, InputId(0)))
    );
    assert_eq!(
        graph.add_connection(Connection::new(node1, OutputId(0), node0, InputId(0))),
        Err(GraphError::CycleWithoutDelay)
    );
    assert_eq!(
        graph.add_connection(Connection::new(node0, OutputId(0), node1, InputId(1))),
        Err(GraphError::InputNotExists(node1, InputId(1)))
    );
    assert_eq!(
        graph.add_connection(Connection::new(NodeId(2), OutputId(0), node1, InputId(0))),
        Err(GraphError::NodeNotExists(NodeId(2)))
    );
    assert_eq!(
        graph.add_connection(Connection::new(node0, OutputId(1), node1, InputId(0))),
        Err(GraphError::OutputNotExists(node0, OutputId(1)))
    );
    assert_eq!(graph.connections().len(), 1);
}

#[test]
fn add_node() {
    let mut graph: DynGraph = Graph::new();
    assert_eq!(graph.node_count(), 0);

    let node0 = graph.add_node(Box::new(Variable::new(1.0)));
    assert_eq!(graph.node_count(), 1);
    assert_eq!(node0, NodeId(0));

    let node1 = graph.add_node(Box::new(Variable::new(2.0)));
    assert_eq!(graph.node_count(), 2);
    assert_eq!(node1, NodeId(1));
}

#[test]
fn processing_order() {
    let mut graph: DynGraph = Graph::new();
    let var0 = graph.add_node(Box::new(Variable::new(1.0)));
    let var1 = graph.add_node(Box::new(Variable::new(2.0)));
    graph.add_connection(Connection::new(var0, OutputId(0), var1, InputId(0))).unwrap();
    assert_eq!(order_of(&graph), vec![var0, var1]);

    let add2 = graph.add_node(Box::new(Addition::new()));
    graph.add_connection(Connection::new(var0, OutputId(0), add2, InputId(0))).unwrap();
    graph.add_connection(Connection::new(var1, OutputId(0), add2, InputId(1))).unwrap();
    assert_eq!(order_of(&graph), vec![var0, var1, add2]);

    let var3 = graph.add_node(Box::new(Variable::new(3.0)));
    graph.add_connection(Connection::new(var3, OutputId(0), var0, InputId(0))).unwrap();
    assert_eq!(order_of(&graph), vec![var3, var0, var1, add2]);

    let delay4 = graph.add_node(Box::new(Delay::new()));
    let add5 = graph.add_node(Box::new(Addition::new()));
    graph.add_connection(Connection::new(add5, OutputId(0), delay4, InputId(0))).unwrap();
    graph.add_connection(Connection::new(delay4, OutputId(0), add5, InputId(0))).unwrap();
    graph.add_connection(Connection::new(add2, OutputId(0), add5, InputId(1))).unwrap();
    assert_eq!(order_of(&graph), vec![var3, var0, var1, add2, add5, delay4]);
}

#[test]
fn get_node() {
    let mut graph: DynGraph = Graph::new();
    assert_eq!(graph.get_node(NodeId(0)).err(), Some(GraphError::NodeNotExists(NodeId(0))));
    assert_eq!(graph.get_node_mut(NodeId(0)).err(), Some(GraphError::NodeNotExists(NodeId(0))));
    graph.add_node(Box::new(Variable::new(1.0)));
    assert_eq!(graph.get_node(NodeId(0)).map(|n| n.get_output(OutputId(0))), Ok(1.0));
    assert_eq!(graph.get_node_mut(NodeId(0)).map(|n| n.get_output(OutputId(0))), Ok(1.0));
}

#[test]
fn iter_node() {
    let mut graph: DynGraph = Graph::new();
    let var0 = graph.add_node(Box::new(Variable::new(1.0)));
    let var1 = graph.add_node(Box::new(Variable::new(2.0)));
    let var2 = graph.add_node(Box::new(Variable::new(3.0)));
    assert!(graph.iter_nodes().iter().find(|(id, _)| *id == var0).is_some());
    assert!(graph.iter_nodes().iter().find(|(id, _)| *id == var1).is_some());
    assert!(graph.node_ids().iter().find(|&&id| id == var2).is_some());
    assert!(graph.get_node_mut(var2).is_ok());
}

#[test]
fn process() {
    let mut graph: DynGraph = Graph::new();
    let var0 = graph.add_node(Box::new(Variable::new(1.0)));
    let add1 = graph.add_node(Box::new(Addition::new()));
    let del2 = graph.add_node(Box::new(Delay::new()));
    graph.add_connection(Connection::new(var0, OutputId(0), add1, InputId(0))).unwrap();
    graph.add_connection(Connection::new(add1, OutputId(0), del2, InputId(0))).unwrap();
    graph.add_connection(Connection::new(del2, OutputId(0), add1, InputId(1))).unwrap();
    assert_eq!(order_of(&graph), vec![var0, add1, del2]);

    assert_eq!(output_of(&graph, add1), 0.0);
    graph.process();
    assert_eq!(output_of(&graph, add1), 1.0);
    graph.process();
    assert_eq!(output_of(&graph, add1), 2.0);
    graph.process();
    assert_eq!(output_of(&graph, add1), 3.0);
}

#[test]
fn remove_connection() {
    let mut graph: DynGraph = Graph::new();
    let node0 = graph.add_node(Box::new(Variable::new(1.0)));
    let node1 = graph.add_node(Box::new(Variable::new(2.0)));
    let node2 = graph.add_node(Box::new(Variable::new(3.0)));
    let conn0 = Connection::new(node2, OutputId(0), node1, InputId(0));
    let conn1 = Connection::new(node1, OutputId(0), node0, InputId(0));
    graph.add_connection(conn0).unwrap();
    graph.add_connection(conn1).unwrap();
    assert_eq!(graph.connections().len(), 2);

    assert_eq!(graph.remove_connection(conn1), Ok(conn1));
    assert_eq!(graph.connections().len(), 1);

    assert_eq!(graph.remove_connection(conn1), Err(GraphError::ConnectionNotExists(conn1)));
}

#[test]
fn remove_node() {
    let mut graph: DynGraph = Graph::new();
    let node0 = graph.add_node(Box::new(Variable::new(1.0)));
    let node1 = graph.add_node(Box::new(Variable::new(2.0)));
    let node2 = graph.add_node(Box::new(Variable::new(3.0)));
    assert_eq!(graph.node_count(), 3);
    let conn0 = Connection::new(node2, OutputId(0), node1, InputId(0));
    let conn1 = Connection::new(node1, OutputId(0), node0, InputId(0));
    graph.add_connection(conn0).unwrap();
    graph.add_connection(conn1).unwrap();
    assert_eq!(graph.connections().len(), 2);

    assert_eq!(graph.remove_node(node1).map(|n| n.get_output(OutputId(0))), Ok(2.0));
    assert_eq!(graph.node_count(), 2);
    assert_eq!(graph.connections().len(), 0);

    assert_eq!(graph.remove_node(node1).err(), Some(GraphError::NodeNotExists(node1)));
}

#[test]
fn multi_delay_processing() {
    let mut graph: DynGraph = Graph::new();
    let del0 = graph.add_node(Box::new(Delay::new()));
    let del1 = graph.add_node(Box::new(Delay::new()));
    let del2 = graph.add_node(Box::new(Delay::new()));
    graph.add_connection(Connection::new(del0, OutputId(0), del1, InputId(0))).unwrap();
    graph.add_connection(Connection::new(del1, OutputId(0), del2, InputId(0))).unwrap();
    graph.get_node_mut(del0).unwrap().set_input(InputId(0), 1.0);

    assert_eq!(output_of(&graph, del0), 0.0);
    assert_eq!(output_of(&graph, del1), 0.0);
    assert_eq!(output_of(&graph, del2), 0.0);
    graph.process();
    assert_eq!(output_of(&graph, del0), 1.0);
    assert_eq!(output_of(&graph, del1), 0.0);
    assert_eq!(output_of(&graph, del2), 0.0);
    graph.process();
    assert_eq!(output_of(&graph, del0), 1.0);
    assert_eq!(output_of(&graph, del1), 1.0);
    assert_eq!(output_of(&graph, del2), 0.0);
    graph.process();
    assert_eq!(output_of(&graph, del0), 1.0);
    assert_eq!(output_of(&graph, del1), 1.0);
    assert_eq!(output_of(&graph, del2), 1.0);
    graph.process();
    assert_eq!(output_of(&graph, del0), 1.0);
    assert_eq!(output_of(&graph, del1), 1.0);
    assert_eq!(output_of(&graph, del2), 1.0);
}

fn position(order: &[NodeId], id: NodeId) -> usize {
    order.iter().position(|&x| x == id).unwrap()
}

/// The order lists every node once and puts each non-delaying source first.
fn assert_order_valid(graph: &DynGraph) {
    let order = order_of(graph);
    let nodes = graph.iter_nodes();
    assert_eq!(order.len(), nodes.len());
    for (id, _) in nodes.iter() {
        assert_eq!(order.iter().filter(|&&x| x == *id).count(), 1);
    }
    for c in graph.connections().iter() {
        if !graph.get_node(c.source_node).unwrap().delayed_processing() {
            assert!(position(&order, c.source_node) < position(&order, c.target_node));
        }
    }
}

#[test]
fn scenario_value_holder_chain() {
    let mut graph: DynGraph = Graph::new();
    let a = graph.add_node(Box::new(Variable::new(1.0)));
    let b = graph.add_node(Box::new(Variable::new(2.0)));
    graph.add_connection(Connection::new(a, OutputId(0), b, InputId(0))).unwrap();
    assert_eq!(order_of(&graph), vec![a, b]);
}

#[test]
fn scenario_sum_of_two_holders() {
    let mut graph: DynGraph = Graph::new();
    let a = graph.add_node(Box::new(Variable::new(1.0)));
    let b = graph.add_node(Box::new(Variable::new(2.0)));
    let c = graph.add_node(Box::new(Addition::new()));
    graph.add_connection(Connection::new(a, OutputId(0), c, InputId(0))).unwrap();
    graph.add_connection(Connection::new(b, OutputId(0), c, InputId(1))).unwrap();
    assert_eq!(order_of(&graph), vec![a, b, c]);
    graph.process();
    assert_eq!(output_of(&graph, c), 3.0);
}

#[test]
fn scenario_feedback_through_delay() {
    let mut graph: DynGraph = Graph::new();
    let d = graph.add_node(Box::new(Addition::new()));
    let e = graph.add_node(Box::new(Delay::new()));
    graph.add_connection(Connection::new(d, OutputId(0), e, InputId(0))).unwrap();
    graph.add_connection(Connection::new(e, OutputId(0), d, InputId(1))).unwrap();
    assert_eq!(order_of(&graph), vec![d, e]);
    graph.get_node_mut(d).unwrap().set_input(InputId(0), 1.0);
    assert_eq!(output_of(&graph, d), 0.0);
    assert_eq!(output_of(&graph, e), 0.0);
    graph.process();
    assert_eq!(output_of(&graph, d), 1.0);
    assert_eq!(output_of(&graph, e), 1.0);
    graph.process();
    assert_eq!(output_of(&graph, d), 2.0);
    graph.process();
    assert_eq!(output_of(&graph, d), 3.0);
}

#[test]
fn transitive_cycle_without_delay_is_refused() {
    let mut graph: DynGraph = Graph::new();
    let a = graph.add_node(Box::new(Variable::new(1.0)));
    let b = graph.add_node(Box::new(Addition::new()));
    let c = graph.add_node(Box::new(Variable::new(0.0)));
    graph.add_connection(Connection::new(a, OutputId(0), b, InputId(0))).unwrap();
    graph.add_connection(Connection::new(b, OutputId(0), c, InputId(0))).unwrap();
    let order = order_of(&graph);
    assert_eq!(
        graph.add_connection(Connection::new(c, OutputId(0), a, InputId(0))),
        Err(GraphError::CycleWithoutDelay)
    );
    assert_eq!(graph.connections().len(), 2);
    assert_eq!(order_of(&graph), order);
}

#[test]
fn self_loop_without_delay_is_refused() {
    let mut graph: DynGraph = Graph::new();
    let a = graph.add_node(Box::new(Addition::new()));
    assert_eq!(
        graph.add_connection(Connection::new(a, OutputId(0), a, InputId(0))),
        Err(GraphError::CycleWithoutDelay)
    );
    assert_eq!(graph.connections().len(), 0);
    assert_eq!(order_of(&graph), vec![a]);
}

#[test]
fn self_loop_through_delay_is_accepted() {
    let mut graph: DynGraph = Graph::new();
    let d = graph.add_node(Box::new(Delay::new()));
    let conn = Connection::new(d, OutputId(0), d, InputId(0));
    assert_eq!(graph.add_connection(conn), Ok(conn));
    assert_eq!(order_of(&graph), vec![d]);
}

#[test]
fn second_source_for_an_input_is_refused() {
    let mut graph: DynGraph = Graph::new();
    let a = graph.add_node(Box::new(Variable::new(1.0)));
    let b = graph.add_node(Box::new(Variable::new(2.0)));
    let c = graph.add_node(Box::new(Addition::new()));
    graph.add_connection(Connection::new(a, OutputId(0), c, InputId(0))).unwrap();
    assert_eq!(
        graph.add_connection(Connection::new(b, OutputId(0), c, InputId(0))),
        Err(GraphError::InputAlreadyConnected(c, InputId(0)))
    );
    assert_eq!(graph.connections().len(), 1);
    let conn = Connection::new(b, OutputId(0), c, InputId(1));
    assert_eq!(graph.add_connection(conn), Ok(conn));
}

#[test]
fn removing_a_node_drops_its_connections() {
    let mut graph: DynGraph = Graph::new();
    let a = graph.add_node(Box::new(Variable::new(1.0)));
    let b = graph.add_node(Box::new(Addition::new()));
    let c = graph.add_node(Box::new(Variable::new(0.0)));
    let d = graph.add_node(Box::new(Variable::new(4.0)));
    graph.add_connection(Connection::new(a, OutputId(0), b, InputId(0))).unwrap();
    graph.add_connection(Connection::new(b, OutputId(0), c, InputId(0))).unwrap();
    let kept = Connection::new(d, OutputId(0), b, InputId(1));
    graph.add_connection(kept).unwrap();
    assert!(graph.remove_node(a).is_ok());
    assert_eq!(graph.connections().clone(), vec![Connection::new(b, OutputId(0), c, InputId(0)), kept]);
    assert_eq!(order_of(&graph).len(), 3);
    assert!(!order_of(&graph).contains(&a));
    assert_order_valid(&graph);
    assert_eq!(graph.remove_node(a).err(), Some(GraphError::NodeNotExists(a)));
    assert_eq!(graph.node_count(), 3);
}

#[test]
fn identifiers_are_not_reused() {
    let mut graph: DynGraph = Graph::new();
    let a = graph.add_node(Box::new(Variable::new(1.0)));
    assert!(graph.remove_node(a).is_ok());
    let b = graph.add_node(Box::new(Variable::new(1.0)));
    assert_eq!(a, NodeId(0));
    assert_eq!(b, NodeId(1));
    assert_eq!(graph.get_node(a).err(), Some(GraphError::NodeNotExists(a)));
}

#[test]
fn refused_connection_changes_nothing() {
    let mut graph: DynGraph = Graph::new();
    let a = graph.add_node(Box::new(Variable::new(1.0)));
    let b = graph.add_node(Box::new(Variable::new(2.0)));
    let order = order_of(&graph);
    assert_eq!(
        graph.add_connection(Connection::new(a, OutputId(0), NodeId(7), InputId(0))),
        Err(GraphError::NodeNotExists(NodeId(7)))
    );
    assert_eq!(
        graph.add_connection(Connection::new(a, OutputId(3), b, InputId(0))),
        Err(GraphError::OutputNotExists(a, OutputId(3)))
    );
    assert_eq!(
        graph.add_connection(Connection::new(a, OutputId(0), b, InputId(5))),
        Err(GraphError::InputNotExists(b, InputId(5)))
    );
    assert_eq!(graph.connections().len(), 0);
    assert_eq!(order_of(&graph), order);
}

#[test]
fn removed_connection_frees_the_input() {
    let mut graph: DynGraph = Graph::new();
    let a = graph.add_node(Box::new(Variable::new(1.0)));
    let b = graph.add_node(Box::new(Variable::new(2.0)));
    let forward = Connection::new(a, OutputId(0), b, InputId(0));
    graph.add_connection(forward).unwrap();
    let backward = Connection::new(b, OutputId(0), a, InputId(0));
    assert_eq!(graph.add_connection(backward), Err(GraphError::CycleWithoutDelay));
    assert_eq!(graph.remove_connection(forward), Ok(forward));
    assert_eq!(graph.add_connection(backward), Ok(backward));
    assert_eq!(order_of(&graph), vec![b, a]);
}

#[test]
fn order_stays_valid_across_mutations() {
    let mut graph: DynGraph = Graph::new();
    let d = graph.add_node(Box::new(Delay::new()));
    let s = graph.add_node(Box::new(Addition::new()));
    let v = graph.add_node(Box::new(Variable::new(5.0)));
    let w = graph.add_node(Box::new(Variable::new(0.0)));
    graph.add_connection(Connection::new(w, OutputId(0), v, InputId(0))).unwrap();
    assert_order_valid(&graph);
    graph.add_connection(Connection::new(v, OutputId(0), s, InputId(0))).unwrap();
    graph.add_connection(Connection::new(s, OutputId(0), d, InputId(0))).unwrap();
    graph.add_connection(Connection::new(d, OutputId(0), s, InputId(1))).unwrap();
    assert_order_valid(&graph);
    assert_eq!(*order_of(&graph).last().unwrap(), d);
    assert!(graph.remove_node(v).is_ok());
    assert_order_valid(&graph);
    assert_eq!(graph.connections().len(), 2);
}

#[test]
fn processing_an_empty_graph_does_nothing() {
    let mut graph: DynGraph = Graph::new();
    graph.process();
    assert_eq!(graph.node_count(), 0);
    assert!(order_of(&graph).is_empty());
}

#[test]
fn delay_chain_is_listed_downstream_first() {
    let mut graph: DynGraph = Graph::new();
    let v = graph.add_node(Box::new(Variable::new(1.0)));
    let d0 = graph.add_node(Box::new(Delay::new()));
    let d1 = graph.add_node(Box::new(Delay::new()));
    let d2 = graph.add_node(Box::new(Delay::new()));
    graph.add_connection(Connection::new(v, OutputId(0), d0, InputId(0))).unwrap();
    graph.add_connection(Connection::new(d0, OutputId(0), d1, InputId(0))).unwrap();
    graph.add_connection(Connection::new(d1, OutputId(0), d2, InputId(0))).unwrap();
    assert_eq!(order_of(&graph), vec![v, d2, d1, d0]);
    assert_eq!(graph.node_ids(), vec![v, d0, d1, d2]);
}

#[test]
fn unconnected_delays_keep_storage_order() {
    let mut graph: DynGraph = Graph::new();
    let d0 = graph.add_node(Box::new(Delay::new()));
    let v = graph.add_node(Box::new(Variable::new(1.0)));
    let d1 = graph.add_node(Box::new(Delay::new()));
    assert_eq!(order_of(&graph), vec![v, d0, d1]);
    graph.add_connection(Connection::new(d0, OutputId(0), d1, InputId(0))).unwrap();
    assert_eq!(order_of(&graph), vec![v, d1, d0]);
    graph.add_connection(Connection::new(d1, OutputId(0), d0, InputId(0))).unwrap();
    assert_eq!(order_of(&graph), vec![v, d0, d1]);
}


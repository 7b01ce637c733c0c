//! The processing graph: node and connection storage, validation, and execution.
use vstd::prelude::*;
use crate::connection::Connection;
use crate::node::{InputId, Node, NodeId, NodeModel, OutputId};
use crate::order::{
    connection_valid, delay_aware_order, drawn_from, find_slot, is_permutation, is_undelayed_cycle, keyed,
    lemma_keyed, lemma_keyed_push, lemma_keyed_remove, lemma_order_drawn_from, lemma_order_push,
    lemma_order_remove, lemma_undelayed_cycle_not_orderable, orderable, delays_last, delays_arranged, first_ready_each, valid_order, NodePorts,
};
use crate::text::{append, append_decimal, decimal};

verus! {

/// Why a graph refused an operation.
#[derive(Clone, Copy, Debug, PartialEq, Eq, Structural)]
pub enum GraphError {
    ConnectionNotExists(Connection),
    CycleWithoutDelay,
    InputAlreadyConnected(NodeId, InputId),
    InputNotExists(NodeId, InputId),
    NodeNotExists(NodeId),
    OutputNotExists(NodeId, OutputId),
}

/// How a connection is written in messages.
pub open spec fn connection_text(c: Connection) -> Seq<char> {
    "Connection { source_node: NodeId("@ + decimal(c.source_node.0 as nat) + "), source_output: OutputId("@
        + decimal(c.source_output.0 as nat) + "), target_input: InputId("@ + decimal(c.target_input.0 as nat)
        + "), target_node: NodeId("@ + decimal(c.target_node.0 as nat) + ") }"@
}

/// The sentence that describes an error.
pub open spec fn message_text(e: GraphError) -> Seq<char> {
    match e {
        GraphError::ConnectionNotExists(c) => connection_text(c) + " does not exist in graph."@,
        GraphError::CycleWithoutDelay => "Graph contains a cycle without delay."@,
        GraphError::InputAlreadyConnected(node, input) => "Input with id "@ + decimal(input.0 as nat)
            + " on node with id "@ + decimal(node.0 as nat) + " is already connected."@,
        GraphError::InputNotExists(node, input) => "Input with id "@ + decimal(input.0 as nat)
            + " does not exist on node with id "@ + decimal(node.0 as nat) + "."@,
        GraphError::NodeNotExists(node) => "Node with id "@ + decimal(node.0 as nat) + " does not exist in graph."@,
        GraphError::OutputNotExists(node, output) => "Output with id "@ + decimal(output.0 as nat)
            + " does not exist on node with id "@ + decimal(node.0 as nat) + "."@,
    }
}

impl GraphError {
    /// Returns a sentence that describes the error.
    pub fn message(&self) -> (r: String)
        ensures
            r@ == message_text(*self),
    {
        let mut s = String::new();
        match *self {
            GraphError::ConnectionNotExists(c) => {
                append(&mut s, "Connection { source_node: NodeId(");
                append_decimal(&mut s, c.source_node.0);
                append(&mut s, "), source_output: OutputId(");
                append_decimal(&mut s, c.source_output.0);
                append(&mut s, "), target_input: InputId(");
                append_decimal(&mut s, c.target_input.0);
                append(&mut s, "), target_node: NodeId(");
                append_decimal(&mut s, c.target_node.0);
                append(&mut s, ") }");
                append(&mut s, " does not exist in graph.");
            },
            GraphError::CycleWithoutDelay => {
                append(&mut s, "Graph contains a cycle without delay.");
            },
            GraphError::InputAlreadyConnected(node, input) => {
                append(&mut s, "Input with id ");
                append_decimal(&mut s, input.0);
                append(&mut s, " on node with id ");
                append_decimal(&mut s, node.0);
                append(&mut s, " is already connected.");
            },
            GraphError::InputNotExists(node, input) => {
                append(&mut s, "Input with id ");
                append_decimal(&mut s, input.0);
                append(&mut s, " does not exist on node with id ");
                append_decimal(&mut s, node.0);
                append(&mut s, ".");
            },
            GraphError::NodeNotExists(node) => {
                append(&mut s, "Node with id ");
                append_decimal(&mut s, node.0);
                append(&mut s, " does not exist in graph.");
            },
            GraphError::OutputNotExists(node, output) => {
                append(&mut s, "Output with id ");
                append_decimal(&mut s, output.0);
                append(&mut s, " does not exist on node with id ");
                append_decimal(&mut s, node.0);
                append(&mut s, ".");
            },
        }
        proof {
            assert(s@ =~= message_text(*self));
        }
        s
    }
}

/// Some connection already feeds `input` of `node`.
pub open spec fn input_taken(conns: Seq<Connection>, node: NodeId, input: InputId) -> bool {
    exists|k: int| 0 <= k < conns.len() && (#[trigger] conns[k]).target_node == node && conns[k].target_input == input
}

/// No input is fed by two connections.
pub open spec fn inputs_unique(conns: Seq<Connection>) -> bool {
    forall|a: int, b: int|
        0 <= a < conns.len() && 0 <= b < conns.len() && a != b && (#[trigger] conns[a]).target_node == (
        #[trigger] conns[b]).target_node ==> conns[a].target_input != conns[b].target_input
}

/// The result of validating `c` against the nodes, in the order in which the
/// checks are made.
pub open spec fn validation_outcome(nodes: Map<NodeId, NodePorts>, c: Connection) -> Result<Connection, GraphError> {
    if !nodes.contains_key(c.source_node) {
        Err(GraphError::NodeNotExists(c.source_node))
    } else if !nodes.contains_key(c.target_node) {
        Err(GraphError::NodeNotExists(c.target_node))
    } else if !nodes[c.source_node].outputs@.contains(c.source_output) {
        Err(GraphError::OutputNotExists(c.source_node, c.source_output))
    } else if !nodes[c.target_node].inputs@.contains(c.target_input) {
        Err(GraphError::InputNotExists(c.target_node, c.target_input))
    } else {
        Ok(c)
    }
}

/// The result of adding `c` to a graph with these nodes and connections.
pub open spec fn add_outcome(nodes: Map<NodeId, NodePorts>, conns: Seq<Connection>, c: Connection) -> Result<
    Connection,
    GraphError,
> {
    if validation_outcome(nodes, c) is Err {
        validation_outcome(nodes, c)
    } else if input_taken(conns, c.target_node, c.target_input) {
        Err(GraphError::InputAlreadyConnected(c.target_node, c.target_input))
    } else if !orderable(nodes, conns.push(c)) {
        Err(GraphError::CycleWithoutDelay)
    } else {
        Ok(c)
    }
}

/// A connection whose endpoint or port does not exist is refused with the
/// matching not-found error, before any other check.
pub proof fn lemma_missing_endpoint_refused(nodes: Map<NodeId, NodePorts>, conns: Seq<Connection>, c: Connection)
    requires
        !connection_valid(nodes, c),
    ensures
        add_outcome(nodes, conns, c) == validation_outcome(nodes, c),
        !nodes.contains_key(c.source_node) ==> add_outcome(nodes, conns, c) == Err::<Connection, GraphError>(
            GraphError::NodeNotExists(c.source_node),
        ),
        nodes.contains_key(c.source_node) && !nodes.contains_key(c.target_node) ==> add_outcome(nodes, conns, c)
            == Err::<Connection, GraphError>(GraphError::NodeNotExists(c.target_node)),
        add_outcome(nodes, conns, c) is Err,
{
}

/// Whatever its source, a valid connection into an input that already has a
/// source is refused with `InputAlreadyConnected`.
pub proof fn lemma_taken_input_refused(nodes: Map<NodeId, NodePorts>, conns: Seq<Connection>, c: Connection)
    requires
        connection_valid(nodes, c),
        input_taken(conns, c.target_node, c.target_input),
    ensures
        add_outcome(nodes, conns, c) == Err::<Connection, GraphError>(
            GraphError::InputAlreadyConnected(c.target_node, c.target_input),
        ),
{
}

/// A valid connection into a free input that would close a cycle through
/// non-delaying nodes alone is refused with `CycleWithoutDelay`.
pub proof fn lemma_undelayed_cycle_refused(
    nodes: Map<NodeId, NodePorts>,
    conns: Seq<Connection>,
    c: Connection,
    path: Seq<Connection>,
)
    requires
        forall|k: int| 0 <= k < conns.len() ==> connection_valid(nodes, #[trigger] conns[k]),
        connection_valid(nodes, c),
        !input_taken(conns, c.target_node, c.target_input),
        is_undelayed_cycle(nodes, conns.push(c), path),
    ensures
        add_outcome(nodes, conns, c) == Err::<Connection, GraphError>(GraphError::CycleWithoutDelay),
{
    let all = conns.push(c);
    assert forall|k: int| 0 <= k < all.len() implies connection_valid(nodes, #[trigger] all[k]) by {
        if k < conns.len() {
            assert(all[k] == conns[k]);
        }
    }
    lemma_undelayed_cycle_not_orderable(nodes, all, path);
}

/// After a node is removed from a well-formed graph, no connection touches it,
/// the order lists exactly the remaining nodes, and removing it again is
/// refused with `NodeNotExists`.
pub proof fn lemma_removed_node_gone<N: Node>(before: &Graph<N>, after: &Graph<N>, id: NodeId)
    requires
        after.wf(),
        after.nodes_view() == before.nodes_view().remove(id),
    ensures
        !after.nodes_view().contains_key(id),
        forall|k: int| 0 <= k < after.connections_view().len() ==> (#[trigger] after.connections_view()[k]).source_node
            != id && after.connections_view()[k].target_node != id,
        !after.order_view().contains(id),
        is_permutation(after.order_view(), before.nodes_view().remove(id)),
        !after.contents().contains_key(id),
{
    assert forall|k: int| 0 <= k < after.connections_view().len() implies (#[trigger] after.connections_view()[k]).source_node
        != id && after.connections_view()[k].target_node != id by {
        assert(connection_valid(after.nodes_view(), after.connections_view()[k]));
    }
    assert(!after.contents().dom().contains(id));
}

/// The node models after `node` receives its inputs from the first `j`
/// connections that end at it, each input taking the current value of the
/// output that feeds it.
pub open spec fn fed<N: Node>(models: Map<NodeId, N::Model>, conns: Seq<Connection>, node: NodeId, j: int) -> Map<
    NodeId,
    N::Model,
>
    decreases j,
{
    if j <= 0 {
        models
    } else {
        let prev = fed::<N>(models, conns, node, j - 1);
        let c = conns[j - 1];
        if c.target_node == node {
            prev.insert(node, prev[node].with_input(c.target_input, prev[c.source_node].output_of(c.source_output)))
        } else {
            prev
        }
    }
}

/// The node models after the first `k` nodes of `order` have, one after the
/// other, received their inputs and been processed.
pub open spec fn cycle<N: Node>(models: Map<NodeId, N::Model>, order: Seq<NodeId>, conns: Seq<Connection>, k: int) -> Map<
    NodeId,
    N::Model,
>
    decreases k,
{
    if k <= 0 {
        models
    } else {
        let node = order[k - 1];
        let after = fed::<N>(cycle::<N>(models, order, conns, k - 1), conns, node, conns.len() as int);
        after.insert(node, after[node].stepped())
    }
}

/// Processing graph of nodes and the connections between them.
pub struct Graph<N: Node> {
    /// Connections in the graph.
    connections: Vec<Connection>,
    /// Identifier that the next node added receives.
    next_node_id: NodeId,
    /// Identifiers of the nodes, in the order they were added.
    ids: Vec<NodeId>,
    /// Ports of each node, at the index of its identifier.
    ports: Vec<NodePorts>,
    /// The nodes, at the index of their identifiers.
    nodes: Vec<N>,
    /// Processing order, a delay-aware topological sort of the nodes.
    processing_order: Vec<NodeId>,
}

impl<N: Node> Graph<N> {
    /// Ports and delay class of each node, by identifier.
    pub closed spec fn nodes_view(&self) -> Map<NodeId, NodePorts> {
        keyed(self.ids@, self.ports@)
    }

    /// The nodes themselves, by identifier.
    pub closed spec fn contents(&self) -> Map<NodeId, N> {
        keyed(self.ids@, self.nodes@)
    }

    /// The model of each node, by identifier.
    pub open spec fn models(&self) -> Map<NodeId, N::Model> {
        self.contents().map_values(|n: N| n.model())
    }

    /// Replacing the node at one index changes its model alone.
    proof fn lemma_models_update(ids: Seq<NodeId>, nodes: Seq<N>, t: int, x: N)
        requires
            ids.no_duplicates(),
            ids.len() == nodes.len(),
            0 <= t < ids.len(),
        ensures
            keyed(ids, nodes.update(t, x)).map_values(|n: N| n.model()) == keyed(ids, nodes).map_values(
                |n: N| n.model(),
            ).insert(ids[t], x.model()),
    {
        let nodes2 = nodes.update(t, x);
        lemma_keyed(ids, nodes);
        lemma_keyed(ids, nodes2);
        let a = keyed(ids, nodes2).map_values(|n: N| n.model());
        let b = keyed(ids, nodes).map_values(|n: N| n.model()).insert(ids[t], x.model());
        assert forall|id: NodeId| #[trigger] a.contains_key(id) <==> b.contains_key(id) by {}
        assert forall|id: NodeId| #[trigger] a.contains_key(id) implies a[id] == b[id] by {
            let i = choose|i: int| 0 <= i < ids.len() && ids[i] == id;
            if i != t {
                assert(nodes2[i] == nodes[i]);
            }
        }
        assert(a =~= b);
    }

    /// The connections, in the order they were added.
    pub closed spec fn connections_view(&self) -> Seq<Connection> {
        self.connections@
    }

    /// The identifiers of the nodes, in the order they were added.
    pub closed spec fn storage_order(&self) -> Seq<NodeId> {
        self.ids@
    }

    /// The cached processing order.
    pub closed spec fn order_view(&self) -> Seq<NodeId> {
        self.processing_order@
    }

    /// The identifier that the next node added receives.
    pub closed spec fn next_id(&self) -> u32 {
        self.next_node_id.0
    }

    /// The storage is consistent, and every identifier in use is below the next one.
    pub closed spec fn storage_ok(&self) -> bool {
        &&& self.ids@.len() == self.ports@.len()
        &&& self.ids@.len() == self.nodes@.len()
        &&& self.ids@.no_duplicates()
        &&& forall|i: int| 0 <= i < self.ids@.len() ==> (#[trigger] self.ids@[i]).0 < self.next_node_id.0
    }

    /// The graph's invariant: every connection is valid, no input has two
    /// sources, and the cached order is a valid processing order with the
    /// delaying nodes last, arranged among themselves as `delays_arranged` says,
    /// and ties broken as `first_ready_each` says.
    pub open spec fn wf(&self) -> bool {
        &&& self.storage_ok()
        &&& self.contents().dom() == self.nodes_view().dom()
        &&& forall|id: NodeId| #[trigger] self.nodes_view().contains_key(id) ==> id.0 < self.next_id()
        &&& forall|k: int|
            0 <= k < self.connections_view().len() ==> connection_valid(
                self.nodes_view(),
                #[trigger] self.connections_view()[k],
            )
        &&& inputs_unique(self.connections_view())
        &&& valid_order(self.order_view(), self.nodes_view(), self.connections_view())
        &&& delays_last(self.order_view(), self.nodes_view())
        &&& delays_arranged(self.order_view(), self.storage_order(), self.nodes_view(), self.connections_view())
        &&& first_ready_each(self.order_view(), self.storage_order(), self.nodes_view(), self.connections_view())
    }

    /// What the storage says of the identifier-keyed views.
    proof fn lemma_wf_facts(&self)
        requires
            self.storage_ok(),
        ensures
            forall|id: NodeId| #[trigger] self.nodes_view().contains_key(id) <==> self.ids@.contains(id),
            forall|id: NodeId| #[trigger] self.contents().contains_key(id) <==> self.ids@.contains(id),
            self.contents().dom() == self.nodes_view().dom(),
            forall|i: int| 0 <= i < self.ids@.len() ==> #[trigger] self.nodes_view()[self.ids@[i]] == self.ports@[i],
            forall|i: int| 0 <= i < self.ids@.len() ==> #[trigger] self.contents()[self.ids@[i]] == self.nodes@[i],
            forall|id: NodeId| #[trigger] self.nodes_view().contains_key(id) ==> id.0 < self.next_id(),
    {
        lemma_keyed(self.ids@, self.ports@);
        lemma_keyed(self.ids@, self.nodes@);
        assert(self.contents().dom() =~= self.nodes_view().dom());
        assert forall|id: NodeId| #[trigger] self.nodes_view().contains_key(id) implies id.0 < self.next_id() by {
            let i = choose|i: int| 0 <= i < self.ids@.len() && self.ids@[i] == id;
        }
    }

    /// Creates a new empty graph.
    pub fn new() -> (r: Self)
        ensures
            r.wf(),
            r.nodes_view() == Map::<NodeId, NodePorts>::empty(),
            r.contents() == Map::<NodeId, N>::empty(),
            r.connections_view() == Seq::<Connection>::empty(),
            r.order_view() == Seq::<NodeId>::empty(),
            r.next_id() == 0,
    {
        let r = Graph {
            connections: Vec::new(),
            next_node_id: NodeId(0),
            ids: Vec::new(),
            ports: Vec::new(),
            nodes: Vec::new(),
            processing_order: Vec::new(),
        };
        proof {
            r.lemma_wf_facts();
            assert(r.nodes_view() =~= Map::<NodeId, NodePorts>::empty());
            assert(r.contents() =~= Map::<NodeId, N>::empty());
        }
        r
    }

    /// Adds a node and returns the identifier it was given.
    pub fn add_node(&mut self, node: N) -> (id: NodeId)
        requires
            old(self).wf(),
            old(self).next_id() < u32::MAX,
        ensures
            final(self).wf(),
            id.0 == old(self).next_id(),
            !old(self).nodes_view().contains_key(id),
            final(self).next_id() == old(self).next_id() + 1,
            final(self).nodes_view().dom() == old(self).nodes_view().dom().insert(id),
            final(self).nodes_view().remove(id) == old(self).nodes_view(),
            final(self).contents() == old(self).contents().insert(id, node),
            final(self).connections_view() == old(self).connections_view(),
            final(self).storage_order() == old(self).storage_order().push(id),
            forall|x: InputId| #[trigger] final(self).nodes_view()[id].inputs@.contains(x) <==> node.model().has_input(x),
            forall|x: OutputId| #[trigger] final(self).nodes_view()[id].outputs@.contains(x) <==> node.model().has_output(x),
            final(self).nodes_view()[id].delayed == node.model().delays(),
    {
        let id = self.next_node_id;
        let inputs = copy_slice(node.list_inputs());
        let outputs = copy_slice(node.list_outputs());
        let delayed = node.delayed_processing();
        let p = NodePorts { inputs, outputs, delayed };
        let ghost before = *self;
        proof {
            self.lemma_wf_facts();
            assert(!self.ids@.contains(id));
            lemma_keyed_push(self.ids@, self.ports@, id, p);
            lemma_keyed_push(self.ids@, self.nodes@, id, node);
            lemma_order_push(self.order_view(), self.nodes_view(), self.connections_view(), id, p);
        }
        self.ids.push(id);
        self.ports.push(p);
        self.nodes.push(node);
        self.next_node_id = NodeId(id.0 + 1);
        proof {
            assert(self.nodes_view() == before.nodes_view().insert(id, p));
            self.lemma_wf_facts();
            assert(valid_order(before.order_view().push(id), self.nodes_view(), self.connections_view()));
            assert forall|k: int| 0 <= k < self.connections_view().len() implies connection_valid(
                self.nodes_view(),
                #[trigger] self.connections_view()[k],
            ) by {
                assert(connection_valid(before.nodes_view(), before.connections_view()[k]));
            }
        }
        match delay_aware_order(&self.ids, &self.ports, &self.connections) {
            Ok(order) => {
                self.processing_order = order;
            },
            Err(_) => {
                proof {
                    assert(valid_order(before.order_view().push(id), self.nodes_view(), self.connections_view()));
                }
            },
        }
        proof {
            assert(self.nodes_view().dom() =~= before.nodes_view().dom().insert(id));
            assert(self.nodes_view().remove(id) =~= before.nodes_view());
        }
        id
    }


    /// Checks that both endpoints of `connection` exist and declare its ports.
    fn validate_connection(&self, connection: Connection) -> (r: Result<Connection, GraphError>)
        requires
            self.storage_ok(),
        ensures
            r == validation_outcome(self.nodes_view(), connection),
    {
        proof {
            self.lemma_wf_facts();
        }
        let s = match find_slot(&self.ids, connection.source_node) {
            Some(s) => s,
            None => return Err(GraphError::NodeNotExists(connection.source_node)),
        };
        let t = match find_slot(&self.ids, connection.target_node) {
            Some(t) => t,
            None => return Err(GraphError::NodeNotExists(connection.target_node)),
        };
        if !has_output(&self.ports[s].outputs, connection.source_output) {
            return Err(GraphError::OutputNotExists(connection.source_node, connection.source_output));
        }
        if !has_input(&self.ports[t].inputs, connection.target_input) {
            return Err(GraphError::InputNotExists(connection.target_node, connection.target_input));
        }
        Ok(connection)
    }

    /// Adds a connection. Fails, leaving the graph as it was, when an endpoint
    /// or port does not exist, when the input already has a source, or when the
    /// connection would close a cycle without delay.
    pub fn add_connection(&mut self, connection: Connection) -> (r: Result<Connection, GraphError>)
        requires
            old(self).wf(),
        ensures
            final(self).wf(),
            r == add_outcome(old(self).nodes_view(), old(self).connections_view(), connection),
            final(self).nodes_view() == old(self).nodes_view(),
            final(self).contents() == old(self).contents(),
            final(self).next_id() == old(self).next_id(),
            r is Ok ==> final(self).connections_view() == old(self).connections_view().push(connection),
            r is Err ==> final(self).connections_view() == old(self).connections_view() 
                && final(self).order_view() == old(self).order_view(),
    {
        let connection = match self.validate_connection(connection) {
            Ok(c) => c,
            Err(e) => return Err(e),
        };
        if input_is_taken(&self.connections, connection.target_node, connection.target_input) {
            return Err(GraphError::InputAlreadyConnected(connection.target_node, connection.target_input));
        }
        let ghost before = *self;
        proof {
            self.lemma_wf_facts();
        }
        self.connections.push(connection);
        proof {
            let conns = self.connections_view();
            assert forall|k: int| 0 <= k < conns.len() implies connection_valid(
                self.nodes_view(),
                #[trigger] conns[k],
            ) by {
                if k < conns.len() - 1 {
                    assert(conns[k] == before.connections_view()[k]);
                }
            }
            assert forall|a: int, b: int|
                0 <= a < conns.len() && 0 <= b < conns.len() && a != b && (#[trigger] conns[a]).target_node == (
                #[trigger] conns[b]).target_node implies conns[a].target_input != conns[b].target_input by {
                let last = conns.len() - 1;
                if a == last {
                    assert(before.connections_view()[b] == conns[b]);
                } else if b == last {
                    assert(before.connections_view()[a] == conns[a]);
                } else {
                    assert(before.connections_view()[a] == conns[a]);
                    assert(before.connections_view()[b] == conns[b]);
                }
            }
        }
        match delay_aware_order(&self.ids, &self.ports, &self.connections) {
            Ok(order) => {
                self.processing_order = order;
                Ok(connection)
            },
            Err(e) => {
                self.connections.pop();
                proof {
                    assert(self.connections_view() =~= before.connections_view());
                }
                Err(e)
            },
        }
    }

    /// Removes a connection.
    pub fn remove_connection(&mut self, connection: Connection) -> (r: Result<Connection, GraphError>)
        requires
            old(self).wf(),
        ensures
            final(self).wf(),
            r == (if old(self).connections_view().contains(connection) {
                Ok(connection)
            } else {
                Err(GraphError::ConnectionNotExists(connection))
            }),
            final(self).nodes_view() == old(self).nodes_view(),
            final(self).contents() == old(self).contents(),
            final(self).next_id() == old(self).next_id(),
            r is Ok ==> final(self).connections_view().len() + 1 == old(self).connections_view().len() && forall|
                x: Connection,
            | #[trigger] final(self).connections_view().contains(x) <==> old(self).connections_view().contains(x) && x
                != connection,
            r is Ok ==> exists|k: int|
                0 <= k < old(self).connections_view().len() && old(self).connections_view()[k] == connection
                    && #[trigger] old(self).connections_view().remove(k) == final(self).connections_view(),
            r is Err ==> final(self).connections_view() == old(self).connections_view() 
                && final(self).order_view() == old(self).order_view(),
    {
        let k = match find_connection(&self.connections, connection) {
            Some(k) => k,
            None => return Err(GraphError::ConnectionNotExists(connection)),
        };
        let ghost before = *self;
        let ghost old_conns = self.connections_view();
        proof {
            self.lemma_wf_facts();
        }
        self.connections.remove(k);
        proof {
            let conns = self.connections_view();
            assert(forall|j: int| 0 <= j < conns.len() ==> #[trigger] conns[j] == old_conns[if j < k { j } else { j + 1 }]);
            assert forall|x: Connection| #[trigger] conns.contains(x) <==> old_conns.contains(x) && x != connection by {
                if conns.contains(x) {
                    let j = choose|j: int| 0 <= j < conns.len() && conns[j] == x;
                    let j1 = if j < k { j } else { j + 1 };
                    assert(old_conns[j1] == x);
                    assert(j1 != k);
                }
                if old_conns.contains(x) && x != connection {
                    let j = choose|j: int| 0 <= j < old_conns.len() && old_conns[j] == x;
                    if j < k {
                        assert(conns[j] == x);
                    } else {
                        assert(conns[j - 1] == x);
                    }
                }
            }
            assert(drawn_from(conns, old_conns));
            assert(old_conns.remove(k as int) == conns);
            lemma_order_drawn_from(before.order_view(), self.nodes_view(), old_conns, conns);
            assert forall|j: int| 0 <= j < conns.len() implies connection_valid(self.nodes_view(), #[trigger] conns[j]) by {
                let j1 = if j < k { j } else { j + 1 };
                assert(connection_valid(self.nodes_view(), old_conns[j1]));
            }
            assert forall|a: int, b: int|
                0 <= a < conns.len() && 0 <= b < conns.len() && a != b && (#[trigger] conns[a]).target_node == (
                #[trigger] conns[b]).target_node implies conns[a].target_input != conns[b].target_input by {
                let a1 = if a < k { a } else { a + 1 };
                let b1 = if b < k { b } else { b + 1 };
                assert(old_conns[a1] == conns[a] && old_conns[b1] == conns[b]);
            }
        }
        match delay_aware_order(&self.ids, &self.ports, &self.connections) {
            Ok(order) => {
                self.processing_order = order;
            },
            Err(_) => {
                proof {
                    assert(valid_order(before.order_view(), self.nodes_view(), self.connections_view()));
                }
            },
        }
        Ok(connection)
    }


    /// Removes a node, and every connection from or to it, and hands the node back.
    pub fn remove_node(&mut self, id: NodeId) -> (r: Result<N, GraphError>)
        requires
            old(self).wf(),
        ensures
            final(self).wf(),
            final(self).next_id() == old(self).next_id(),
            match r {
                Ok(n) => {
                    &&& old(self).nodes_view().contains_key(id)
                    &&& n == old(self).contents()[id]
                    &&& final(self).nodes_view() == old(self).nodes_view().remove(id)
                    &&& final(self).contents() == old(self).contents().remove(id)
                    &&& forall|x: Connection| #[trigger] final(self).connections_view().contains(x) <==> old(
                        self,
                    ).connections_view().contains(x) && x.source_node != id && x.target_node != id
                    &&& final(self).connections_view() == old(self).connections_view().filter(
                        |x: Connection| x.source_node != id && x.target_node != id,
                    )
                },
                Err(e) => {
                    &&& !old(self).nodes_view().contains_key(id)
                    &&& e == GraphError::NodeNotExists(id)
                    &&& final(self).nodes_view() == old(self).nodes_view()
                    &&& final(self).contents() == old(self).contents()
                    &&& final(self).connections_view() == old(self).connections_view()
                    &&& final(self).order_view() == old(self).order_view()
                },
            },
    {
        proof {
            self.lemma_wf_facts();
        }
        let s = match find_slot(&self.ids, id) {
            Some(s) => s,
            None => return Err(GraphError::NodeNotExists(id)),
        };
        let ghost before = *self;
        let ghost old_conns = self.connections_view();
        proof {
            lemma_keyed_remove(self.ids@, self.ports@, s as int);
            lemma_keyed_remove(self.ids@, self.nodes@, s as int);
            assert(self.order_view().contains(id));
        }
        let p = find_slot(&self.processing_order, id).unwrap();
        self.ids.remove(s);
        self.ports.remove(s);
        let node = self.nodes.remove(s);
        let kept = without_node(&self.connections, id);
        self.connections = kept;
        proof {
            let conns = self.connections_view();
            assert(self.nodes_view() == before.nodes_view().remove(id));
            assert(self.contents() == before.contents().remove(id));
            assert forall|i: int| 0 <= i < self.ids@.len() implies (#[trigger] self.ids@[i]).0 < self.next_node_id.0 by {
                let i1 = if i < s { i } else { i + 1 };
                assert(self.ids@[i] == before.ids@[i1]);
            }
            self.lemma_wf_facts();
            assert forall|k: int| 0 <= k < conns.len() implies (#[trigger] conns[k]).source_node != before.order_view()[p as int]
                && conns[k].target_node != before.order_view()[p as int] by {
                assert(conns.contains(conns[k]));
            }
            lemma_order_remove(before.order_view(), before.nodes_view(), old_conns, conns, p as int);
            assert forall|k: int| 0 <= k < conns.len() implies connection_valid(self.nodes_view(), #[trigger] conns[k]) by {
                assert(conns.contains(conns[k]));
                let k1 = choose|k1: int| 0 <= k1 < old_conns.len() && old_conns[k1] == conns[k];
                assert(connection_valid(before.nodes_view(), old_conns[k1]));
            }
        }
        match delay_aware_order(&self.ids, &self.ports, &self.connections) {
            Ok(order) => {
                self.processing_order = order;
            },
            Err(_) => {
                proof {
                    assert(valid_order(before.order_view().remove(p as int), self.nodes_view(), self.connections_view()));
                }
            },
        }
        Ok(node)
    }

    /// Returns a node by identifier.
    pub fn get_node(&self, id: NodeId) -> (r: Result<&N, GraphError>)
        requires
            self.wf(),
        ensures
            match r {
                Ok(n) => self.contents().contains_key(id) && *n == self.contents()[id],
                Err(e) => !self.contents().contains_key(id) && e == GraphError::NodeNotExists(id),
            },
    {
        proof {
            self.lemma_wf_facts();
        }
        match find_slot(&self.ids, id) {
            Some(s) => Ok(&self.nodes[s]),
            None => Err(GraphError::NodeNotExists(id)),
        }
    }

    /// Returns a node by identifier, for changing it.
    pub fn get_node_mut(&mut self, id: NodeId) -> (r: Result<&mut N, GraphError>)
        requires
            old(self).wf(),
        ensures
            final(self).wf(),
            final(self).nodes_view() == old(self).nodes_view(),
            final(self).connections_view() == old(self).connections_view(),
            final(self).order_view() == old(self).order_view(),
            final(self).next_id() == old(self).next_id(),
            match r {
                Ok(n) => old(self).contents().contains_key(id) && *n == old(self).contents()[id]
                    && final(self).contents() == old(self).contents().insert(id, *final(n)),
                Err(e) => !old(self).contents().contains_key(id) && e == GraphError::NodeNotExists(id)
                    && final(self).contents() == old(self).contents(),
            },
    {
        proof {
            self.lemma_wf_facts();
        }
        match find_slot(&self.ids, id) {
            Some(s) => Ok(&mut self.nodes[s]),
            None => Err(GraphError::NodeNotExists(id)),
        }
    }


    /// Returns every node with its identifier, in the order the nodes were added.
    pub fn iter_nodes(&self) -> (r: Vec<(NodeId, &N)>)
        requires
            self.wf(),
        ensures
            is_permutation(r@.map_values(|e: (NodeId, &N)| e.0), self.nodes_view()),
            forall|i: int| 0 <= i < r@.len() ==> *(#[trigger] r@[i]).1 == self.contents()[r@[i].0],
    {
        proof {
            self.lemma_wf_facts();
        }
        let mut r: Vec<(NodeId, &N)> = Vec::new();
        let mut i: usize = 0;
        while i < self.ids.len()
            invariant
                self.storage_ok(),
                forall|j: int| 0 <= j < self.ids@.len() ==> #[trigger] self.contents()[self.ids@[j]] == self.nodes@[j],
                i <= self.ids@.len(),
                r@.len() == i,
                forall|j: int| 0 <= j < i ==> (#[trigger] r@[j]).0 == self.ids@[j] && *r@[j].1 == self.nodes@[j],
            decreases self.ids@.len() - i,
        {
            r.push((self.ids[i], &self.nodes[i]));
            i += 1;
        }
        proof {
            let firsts = r@.map_values(|e: (NodeId, &N)| e.0);
            assert(firsts =~= self.ids@);
        }
        r
    }

    /// Returns the identifiers of all nodes, in the order the nodes were added;
    /// each can be handed to `get_node_mut`.
    pub fn node_ids(&self) -> (r: Vec<NodeId>)
        requires
            self.wf(),
        ensures
            is_permutation(r@, self.nodes_view()),
    {
        proof {
            self.lemma_wf_facts();
        }
        let mut r: Vec<NodeId> = Vec::new();
        let mut i: usize = 0;
        while i < self.ids.len()
            invariant
                i <= self.ids@.len(),
                r@ == self.ids@.subrange(0, i as int),
            decreases self.ids@.len() - i,
        {
            r.push(self.ids[i]);
            i += 1;
            assert(r@ =~= self.ids@.subrange(0, i as int));
        }
        assert(r@ =~= self.ids@);
        r
    }

    /// Returns the number of nodes.
    pub fn node_count(&self) -> (r: usize)
        requires
            self.wf(),
        ensures
            exists|s: Seq<NodeId>| s.len() == r && #[trigger] is_permutation(s, self.nodes_view()),
    {
        proof {
            self.lemma_wf_facts();
            assert(is_permutation(self.ids@, self.nodes_view()));
        }
        self.ids.len()
    }

    /// Returns the connections, in the order they were added.
    pub fn connections(&self) -> (r: &Vec<Connection>)
        ensures
            r@ == self.connections_view(),
    {
        &self.connections
    }

    /// Returns the cached processing order.
    pub fn processing_order(&self) -> (r: &Vec<NodeId>)
        ensures
            r@ == self.order_view(),
    {
        &self.processing_order
    }

    /// Runs one processing cycle. Each node in the processing order first
    /// receives, on each connected input, the current value of the output that
    /// feeds it, and is then processed.
    pub fn process(&mut self)
        requires
            old(self).wf(),
        ensures
            final(self).wf(),
            final(self).nodes_view() == old(self).nodes_view(),
            final(self).connections_view() == old(self).connections_view(),
            final(self).order_view() == old(self).order_view(),
            final(self).next_id() == old(self).next_id(),
            final(self).contents().dom() == old(self).contents().dom(),
            final(self).models() == cycle::<N>(
                old(self).models(),
                old(self).order_view(),
                old(self).connections_view(),
                old(self).order_view().len() as int,
            ),
    {
        let ghost before = *self;
        let ghost start = self.models();
        proof {
            self.lemma_wf_facts();
        }
        let mut k: usize = 0;
        while k < self.processing_order.len()
            invariant
                before.wf(),
                forall|id: NodeId| #[trigger] before.nodes_view().contains_key(id) <==> before.ids@.contains(id),
                self.ids@ == before.ids@,
                self.ports@ == before.ports@,
                self.connections@ == before.connections@,
                self.processing_order@ == before.processing_order@,
                self.next_node_id == before.next_node_id,
                self.nodes@.len() == before.nodes@.len(),
                k <= self.processing_order@.len(),
                self.models() == cycle::<N>(start, before.order_view(), before.connections_view(), k as int),
            decreases self.processing_order@.len() - k,
        {
            let node = self.processing_order[k];
            proof {
                assert(before.order_view().contains(node));
            }
            let t = find_slot(&self.ids, node).unwrap();
            let mut c: usize = 0;
            while c < self.connections.len()
                invariant
                    before.wf(),
                    forall|id: NodeId| #[trigger] before.nodes_view().contains_key(id) <==> before.ids@.contains(id),
                    self.ids@ == before.ids@,
                    self.ports@ == before.ports@,
                    self.connections@ == before.connections@,
                    self.processing_order@ == before.processing_order@,
                    self.next_node_id == before.next_node_id,
                    self.nodes@.len() == before.nodes@.len(),
                    k < self.processing_order@.len(),
                    t < self.ids@.len(),
                    self.ids@[t as int] == node,
                    node == before.order_view()[k as int],
                    c <= self.connections@.len(),
                    self.models() == fed::<N>(
                        cycle::<N>(start, before.order_view(), before.connections_view(), k as int),
                        before.connections_view(),
                        node,
                        c as int,
                    ),
                decreases self.connections@.len() - c,
            {
                let conn = self.connections[c];
                if conn.target_node == node {
                    proof {
                        assert(connection_valid(before.nodes_view(), before.connections_view()[c as int]));
                    }
                    let s = find_slot(&self.ids, conn.source_node).unwrap();
                    proof {
                        lemma_keyed(self.ids@, self.nodes@);
                    }
                    let value = self.nodes[s].get_output(conn.source_output);
                    let ghost mid = self.nodes@;
                    self.nodes[t].set_input(conn.target_input, value);
                    proof {
                        lemma_keyed(self.ids@, mid);
                        Self::lemma_models_update(self.ids@, mid, t as int, self.nodes@[t as int]);
                        assert(mid.update(t as int, self.nodes@[t as int]) == self.nodes@);
                    }
                }
                c += 1;
            }
            let ghost mid = self.nodes@;
            let ghost after = self.models();
            proof {
                lemma_keyed(self.ids@, mid);
                assert(c as int == before.connections_view().len());
                assert(self.models() == fed::<N>(
                    cycle::<N>(start, before.order_view(), before.connections_view(), k as int),
                    before.connections_view(),
                    node,
                    c as int,
                ));
                assert(after == fed::<N>(
                    cycle::<N>(start, before.order_view(), before.connections_view(), k as int),
                    before.connections_view(),
                    node,
                    before.connections_view().len() as int,
                ));
                assert(keyed(self.ids@, mid)[self.ids@[t as int]] == mid[t as int]);
                assert(after[node] == mid[t as int].model());
                assert(cycle::<N>(start, before.order_view(), before.connections_view(), k + 1) == after.insert(
                    node,
                    after[node].stepped(),
                ));
            }
            self.nodes[t].process();
            proof {
                Self::lemma_models_update(self.ids@, mid, t as int, self.nodes@[t as int]);
                assert(mid.update(t as int, self.nodes@[t as int]) == self.nodes@);
            }
            k += 1;
        }
        proof {
            self.lemma_wf_facts();
        }
    }

}

/// Copies the entries of a slice into a new vector.
fn copy_slice<T: Copy>(s: &[T]) -> (r: Vec<T>)
    ensures
        r@ == s@,
{
    let mut r: Vec<T> = Vec::new();
    let mut i: usize = 0;
    while i < s.len()
        invariant
            i <= s@.len(),
            r@ == s@.subrange(0, i as int),
        decreases s@.len() - i,
    {
        r.push(s[i]);
        i += 1;
        assert(r@ =~= s@.subrange(0, i as int));
    }
    assert(r@ =~= s@);
    r
}

/// Looks up `x` among the outputs.
fn has_output(v: &Vec<OutputId>, x: OutputId) -> (r: bool)
    ensures
        r == v@.contains(x),
{
    let mut i: usize = 0;
    while i < v.len()
        invariant
            i <= v@.len(),
            forall|j: int| 0 <= j < i ==> v@[j] != x,
        decreases v@.len() - i,
    {
        if v[i] == x {
            return true;
        }
        i += 1;
    }
    false
}

/// Looks up `x` among the inputs.
fn has_input(v: &Vec<InputId>, x: InputId) -> (r: bool)
    ensures
        r == v@.contains(x),
{
    let mut i: usize = 0;
    while i < v.len()
        invariant
            i <= v@.len(),
            forall|j: int| 0 <= j < i ==> v@[j] != x,
        decreases v@.len() - i,
    {
        if v[i] == x {
            return true;
        }
        i += 1;
    }
    false
}

/// Whether some connection already feeds `input` of `node`.
fn input_is_taken(conns: &Vec<Connection>, node: NodeId, input: InputId) -> (r: bool)
    ensures
        r == input_taken(conns@, node, input),
{
    let mut i: usize = 0;
    while i < conns.len()
        invariant
            i <= conns@.len(),
            forall|j: int| 0 <= j < i ==> !((#[trigger] conns@[j]).target_node == node && conns@[j].target_input == input),
        decreases conns@.len() - i,
    {
        if conns[i].target_node == node && conns[i].target_input == input {
            return true;
        }
        i += 1;
    }
    false
}

/// The index of `c` among the connections.
fn find_connection(conns: &Vec<Connection>, c: Connection) -> (r: Option<usize>)
    ensures
        match r {
            Some(k) => k < conns@.len() && conns@[k as int] == c,
            None => !conns@.contains(c),
        },
{
    let mut i: usize = 0;
    while i < conns.len()
        invariant
            i <= conns@.len(),
            forall|j: int| 0 <= j < i ==> conns@[j] != c,
        decreases conns@.len() - i,
    {
        if conns[i] == c {
            return Some(i);
        }
        i += 1;
    }
    None
}

/// The connections that neither start nor end at `id`, in their order.
fn without_node(conns: &Vec<Connection>, id: NodeId) -> (r: Vec<Connection>)
    ensures
        r@ == conns@.filter(|x: Connection| x.source_node != id && x.target_node != id),
        drawn_from(r@, conns@),
        forall|x: Connection| #[trigger] r@.contains(x) <==> conns@.contains(x) && x.source_node != id
            && x.target_node != id,
        inputs_unique(conns@) ==> inputs_unique(r@),
{
    let mut r: Vec<Connection> = Vec::new();
    let ghost mut idx: Seq<int> = Seq::empty();
    let mut i: usize = 0;
    while i < conns.len()
        invariant
            i <= conns@.len(),
            idx.len() == r@.len(),
            forall|a: int| 0 <= a < r@.len() ==> 0 <= #[trigger] idx[a] < i && r@[a] == conns@[idx[a]],
            forall|a: int, b: int| 0 <= a < b < r@.len() ==> #[trigger] idx[a] < #[trigger] idx[b],
            forall|j: int| 0 <= j < i && (#[trigger] conns@[j]).source_node != id && conns@[j].target_node != id
                ==> r@.contains(conns@[j]),
            forall|a: int| 0 <= a < r@.len() ==> (#[trigger] r@[a]).source_node != id && r@[a].target_node != id,
            r@ == conns@.subrange(0, i as int).filter(|x: Connection| x.source_node != id && x.target_node != id),
        decreases conns@.len() - i,
    {
        let c = conns[i];
        proof {
            reveal(Seq::filter);
            let pre = conns@.subrange(0, i as int + 1);
            assert(pre.drop_last() =~= conns@.subrange(0, i as int));
            assert(pre.last() == c);
        }
        if c.source_node != id && c.target_node != id {
            let ghost old_r = r@;
            r.push(c);
            proof {
                idx = idx.push(i as int);
                assert forall|j: int| 0 <= j <= i && (#[trigger] conns@[j]).source_node != id
                    && conns@[j].target_node != id implies r@.contains(conns@[j]) by {
                    if j < i {
                        let a = choose|a: int| 0 <= a < old_r.len() && old_r[a] == conns@[j];
                        assert(r@[a] == conns@[j]);
                    } else {
                        assert(r@[r@.len() - 1] == conns@[j]);
                    }
                }
            }
        }
        i += 1;
    }
    assert(conns@.subrange(0, conns@.len() as int) =~= conns@);
    assert forall|x: Connection| #[trigger] r@.contains(x) <==> conns@.contains(x) && x.source_node != id
        && x.target_node != id by {
        if r@.contains(x) {
            let a = choose|a: int| 0 <= a < r@.len() && r@[a] == x;
            assert(conns@[idx[a]] == x);
        }
        if conns@.contains(x) && x.source_node != id && x.target_node != id {
            let j = choose|j: int| 0 <= j < conns@.len() && conns@[j] == x;
        }
    }
    assert forall|a: int| 0 <= a < r@.len() implies conns@.contains(#[trigger] r@[a]) by {
        assert(conns@[idx[a]] == r@[a]);
    }
    proof {
        if inputs_unique(conns@) {
            assert forall|a: int, b: int|
            0 <= a < r@.len() && 0 <= b < r@.len() && a != b && (#[trigger] r@[a]).target_node == (
            #[trigger] r@[b]).target_node implies r@[a].target_input != r@[b].target_input by {
            assert(r@[a] == conns@[idx[a]] && r@[b] == conns@[idx[b]]);
            if a < b {
                assert(idx[a] < idx[b]);
            } else {
                assert(idx[b] < idx[a]);
            }
        }
        }
    }
    r
}

} // verus!

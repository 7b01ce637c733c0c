//! The dependency model of a graph and its delay-aware topological sort.
use vstd::prelude::*;
use crate::connection::Connection;
use crate::graph::GraphError;
use crate::node::{InputId, NodeId, OutputId};

verus! {

/// The ports and the delay class that a graph recorded for one of its nodes.
pub struct NodePorts {
    pub inputs: Vec<InputId>,
    pub outputs: Vec<OutputId>,
    pub delayed: bool,
}

/// The index at which `id` stands in `ids`.
pub open spec fn slot_of(ids: Seq<NodeId>, id: NodeId) -> int {
    choose|i: int| 0 <= i < ids.len() && ids[i] == id
}

/// The entries of `vals`, keyed by the identifier at the same index of `ids`.
pub open spec fn keyed<V>(ids: Seq<NodeId>, vals: Seq<V>) -> Map<NodeId, V> {
    Map::new(|id: NodeId| ids.contains(id), |id: NodeId| vals[slot_of(ids, id)])
}

/// Both endpoints of `c` exist and declare the ports that it names.
pub open spec fn connection_valid(nodes: Map<NodeId, NodePorts>, c: Connection) -> bool {
    &&& nodes.contains_key(c.source_node)
    &&& nodes[c.source_node].outputs@.contains(c.source_output)
    &&& nodes.contains_key(c.target_node)
    &&& nodes[c.target_node].inputs@.contains(c.target_input)
}

/// `c` is a dependency: its source does not delay.
pub open spec fn is_dependency(nodes: Map<NodeId, NodePorts>, c: Connection) -> bool {
    !nodes[c.source_node].delayed
}

/// `order` lists each node of `nodes` exactly once.
pub open spec fn is_permutation(order: Seq<NodeId>, nodes: Map<NodeId, NodePorts>) -> bool {
    &&& order.no_duplicates()
    &&& forall|id: NodeId| #[trigger] order.contains(id) <==> nodes.contains_key(id)
}

/// In `order`, the source of every dependency comes strictly before its target.
pub open spec fn respects_dependencies(
    order: Seq<NodeId>,
    nodes: Map<NodeId, NodePorts>,
    conns: Seq<Connection>,
) -> bool {
    forall|k: int, i: int, j: int|
        0 <= k < conns.len() && 0 <= i < order.len() && 0 <= j < order.len()
            && is_dependency(nodes, #[trigger] conns[k]) && #[trigger] order[i] == conns[k].source_node
            && #[trigger] order[j] == conns[k].target_node ==> i < j
}

/// `order` is a processing order for the nodes and connections.
pub open spec fn valid_order(order: Seq<NodeId>, nodes: Map<NodeId, NodePorts>, conns: Seq<Connection>) -> bool {
    is_permutation(order, nodes) && respects_dependencies(order, nodes, conns)
}

/// In `order`, every delaying node comes after every non-delaying one.
pub open spec fn delays_last(order: Seq<NodeId>, nodes: Map<NodeId, NodePorts>) -> bool {
    forall|i: int, j: int| 0 <= i < j < order.len() && nodes[#[trigger] order[i]].delayed ==> nodes[#[trigger] order[j]].delayed
}

/// Node `a` feeds, through connection `k`, a delaying node other than itself.
pub open spec fn feeds_delay(nodes: Map<NodeId, NodePorts>, conns: Seq<Connection>, a: NodeId, k: int) -> bool {
    0 <= k < conns.len() && conns[k].source_node == a && conns[k].target_node != a
        && nodes[conns[k].target_node].delayed
}

/// The delaying node at each place `p` of `order` is chosen as follows among
/// the delaying nodes not placed before `p`: the first, in the storage order
/// `ids`, of those whose delaying targets (other than themselves) are all
/// placed before `p`; when none is, the first of them all, every one of them
/// then feeding an unplaced delaying node (as on a cycle among delaying nodes).
/// Processed in this order, a delaying node reads the output of a delaying
/// node upstream as it was before that node latched in the same cycle.
pub open spec fn delays_arranged(order: Seq<NodeId>, ids: Seq<NodeId>, nodes: Map<NodeId, NodePorts>, conns: Seq<Connection>) -> bool {
    forall|p: int|
        0 <= p < order.len() && nodes[#[trigger] order[p]].delayed ==> first_fully_fed(order, ids, nodes, conns, p)
            || first_left(order, ids, nodes, conns, p)
}

/// Every delaying node that `y` feeds, other than itself, comes before `p`.
pub open spec fn feeds_only_before(order: Seq<NodeId>, nodes: Map<NodeId, NodePorts>, conns: Seq<Connection>, p: int, y: NodeId) -> bool {
    forall|k: int| #[trigger] feeds_delay(nodes, conns, y, k) ==> order.subrange(0, p).contains(conns[k].target_node)
}

/// The node at `p` has all its delaying targets before `p`, and so has no node
/// after it that comes earlier in storage order.
pub open spec fn first_fully_fed(order: Seq<NodeId>, ids: Seq<NodeId>, nodes: Map<NodeId, NodePorts>, conns: Seq<Connection>, p: int) -> bool {
    &&& feeds_only_before(order, nodes, conns, p, order[p])
    &&& forall|q: int|
        p < q < order.len() && slot_of(ids, #[trigger] order[q]) < slot_of(ids, order[p]) ==> !feeds_only_before(
            order,
            nodes,
            conns,
            p,
            order[q],
        )
}

/// Every node from `p` on feeds a delaying node not before `p`, and the node
/// at `p` comes first in storage order among them.
pub open spec fn first_left(order: Seq<NodeId>, ids: Seq<NodeId>, nodes: Map<NodeId, NodePorts>, conns: Seq<Connection>, p: int) -> bool {
    &&& tail_feeds_unplaced(order, nodes, conns, p)
    &&& forall|q: int| p < q < order.len() ==> slot_of(ids, order[p]) < slot_of(ids, #[trigger] order[q])
}

/// Every node from `p` on feeds a delaying node that does not come before `p`.
pub open spec fn tail_feeds_unplaced(order: Seq<NodeId>, nodes: Map<NodeId, NodePorts>, conns: Seq<Connection>, p: int) -> bool {
    forall|q: int| p <= q < order.len() ==> #[trigger] feeds_unplaced(order, nodes, conns, p, q)
}

/// The node at `q` feeds a delaying node that does not come before `p`.
pub open spec fn feeds_unplaced(order: Seq<NodeId>, nodes: Map<NodeId, NodePorts>, conns: Seq<Connection>, p: int, q: int) -> bool {
    exists|k: int| #[trigger] feeds_delay(nodes, conns, order[q], k) && !order.subrange(0, p).contains(conns[k].target_node)
}

/// No dependency of node `id` has its source outside the first `p` entries of `order`.
pub open spec fn ready_at(order: Seq<NodeId>, nodes: Map<NodeId, NodePorts>, conns: Seq<Connection>, p: int, id: NodeId) -> bool {
    forall|k: int|
        0 <= k < conns.len() && (#[trigger] conns[k]).target_node == id && is_dependency(nodes, conns[k])
            ==> order.subrange(0, p).contains(conns[k].source_node)
}

/// The tie-break: each non-delaying node of `order` is the first, in the storage
/// order `ids`, of the non-delaying nodes that are not listed before it and
/// whose dependencies all are.
pub open spec fn first_ready_each(order: Seq<NodeId>, ids: Seq<NodeId>, nodes: Map<NodeId, NodePorts>, conns: Seq<Connection>) -> bool {
    forall|p: int, i: int|
        0 <= p < order.len() && !nodes[order[p]].delayed && 0 <= i < slot_of(ids, #[trigger] order[p])
            && !nodes[ids[i]].delayed && !order.subrange(0, p).contains(ids[i]) ==> !#[trigger] ready_at(
            order,
            nodes,
            conns,
            p,
            ids[i],
        )
}

/// Some processing order exists: no cycle runs through non-delaying nodes alone.
pub open spec fn orderable(nodes: Map<NodeId, NodePorts>, conns: Seq<Connection>) -> bool {
    exists|order: Seq<NodeId>| valid_order(order, nodes, conns)
}

/// With distinct identifiers, each identifier keys the entry at its own index.
pub proof fn lemma_keyed<V>(ids: Seq<NodeId>, ports: Seq<V>)
    requires
        ids.no_duplicates(),
        ids.len() == ports.len(),
    ensures
        forall|id: NodeId| #[trigger] keyed(ids, ports).contains_key(id) <==> ids.contains(id),
        forall|i: int| 0 <= i < ids.len() ==> #[trigger] slot_of(ids, ids[i]) == i,
        forall|i: int| 0 <= i < ids.len() ==> #[trigger] keyed(ids, ports)[ids[i]] == ports[i],
{
    assert forall|i: int| 0 <= i < ids.len() implies #[trigger] slot_of(ids, ids[i]) == i by {
        let id = ids[i];
        assert(0 <= i < ids.len() && ids[i] == id);
        let j = slot_of(ids, id);
        assert(0 <= j < ids.len() && ids[j] == id);
    }
}

/// Appending an unused identifier and its entry inserts them into the map.
pub proof fn lemma_keyed_push<V>(ids: Seq<NodeId>, vals: Seq<V>, id: NodeId, v: V)
    requires
        ids.no_duplicates(),
        ids.len() == vals.len(),
        !ids.contains(id),
    ensures
        ids.push(id).no_duplicates(),
        keyed(ids.push(id), vals.push(v)) == keyed(ids, vals).insert(id, v),
{
    let ids2 = ids.push(id);
    let vals2 = vals.push(v);
    assert forall|a: int, b: int| 0 <= a < ids2.len() && 0 <= b < ids2.len() && a != b implies ids2[a] != ids2[b] by {
        if a < ids.len() && b < ids.len() {
        } else if a < ids.len() {
            assert(ids.contains(ids[a]));
        } else {
            assert(ids.contains(ids[b]));
        }
    }
    lemma_keyed(ids, vals);
    lemma_keyed(ids2, vals2);
    let m2 = keyed(ids2, vals2);
    let m = keyed(ids, vals).insert(id, v);
    assert forall|x: NodeId| #[trigger] m2.contains_key(x) <==> m.contains_key(x) by {
        if ids.contains(x) {
            let i = choose|i: int| 0 <= i < ids.len() && ids[i] == x;
            assert(ids2[i] == x);
        }
        if ids2.contains(x) && x != id {
            let i = choose|i: int| 0 <= i < ids2.len() && ids2[i] == x;
            assert(ids[i] == x);
        }
        assert(ids2[ids.len() as int] == id);
    }
    assert forall|x: NodeId| #[trigger] m2.contains_key(x) implies m2[x] == m[x] by {
        if x == id {
            assert(ids2[ids.len() as int] == id);
        } else {
            let i = choose|i: int| 0 <= i < ids.len() && ids[i] == x;
            assert(ids2[i] == x);
        }
    }
    assert(m2 =~= m);
}

/// Removing an index from both sequences removes its identifier from the map.
pub proof fn lemma_keyed_remove<V>(ids: Seq<NodeId>, vals: Seq<V>, s: int)
    requires
        ids.no_duplicates(),
        ids.len() == vals.len(),
        0 <= s < ids.len(),
    ensures
        ids.remove(s).no_duplicates(),
        keyed(ids.remove(s), vals.remove(s)) == keyed(ids, vals).remove(ids[s]),
{
    let ids2 = ids.remove(s);
    let vals2 = vals.remove(s);
    assert forall|a: int, b: int| 0 <= a < ids2.len() && 0 <= b < ids2.len() && a != b implies ids2[a] != ids2[b] by {
        let a1 = if a < s { a } else { a + 1 };
        let b1 = if b < s { b } else { b + 1 };
        assert(ids2[a] == ids[a1] && ids2[b] == ids[b1]);
    }
    lemma_keyed(ids, vals);
    lemma_keyed(ids2, vals2);
    let m2 = keyed(ids2, vals2);
    let m = keyed(ids, vals).remove(ids[s]);
    assert forall|x: NodeId| #[trigger] m2.contains_key(x) <==> m.contains_key(x) by {
        if ids.contains(x) && x != ids[s] {
            let i = choose|i: int| 0 <= i < ids.len() && ids[i] == x;
            if i < s {
                assert(ids2[i] == x);
            } else {
                assert(ids2[i - 1] == x);
            }
        }
        if ids2.contains(x) {
            let i = choose|i: int| 0 <= i < ids2.len() && ids2[i] == x;
            let i1 = if i < s { i } else { i + 1 };
            assert(ids[i1] == x);
        }
    }
    assert forall|x: NodeId| #[trigger] m2.contains_key(x) implies m2[x] == m[x] by {
        let i = choose|i: int| 0 <= i < ids2.len() && ids2[i] == x;
        let i1 = if i < s { i } else { i + 1 };
        assert(ids[i1] == x);
        assert(vals2[i] == vals[i1]);
    }
    assert(m2 =~= m);
}

/// Every connection of `sub` is one of `conns`.
pub open spec fn drawn_from(sub: Seq<Connection>, conns: Seq<Connection>) -> bool {
    forall|k: int| 0 <= k < sub.len() ==> conns.contains(#[trigger] sub[k])
}

proof fn lemma_respects_drawn_from(
    order: Seq<NodeId>,
    nodes: Map<NodeId, NodePorts>,
    conns: Seq<Connection>,
    sub: Seq<Connection>,
)
    requires
        respects_dependencies(order, nodes, conns),
        drawn_from(sub, conns),
    ensures
        respects_dependencies(order, nodes, sub),
{
    assert forall|k: int, i: int, j: int|
        0 <= k < sub.len() && 0 <= i < order.len() && 0 <= j < order.len()
            && is_dependency(nodes, #[trigger] sub[k]) && #[trigger] order[i] == sub[k].source_node
            && #[trigger] order[j] == sub[k].target_node implies i < j by {
        assert(conns.contains(sub[k]));
        let k1 = choose|k1: int| 0 <= k1 < conns.len() && conns[k1] == sub[k];
        assert(is_dependency(nodes, conns[k1]));
    }
}

/// An order stays valid when connections are taken away.
pub proof fn lemma_order_drawn_from(
    order: Seq<NodeId>,
    nodes: Map<NodeId, NodePorts>,
    conns: Seq<Connection>,
    sub: Seq<Connection>,
)
    requires
        valid_order(order, nodes, conns),
        drawn_from(sub, conns),
    ensures
        valid_order(order, nodes, sub),
{
    lemma_respects_drawn_from(order, nodes, conns, sub);
}

/// An order stays valid when an unconnected node is appended.
pub proof fn lemma_order_push(order: Seq<NodeId>, nodes: Map<NodeId, NodePorts>, conns: Seq<Connection>, id: NodeId, p: NodePorts)
    requires
        valid_order(order, nodes, conns),
        !nodes.contains_key(id),
        forall|k: int| 0 <= k < conns.len() ==> connection_valid(nodes, #[trigger] conns[k]),
    ensures
        valid_order(order.push(id), nodes.insert(id, p), conns),
{
    let o2 = order.push(id);
    let n2 = nodes.insert(id, p);
    assert(!order.contains(id));
    assert forall|a: int, b: int| 0 <= a < o2.len() && 0 <= b < o2.len() && a != b implies o2[a] != o2[b] by {
        if a < order.len() && b < order.len() {
        } else if a < order.len() {
            assert(order.contains(order[a]));
        } else {
            assert(order.contains(order[b]));
        }
    }
    assert forall|x: NodeId| #[trigger] o2.contains(x) <==> n2.contains_key(x) by {
        if order.contains(x) {
            let i = choose|i: int| 0 <= i < order.len() && order[i] == x;
            assert(o2[i] == x);
        }
        if o2.contains(x) && x != id {
            let i = choose|i: int| 0 <= i < o2.len() && o2[i] == x;
            assert(order[i] == x);
        }
        assert(o2[order.len() as int] == id);
    }
    assert forall|k: int, i: int, j: int|
        0 <= k < conns.len() && 0 <= i < o2.len() && 0 <= j < o2.len()
            && is_dependency(n2, #[trigger] conns[k]) && #[trigger] o2[i] == conns[k].source_node
            && #[trigger] o2[j] == conns[k].target_node implies i < j by {
        assert(connection_valid(nodes, conns[k]));
        assert(i < order.len() && j < order.len());
        assert(order[i] == o2[i] && order[j] == o2[j]);
        assert(is_dependency(nodes, conns[k]));
    }
}

/// An order stays valid when a node and every connection touching it are taken away.
pub proof fn lemma_order_remove(
    order: Seq<NodeId>,
    nodes: Map<NodeId, NodePorts>,
    conns: Seq<Connection>,
    sub: Seq<Connection>,
    p: int,
)
    requires
        valid_order(order, nodes, conns),
        0 <= p < order.len(),
        drawn_from(sub, conns),
        forall|k: int| 0 <= k < sub.len() ==> (#[trigger] sub[k]).source_node != order[p]
            && sub[k].target_node != order[p],
    ensures
        valid_order(order.remove(p), nodes.remove(order[p]), sub),
{
    let id = order[p];
    let o2 = order.remove(p);
    let n2 = nodes.remove(id);
    lemma_respects_drawn_from(order, nodes, conns, sub);
    assert forall|a: int, b: int| 0 <= a < o2.len() && 0 <= b < o2.len() && a != b implies o2[a] != o2[b] by {
        let a1 = if a < p { a } else { a + 1 };
        let b1 = if b < p { b } else { b + 1 };
        assert(o2[a] == order[a1] && o2[b] == order[b1]);
    }
    assert forall|x: NodeId| #[trigger] o2.contains(x) <==> n2.contains_key(x) by {
        if o2.contains(x) {
            let i = choose|i: int| 0 <= i < o2.len() && o2[i] == x;
            let i1 = if i < p { i } else { i + 1 };
            assert(order[i1] == x);
            assert(order.contains(x));
        }
        if n2.contains_key(x) {
            assert(order.contains(x));
            let i = choose|i: int| 0 <= i < order.len() && order[i] == x;
            if i < p {
                assert(o2[i] == x);
            } else {
                assert(o2[i - 1] == x);
            }
        }
    }
    assert forall|k: int, i: int, j: int|
        0 <= k < sub.len() && 0 <= i < o2.len() && 0 <= j < o2.len()
            && is_dependency(n2, #[trigger] sub[k]) && #[trigger] o2[i] == sub[k].source_node
            && #[trigger] o2[j] == sub[k].target_node implies i < j by {
        let i1 = if i < p { i } else { i + 1 };
        let j1 = if j < p { j } else { j + 1 };
        assert(order[i1] == o2[i] && order[j1] == o2[j]);
        assert(is_dependency(nodes, sub[k]));
    }
}

/// `path` is a closed walk along dependencies: each connection is one of
/// `conns`, none has a delaying source, and each ends where the next begins.
pub open spec fn is_undelayed_cycle(nodes: Map<NodeId, NodePorts>, conns: Seq<Connection>, path: Seq<Connection>) -> bool {
    &&& path.len() > 0
    &&& forall|i: int| 0 <= i < path.len() ==> conns.contains(#[trigger] path[i]) && is_dependency(nodes, path[i])
    &&& forall|i: int| 0 <= i < path.len() - 1 ==> (#[trigger] path[i]).target_node == path[i + 1].source_node
    &&& path.last().target_node == path[0].source_node
}

/// The position of `id` in `order`.
spec fn position(order: Seq<NodeId>, id: NodeId) -> int {
    choose|q: int| 0 <= q < order.len() && order[q] == id
}

/// Along a walk of dependencies, positions in a valid order rise.
proof fn lemma_walk_ascends(
    order: Seq<NodeId>,
    nodes: Map<NodeId, NodePorts>,
    conns: Seq<Connection>,
    path: Seq<Connection>,
    i: int,
)
    requires
        valid_order(order, nodes, conns),
        is_undelayed_cycle(nodes, conns, path),
        forall|k: int| 0 <= k < conns.len() ==> connection_valid(nodes, #[trigger] conns[k]),
        0 <= i < path.len(),
    ensures
        0 <= position(order, path[0].source_node) < order.len(),
        order[position(order, path[0].source_node)] == path[0].source_node,
        0 <= position(order, path[i].source_node) < order.len(),
        order[position(order, path[i].source_node)] == path[i].source_node,
        0 <= position(order, path[i].target_node) < order.len(),
        order[position(order, path[i].target_node)] == path[i].target_node,
        position(order, path[0].source_node) <= position(order, path[i].source_node),
        position(order, path[i].source_node) < position(order, path[i].target_node),
    decreases i,
{
    assert(conns.contains(path[i]));
    let k = choose|k: int| 0 <= k < conns.len() && conns[k] == path[i];
    assert(connection_valid(nodes, conns[k]));
    assert(order.contains(path[i].source_node));
    assert(order.contains(path[i].target_node));
    assert(conns.contains(path[0]));
    let k0 = choose|k0: int| 0 <= k0 < conns.len() && conns[k0] == path[0];
    assert(connection_valid(nodes, conns[k0]));
    assert(order.contains(path[0].source_node));
    let a = position(order, path[i].source_node);
    let b = position(order, path[i].target_node);
    assert(order[a] == conns[k].source_node && order[b] == conns[k].target_node);
    if i > 0 {
        lemma_walk_ascends(order, nodes, conns, path, i - 1);
        assert(path[i - 1].target_node == path[i].source_node);
    }
}

/// A cycle through non-delaying nodes alone leaves no valid processing order.
pub proof fn lemma_undelayed_cycle_not_orderable(
    nodes: Map<NodeId, NodePorts>,
    conns: Seq<Connection>,
    path: Seq<Connection>,
)
    requires
        forall|k: int| 0 <= k < conns.len() ==> connection_valid(nodes, #[trigger] conns[k]),
        is_undelayed_cycle(nodes, conns, path),
    ensures
        !orderable(nodes, conns),
{
    if orderable(nodes, conns) {
        let o = choose|o: Seq<NodeId>| valid_order(o, nodes, conns);
        let last = path.len() - 1;
        lemma_walk_ascends(o, nodes, conns, path, last);
        assert(path[last].target_node == path[0].source_node);
    }
}

/// Looks up the index of `id` in `ids`.
pub(crate) fn find_slot(ids: &Vec<NodeId>, id: NodeId) -> (r: Option<usize>)
    ensures
        match r {
            Some(i) => i < ids@.len() && ids@[i as int] == id,
            None => !ids@.contains(id),
        },
{
    let mut i: usize = 0;
    while i < ids.len()
        invariant
            i <= ids@.len(),
            forall|j: int| 0 <= j < i ==> ids@[j] != id,
        decreases ids@.len() - i,
    {
        if ids[i] == id {
            return Some(i);
        }
        i += 1;
    }
    None
}


/// Number of `false` entries.
pub open spec fn count_unplaced(placed: Seq<bool>) -> nat
    decreases placed.len(),
{
    if placed.len() == 0 {
        0
    } else {
        count_unplaced(placed.drop_last()) + if placed.last() { 0nat } else { 1nat }
    }
}

/// Placing one unplaced slot lowers the count by one.
proof fn lemma_count_unplaced_update(placed: Seq<bool>, i: int)
    requires
        0 <= i < placed.len(),
        !placed[i],
    ensures
        count_unplaced(placed.update(i, true)) + 1 == count_unplaced(placed),
    decreases placed.len(),
{
    let u = placed.update(i, true);
    if i == placed.len() - 1 {
        assert(u.drop_last() =~= placed.drop_last());
    } else {
        assert(u.drop_last() =~= placed.drop_last().update(i, true));
        lemma_count_unplaced_update(placed.drop_last(), i);
    }
}

/// Slot `i` has no dependency from a slot that is not placed yet.
spec fn ready(ports: Seq<NodePorts>, src: Seq<usize>, tgt: Seq<usize>, placed: Seq<bool>, i: int) -> bool {
    forall|k: int|
        0 <= k < src.len() && #[trigger] tgt[k] == i && !ports[src[k] as int].delayed ==> placed[src[k] as int]
}

/// Slot `i` has no dependency from a slot outside `listed`.
spec fn ready_after(ports: Seq<NodePorts>, src: Seq<usize>, tgt: Seq<usize>, listed: Seq<usize>, i: int) -> bool {
    forall|k: int|
        0 <= k < src.len() && #[trigger] tgt[k] == i && !ports[src[k] as int].delayed ==> listed.contains(src[k])
}

/// Each slot of `taken` is the first non-delaying slot, not taken before it,
/// that is ready once the slots before it are taken.
spec fn taken_first_ready(ports: Seq<NodePorts>, src: Seq<usize>, tgt: Seq<usize>, taken: Seq<usize>) -> bool {
    forall|p: int, i: int|
        0 <= p < taken.len() && 0 <= i < #[trigger] taken[p] && !ports[i].delayed && !taken.subrange(0, p).contains(
            i as usize,
        ) ==> !#[trigger] ready_after(ports, src, tgt, taken.subrange(0, p), i)
}

/// The connections, given by the slots of their endpoints, are in range.
spec fn slots_in_range(n: int, src: Seq<usize>, tgt: Seq<usize>) -> bool {
    &&& src.len() == tgt.len()
    &&& forall|k: int| 0 <= k < src.len() ==> #[trigger] src[k] < n && tgt[k] < n
}

/// Whether slot `i` is ready.
fn is_ready(ports: &Vec<NodePorts>, src: &Vec<usize>, tgt: &Vec<usize>, placed: &Vec<bool>, i: usize) -> (r: bool)
    requires
        slots_in_range(ports@.len() as int, src@, tgt@),
        placed@.len() == ports@.len(),
    ensures
        r == ready(ports@, src@, tgt@, placed@, i as int),
{
    let mut k: usize = 0;
    while k < src.len()
        invariant
            slots_in_range(ports@.len() as int, src@, tgt@),
            placed@.len() == ports@.len(),
            k <= src@.len(),
            forall|j: int|
                0 <= j < k && #[trigger] tgt@[j] == i && !ports@[src@[j] as int].delayed
                    ==> placed@[src@[j] as int],
        decreases src@.len() - k,
    {
        let s = src[k];
        if tgt[k] == i && !ports[s].delayed && !placed[s] {
            return false;
        }
        k += 1;
    }
    true
}

/// The first slot that is not placed.
fn first_unplaced(placed: &Vec<bool>) -> (r: Option<usize>)
    ensures
        match r {
            Some(i) => i < placed@.len() && !placed@[i as int] && forall|j: int| 0 <= j < i ==> placed@[j],
            None => forall|i: int| 0 <= i < placed@.len() ==> placed@[i],
        },
{
    let mut i: usize = 0;
    while i < placed.len()
        invariant
            i <= placed@.len(),
            forall|j: int| 0 <= j < i ==> placed@[j],
        decreases placed@.len() - i,
    {
        if !placed[i] {
            return Some(i);
        }
        i += 1;
    }
    None
}

/// The first slot that is not placed and is ready.
fn first_ready(ports: &Vec<NodePorts>, src: &Vec<usize>, tgt: &Vec<usize>, placed: &Vec<bool>) -> (r: Option<usize>)
    requires
        slots_in_range(ports@.len() as int, src@, tgt@),
        placed@.len() == ports@.len(),
    ensures
        match r {
            Some(i) => i < placed@.len() && !placed@[i as int] && ready(ports@, src@, tgt@, placed@, i as int)
                && forall|j: int| 0 <= j < i && !placed@[j] ==> !#[trigger] ready(ports@, src@, tgt@, placed@, j),
            None => forall|i: int|
                0 <= i < placed@.len() && !placed@[i] ==> !#[trigger] ready(ports@, src@, tgt@, placed@, i),
        },
{
    let mut i: usize = 0;
    while i < placed.len()
        invariant
            slots_in_range(ports@.len() as int, src@, tgt@),
            placed@.len() == ports@.len(),
            i <= placed@.len(),
            forall|j: int| 0 <= j < i && !placed@[j] ==> !#[trigger] ready(ports@, src@, tgt@, placed@, j),
        decreases placed@.len() - i,
    {
        if !placed[i] && is_ready(ports, src, tgt, placed, i) {
            return Some(i);
        }
        i += 1;
    }
    None
}

/// Slot `h` feeds the delaying slot `x`, another than itself, through connection `k`.
pub open spec fn feeds_delay_via(ports: Seq<NodePorts>, src: Seq<usize>, tgt: Seq<usize>, h: usize, k: int) -> bool {
    0 <= k < src.len() && src[k] == h && tgt[k] != h && ports[tgt[k] as int].delayed
}

/// Every delaying slot that `h` feeds, other than itself, is in `listed`.
pub open spec fn feeds_only_listed(ports: Seq<NodePorts>, src: Seq<usize>, tgt: Seq<usize>, listed: Seq<usize>, h: usize) -> bool {
    forall|k: int| #[trigger] feeds_delay_via(ports, src, tgt, h, k) ==> listed.contains(tgt[k])
}

/// Every slot of `held` not in `listed` feeds a delaying slot not in `listed`:
/// what is left lies on, or leads into, a cycle among delaying nodes.
pub open spec fn delays_stuck(ports: Seq<NodePorts>, src: Seq<usize>, tgt: Seq<usize>, held: Seq<usize>, listed: Seq<usize>) -> bool {
    forall|x: usize|
        #[trigger] held.contains(x) && !listed.contains(x) ==> exists|k: int|
            #[trigger] feeds_delay_via(ports, src, tgt, x, k) && !listed.contains(tgt[k])
}

/// `x` is one of `held` and not in `listed`.
pub open spec fn unlisted_delay(held: Seq<usize>, listed: Seq<usize>, x: usize) -> bool {
    held.contains(x) && !listed.contains(x)
}

/// The slot at position `p` of `r` is the first slot (by index) of `held` not
/// listed before it whose delaying targets are all listed before it; or, when
/// no such slot is left, the first slot of `held` not listed before it.
pub open spec fn arranged_at(ports: Seq<NodePorts>, src: Seq<usize>, tgt: Seq<usize>, held: Seq<usize>, r: Seq<usize>, p: int) -> bool {
    let pre = r.subrange(0, p);
    (feeds_only_listed(ports, src, tgt, pre, r[p]) && forall|x: usize|
        x < r[p] && #[trigger] unlisted_delay(held, pre, x) ==> !feeds_only_listed(ports, src, tgt, pre, x))
        || (delays_stuck(ports, src, tgt, held, pre) && forall|x: usize|
        x < r[p] ==> !#[trigger] unlisted_delay(held, pre, x))
}

/// Whether the delaying node at slot `h` feeds another delaying node that is
/// not listed yet.
fn feeds_unlisted_delay(ports: &Vec<NodePorts>, src: &Vec<usize>, tgt: &Vec<usize>, listed: &Vec<bool>, h: usize) -> (r: bool)
    requires
        slots_in_range(ports@.len() as int, src@, tgt@),
        listed@.len() == ports@.len(),
    ensures
        r == exists|k: int| #[trigger] feeds_delay_via(ports@, src@, tgt@, h, k) && !listed@[tgt@[k] as int],
{
    let mut k: usize = 0;
    while k < src.len()
        invariant
            slots_in_range(ports@.len() as int, src@, tgt@),
            listed@.len() == ports@.len(),
            k <= src@.len(),
            forall|j: int| 0 <= j < k ==> !(#[trigger] feeds_delay_via(ports@, src@, tgt@, h, j) && !listed@[tgt@[j] as int]),
        decreases src@.len() - k,
    {
        let t = tgt[k];
        if src[k] == h && t != h && ports[t].delayed && !listed[t] {
            assert(feeds_delay_via(ports@, src@, tgt@, h, k as int));
            return true;
        }
        k += 1;
    }
    false
}

/// Arranges the delaying nodes so that, outside cycles among them, a node comes
/// before every delaying node that feeds it: each then reads its upstream
/// delay's output from before that delay latches in the same cycle.
fn arrange_delays(ports: &Vec<NodePorts>, src: &Vec<usize>, tgt: &Vec<usize>, held: &Vec<usize>) -> (r: Vec<usize>)
    requires
        slots_in_range(ports@.len() as int, src@, tgt@),
        held@.no_duplicates(),
        forall|p: int| 0 <= p < held@.len() ==> #[trigger] held@[p] < ports@.len(),
    ensures
        r@.no_duplicates(),
        forall|x: usize| #[trigger] r@.contains(x) <==> held@.contains(x),
        forall|p: int|
            0 <= p < r@.len() ==> #[trigger] arranged_at(ports@, src@, tgt@, held@, r@, p),
        forall|p: int|
            0 <= p < r@.len() ==> #[trigger] arranged_at(ports@, src@, tgt@, r@, r@, p),
{
    let m: usize = held.len();
    let mut done: Vec<bool> = Vec::new();
    while done.len() < m
        invariant
            done@.len() <= m,
            m == held@.len(),
            forall|a: int| 0 <= a < done@.len() ==> !done@[a],
        decreases m - done@.len(),
    {
        done.push(false);
    }
    let mut listed: Vec<bool> = Vec::new();
    while listed.len() < ports.len()
        invariant
            listed@.len() <= ports@.len(),
            forall|x: int| 0 <= x < listed@.len() ==> !listed@[x],
        decreases ports@.len() - listed@.len(),
    {
        listed.push(false);
    }
    let mut r: Vec<usize> = Vec::new();
    let ghost mut pos: Seq<int> = Seq::empty();
    let n: usize = ports.len();
    loop
        invariant
            slots_in_range(ports@.len() as int, src@, tgt@),
            held@.no_duplicates(),
            forall|p: int| 0 <= p < held@.len() ==> #[trigger] held@[p] < ports@.len(),
            m == held@.len(),
            done@.len() == m,
            listed@.len() == ports@.len(),
            n == ports@.len(),
            pos.len() == r@.len(),
            pos.no_duplicates(),
            forall|i: int| 0 <= i < r@.len() ==> 0 <= #[trigger] pos[i] < m && r@[i] == held@[pos[i]],
            forall|a: int| 0 <= a < m ==> (#[trigger] done@[a] <==> pos.contains(a)),
            forall|x: int| 0 <= x < listed@.len() ==> (#[trigger] listed@[x] <==> r@.contains(x as usize)),
            forall|p: int|
                0 <= p < r@.len() ==> #[trigger] arranged_at(ports@, src@, tgt@, held@, r@, p),
        ensures
            forall|a: int| 0 <= a < m ==> #[trigger] done@[a],
            pos.len() == r@.len(),
            pos.no_duplicates(),
            forall|i: int| 0 <= i < r@.len() ==> 0 <= #[trigger] pos[i] < m && r@[i] == held@[pos[i]],
            forall|a: int| 0 <= a < m ==> (#[trigger] done@[a] <==> pos.contains(a)),
            forall|x: int| 0 <= x < listed@.len() ==> (#[trigger] listed@[x] <==> r@.contains(x as usize)),
            forall|p: int|
                0 <= p < r@.len() ==> #[trigger] arranged_at(ports@, src@, tgt@, held@, r@, p),
        decreases count_unplaced(done@),
    {
        let first = match first_unplaced(&done) {
            Some(a) => a,
            None => break,
        };
        // Take the first slot, in storage order, whose delaying targets are all
        // listed; failing that, the first slot left.
        let mut low: usize = first;
        let mut best: usize = first;
        let mut found: bool = false;
        let mut b: usize = first;
        while b < m
            invariant
                slots_in_range(ports@.len() as int, src@, tgt@),
                forall|p: int| 0 <= p < held@.len() ==> #[trigger] held@[p] < ports@.len(),
                m == held@.len(),
                done@.len() == m,
                listed@.len() == ports@.len(),
                first <= b <= m,
                first < m,
                !done@[first as int],
                low < m,
                !done@[low as int],
                forall|c: int| first <= c < b && !#[trigger] done@[c] ==> held@[low as int] <= held@[c],
                found ==> best < m && !done@[best as int] && forall|k: int|
                    #[trigger] feeds_delay_via(ports@, src@, tgt@, held@[best as int], k) ==> listed@[tgt@[k] as int],
                found ==> forall|c: int|
                    first <= c < b && !#[trigger] done@[c] && held@[c] < held@[best as int] ==> exists|k: int|
                        #[trigger] feeds_delay_via(ports@, src@, tgt@, held@[c], k) && !listed@[tgt@[k] as int],
                !found ==> forall|c: int|
                    first <= c < b && !#[trigger] done@[c] ==> exists|k: int|
                        #[trigger] feeds_delay_via(ports@, src@, tgt@, held@[c], k) && !listed@[tgt@[k] as int],
            decreases m - b,
        {
            if !done[b] {
                if held[b] < held[low] {
                    low = b;
                }
                if !feeds_unlisted_delay(ports, src, tgt, &listed, held[b]) && (!found || held[b] < held[best]) {
                    best = b;
                    found = true;
                }
            }
            b += 1;
        }
        let a: usize = if found { best } else { low };
        let ghost prefix = r@;
        proof {
            // Slots not yet listed are those at positions not done, all from `first` on.
            assert forall|x: usize| #[trigger] unlisted_delay(held@, prefix, x) implies exists|c: int|
                first <= c < m && !done@[c] && held@[c] == x by {
                let c = choose|c: int| 0 <= c < held@.len() && held@[c] == x;
                if done@[c] {
                    let i = choose|i: int| 0 <= i < pos.len() && pos[i] == c;
                    assert(prefix[i] == x);
                }
            }
            if found {
                assert forall|k: int| #[trigger] feeds_delay_via(ports@, src@, tgt@, held@[a as int], k) implies prefix.contains(
                    tgt@[k],
                ) by {
                    assert(listed@[tgt@[k] as int]);
                }
                assert forall|x: usize| x < held@[a as int] && #[trigger] unlisted_delay(held@, prefix, x) implies !feeds_only_listed(
                    ports@,
                    src@,
                    tgt@,
                    prefix,
                    x,
                ) by {
                    let c = choose|c: int| first <= c < m && !done@[c] && held@[c] == x;
                    let k = choose|k: int| #[trigger] feeds_delay_via(ports@, src@, tgt@, held@[c], k) && !listed@[tgt@[k] as int];
                    assert(feeds_delay_via(ports@, src@, tgt@, x, k) && !prefix.contains(tgt@[k]));
                }
            } else {
                assert forall|x: usize| #[trigger] held@.contains(x) && !prefix.contains(x) implies exists|k: int|
                    #[trigger] feeds_delay_via(ports@, src@, tgt@, x, k) && !prefix.contains(tgt@[k]) by {
                    assert(unlisted_delay(held@, prefix, x));
                    let c = choose|c: int| first <= c < m && !done@[c] && held@[c] == x;
                    let k = choose|k: int| #[trigger] feeds_delay_via(ports@, src@, tgt@, held@[c], k) && !listed@[tgt@[k] as int];
                    assert(feeds_delay_via(ports@, src@, tgt@, x, k) && !prefix.contains(tgt@[k]));
                }
                assert(delays_stuck(ports@, src@, tgt@, held@, prefix));
                assert forall|x: usize| x < held@[a as int] implies !#[trigger] unlisted_delay(held@, prefix, x) by {
                    if unlisted_delay(held@, prefix, x) {
                        let c = choose|c: int| first <= c < m && !done@[c] && held@[c] == x;
                    }
                }
            }
        }
        proof {
            lemma_count_unplaced_update(done@, a as int);
        }
        let ghost old_pos = pos;
        r.push(held[a]);
        done.set(a, true);
        listed.set(held[a], true);
        proof {
            pos = pos.push(a as int);
            let old_r = prefix;
            assert(r@.drop_last() =~= old_r);
            assert(r@[r@.len() - 1] == held@[a as int]);
            assert(r@.subrange(0, old_r.len() as int) =~= old_r);
            assert forall|p: int|
                0 <= p < r@.len() implies #[trigger] arranged_at(ports@, src@, tgt@, held@, r@, p) by {
                if p < old_r.len() {
                    assert(arranged_at(ports@, src@, tgt@, held@, old_r, p));
                    assert(r@.subrange(0, p) =~= old_r.subrange(0, p));
                    assert(r@[p] == old_r[p]);
                } else {
                    assert(r@.subrange(0, p) =~= old_r);
                    assert(r@[p] == held@[a as int]);
                }
            }
            assert forall|x: int| 0 <= x < listed@.len() implies (#[trigger] listed@[x] <==> r@.contains(x as usize)) by {
                if x as usize == held@[a as int] {
                    assert(r@[r@.len() - 1] == x as usize);
                } else if old_r.contains(x as usize) {
                    let i = choose|i: int| 0 <= i < old_r.len() && old_r[i] == x as usize;
                    assert(r@[i] == x as usize);
                } else if r@.contains(x as usize) {
                    let i = choose|i: int| 0 <= i < r@.len() && r@[i] == x as usize;
                    assert(i < old_r.len());
                    assert(old_r[i] == x as usize);
                }
            }
            assert(!old_pos.contains(a as int));
            assert forall|x: int, y: int| 0 <= x < y < pos.len() implies pos[x] != pos[y] by {
                if y == pos.len() - 1 {
                    assert(old_pos.contains(old_pos[x]));
                }
            }
            assert forall|c: int| 0 <= c < m implies (#[trigger] done@[c] <==> pos.contains(c)) by {
                if c == a {
                    assert(pos[pos.len() - 1] == c);
                } else if old_pos.contains(c) {
                    let i = choose|i: int| 0 <= i < old_pos.len() && old_pos[i] == c;
                    assert(pos[i] == c);
                } else if pos.contains(c) {
                    let i = choose|i: int| 0 <= i < pos.len() && pos[i] == c;
                    assert(i < old_pos.len());
                    assert(old_pos[i] == c);
                }
            }
        }
    }
    proof {
        assert forall|x: int, y: int| 0 <= x < y < r@.len() implies r@[x] != r@[y] by {
            assert(pos[x] != pos[y]);
        }
        assert forall|x: usize| #[trigger] r@.contains(x) <==> held@.contains(x) by {
            if held@.contains(x) {
                let a = choose|a: int| 0 <= a < held@.len() && held@[a] == x;
                assert(done@[a]);
                let i = choose|i: int| 0 <= i < pos.len() && pos[i] == a;
                assert(r@[i] == x);
            }
            if r@.contains(x) {
                let i = choose|i: int| 0 <= i < r@.len() && r@[i] == x;
                assert(held@[pos[i]] == x);
            }
        }
    }
    proof {
        assert forall|p: int| 0 <= p < r@.len() implies #[trigger] arranged_at(ports@, src@, tgt@, r@, r@, p) by {
            let pre = r@.subrange(0, p);
            assert(arranged_at(ports@, src@, tgt@, held@, r@, p));
            assert forall|x: usize| #[trigger] unlisted_delay(r@, pre, x) == unlisted_delay(held@, pre, x) by {
                assert(r@.contains(x) == held@.contains(x));
            }
            if delays_stuck(ports@, src@, tgt@, held@, pre) {
                assert forall|x: usize|
                    #[trigger] r@.contains(x) && !pre.contains(x) implies exists|k: int|
                        #[trigger] feeds_delay_via(ports@, src@, tgt@, x, k) && !pre.contains(tgt@[k]) by {
                    assert(held@.contains(x));
                }
                assert(delays_stuck(ports@, src@, tgt@, r@, pre));
            }
        }
    }
    r
}

/// No valid order exists when every slot of a nonempty set of unplaced slots
/// depends on another unplaced slot.
proof fn lemma_stuck_not_orderable(
    ids: Seq<NodeId>,
    ports: Seq<NodePorts>,
    conns: Seq<Connection>,
    src: Seq<usize>,
    tgt: Seq<usize>,
    placed: Seq<bool>,
    i0: int,
)
    requires
        ids.no_duplicates(),
        ids.len() == ports.len(),
        placed.len() == ports.len(),
        slots_in_range(ports.len() as int, src, tgt),
        conns.len() == src.len(),
        forall|k: int| 0 <= k < conns.len() ==> ids[src[k] as int] == (#[trigger] conns[k]).source_node
            && ids[tgt[k] as int] == conns[k].target_node,
        0 <= i0 < placed.len(),
        !placed[i0],
        forall|i: int| 0 <= i < placed.len() && !placed[i] ==> !#[trigger] ready(ports, src, tgt, placed, i),
    ensures
        !orderable(keyed(ids, ports), conns),
{
    let nodes = keyed(ids, ports);
    lemma_keyed(ids, ports);
    if orderable(nodes, conns) {
        let o = choose|o: Seq<NodeId>| valid_order(o, nodes, conns);
        lemma_none_stuck_before(ids, ports, conns, src, tgt, placed, o, o.len() as int);
        assert(nodes.contains_key(ids[i0]));
        assert(o.contains(ids[i0]));
        let q = choose|q: int| 0 <= q < o.len() && o[q] == ids[i0];
        assert(slot_of(ids, o[q]) == i0);
    }
}

/// In a valid order, the first `p` nodes are all placed, when every unplaced
/// slot depends on another unplaced slot.
proof fn lemma_none_stuck_before(
    ids: Seq<NodeId>,
    ports: Seq<NodePorts>,
    conns: Seq<Connection>,
    src: Seq<usize>,
    tgt: Seq<usize>,
    placed: Seq<bool>,
    o: Seq<NodeId>,
    p: int,
)
    requires
        ids.no_duplicates(),
        ids.len() == ports.len(),
        placed.len() == ports.len(),
        slots_in_range(ports.len() as int, src, tgt),
        conns.len() == src.len(),
        forall|k: int| 0 <= k < conns.len() ==> ids[src[k] as int] == (#[trigger] conns[k]).source_node
            && ids[tgt[k] as int] == conns[k].target_node,
        forall|i: int| 0 <= i < placed.len() && !placed[i] ==> !#[trigger] ready(ports, src, tgt, placed, i),
        valid_order(o, keyed(ids, ports), conns),
        0 <= p <= o.len(),
    ensures
        forall|q: int| 0 <= q < p ==> placed[slot_of(ids, #[trigger] o[q])],
    decreases p,
{
    let nodes = keyed(ids, ports);
    lemma_keyed(ids, ports);
    if p > 0 {
        lemma_none_stuck_before(ids, ports, conns, src, tgt, placed, o, p - 1);
        let v = o[p - 1];
        assert(o.contains(v));
        let i = slot_of(ids, v);
        assert(0 <= i < ids.len() && ids[i] == v);
        if !placed[i] {
            assert(!ready(ports, src, tgt, placed, i));
            let k = choose|k: int|
                0 <= k < src.len() && #[trigger] tgt[k] == i && !ports[src[k] as int].delayed
                    && !placed[src[k] as int];
            let s = src[k] as int;
            assert(ids[s] == conns[k].source_node);
            assert(nodes[ids[s]] == ports[s]);
            assert(nodes.contains_key(ids[s]));
            assert(o.contains(ids[s]));
            let q = choose|q: int| 0 <= q < o.len() && o[q] == ids[s];
            assert(o[p - 1] == conns[k].target_node);
            assert(is_dependency(nodes, conns[k]));
            assert(q < p - 1);
            assert(slot_of(ids, o[q]) == s);
        }
    }
}

/// Determines a processing order: repeatedly takes the first node (in storage
/// order) whose in-degree, counted over dependencies from nodes not yet taken,
/// is zero. Non-delaying nodes are listed in the order taken; delaying nodes
/// follow them all, arranged as `delays_arranged` says: each before the
/// delaying nodes that feed it where no cycle among delaying nodes prevents it,
/// ties going to the node added first. Fails when a cycle without delay
/// leaves nodes that can never be taken.
pub(crate) fn delay_aware_order(ids: &Vec<NodeId>, ports: &Vec<NodePorts>, conns: &Vec<Connection>) -> (r: Result<
    Vec<NodeId>,
    GraphError,
>)
    requires
        ids@.no_duplicates(),
        ids@.len() == ports@.len(),
        forall|k: int| 0 <= k < conns@.len() ==> ids@.contains((#[trigger] conns@[k]).source_node)
            && ids@.contains(conns@[k].target_node),
    ensures
        match r {
            Ok(order) => valid_order(order@, keyed(ids@, ports@), conns@) && delays_last(order@, keyed(ids@, ports@))
                && delays_arranged(order@, ids@, keyed(ids@, ports@), conns@)
                && first_ready_each(order@, ids@, keyed(ids@, ports@), conns@),
            Err(e) => e == GraphError::CycleWithoutDelay && !orderable(keyed(ids@, ports@), conns@),
        },
{
    let ghost nodes = keyed(ids@, ports@);
    proof {
        lemma_keyed(ids@, ports@);
    }
    let n: usize = ids.len();
    // Endpoints of each connection, as slots.
    let mut src: Vec<usize> = Vec::new();
    let mut tgt: Vec<usize> = Vec::new();
    let mut e: usize = 0;
    while e < conns.len()
        invariant
            ids@.no_duplicates(),
            ids@.len() == ports@.len(),
            n == ids@.len(),
            forall|x: int| 0 <= x < conns@.len() ==> ids@.contains((#[trigger] conns@[x]).source_node)
                && ids@.contains(conns@[x].target_node),
            e <= conns@.len(),
            src@.len() == e,
            tgt@.len() == e,
            slots_in_range(n as int, src@, tgt@),
            forall|j: int| 0 <= j < e ==> ids@[src@[j] as int] == (#[trigger] conns@[j]).source_node
                && ids@[tgt@[j] as int] == conns@[j].target_node,
        decreases conns@.len() - e,
    {
        let c = conns[e];
        assert(ids@.contains(c.source_node) && ids@.contains(c.target_node));
        let s = find_slot(ids, c.source_node).unwrap();
        let t = find_slot(ids, c.target_node).unwrap();
        let ghost os = src@;
        let ghost ot = tgt@;
        src.push(s);
        tgt.push(t);
        proof {
            assert forall|j: int| 0 <= j < src@.len() implies #[trigger] src@[j] < n && tgt@[j] < n by {
                if j < os.len() {
                    assert(src@[j] == os[j] && tgt@[j] == ot[j]);
                }
            }
        }
        e += 1;
    }
    let mut placed: Vec<bool> = Vec::new();
    while placed.len() < n
        invariant
            placed@.len() <= n,
            forall|i: int| 0 <= i < placed@.len() ==> !placed@[i],
        decreases n - placed@.len(),
    {
        placed.push(false);
    }
    let mut taken: Vec<usize> = Vec::new();
    let mut held: Vec<usize> = Vec::new();
    loop
        invariant
            ids@.no_duplicates(),
            ids@.len() == ports@.len(),
            n == ids@.len(),
            nodes == keyed(ids@, ports@),
            src@.len() == conns@.len(),
            slots_in_range(n as int, src@, tgt@),
            forall|j: int| 0 <= j < conns@.len() ==> ids@[src@[j] as int] == (#[trigger] conns@[j]).source_node
                && ids@[tgt@[j] as int] == conns@[j].target_node,
            placed@.len() == n,
            taken@.no_duplicates(),
            held@.no_duplicates(),
            forall|p: int| 0 <= p < taken@.len() ==> #[trigger] taken@[p] < n && placed@[taken@[p] as int]
                && !ports@[taken@[p] as int].delayed,
            forall|p: int| 0 <= p < held@.len() ==> #[trigger] held@[p] < n && placed@[held@[p] as int]
                && ports@[held@[p] as int].delayed,
            forall|i: int| 0 <= i < n && #[trigger] placed@[i] ==> taken@.contains(i as usize) || held@.contains(i as usize),
            forall|j: int| 0 <= j < src@.len() && placed@[#[trigger] tgt@[j] as int] && !ports@[src@[j] as int].delayed
                ==> placed@[src@[j] as int],
            forall|j: int, p: int, q: int|
                0 <= j < src@.len() && 0 <= p < taken@.len() && 0 <= q < taken@.len()
                    && !ports@[src@[j] as int].delayed && #[trigger] taken@[p] == #[trigger] src@[j]
                    && #[trigger] taken@[q] == tgt@[j] ==> p < q,
            taken_first_ready(ports@, src@, tgt@, taken@),
        ensures
            forall|j: int| 0 <= j < placed@.len() ==> placed@[j],
        decreases count_unplaced(placed@),
    {
        match first_ready(ports, &src, &tgt, &placed) {
            Some(v) => {
                proof {
                    lemma_count_unplaced_update(placed@, v as int);
                }
                let ghost old_placed = placed@;
                let ghost old_taken = taken@;
                let ghost old_held = held@;
                placed.set(v, true);
                if ports[v].delayed {
                    held.push(v);
                } else {
                    taken.push(v);
                    assert(taken@.subrange(0, old_taken.len() as int) =~= old_taken);
                    assert forall|p: int, i: int|
                        0 <= p < taken@.len() && 0 <= i < #[trigger] taken@[p] && !ports@[i].delayed
                            && !taken@.subrange(0, p).contains(i as usize) implies !#[trigger] ready_after(
                        ports@,
                        src@,
                        tgt@,
                        taken@.subrange(0, p),
                        i,
                    ) by {
                        if p < old_taken.len() {
                            assert(taken@.subrange(0, p) =~= old_taken.subrange(0, p));
                            assert(taken@[p] == old_taken[p]);
                        } else {
                            assert(taken@.subrange(0, p) =~= old_taken);
                            if old_placed[i] {
                                if old_held.contains(i as usize) {
                                    let h = choose|h: int| 0 <= h < old_held.len() && old_held[h] == i as usize;
                                } else {
                                    assert(old_taken.contains(i as usize));
                                }
                            }
                            assert(!ready(ports@, src@, tgt@, old_placed, i));
                            let k = choose|k: int|
                                0 <= k < src@.len() && #[trigger] tgt@[k] == i && !ports@[src@[k] as int].delayed
                                    && !old_placed[src@[k] as int];
                            if old_taken.contains(src@[k]) {
                                let q = choose|q: int| 0 <= q < old_taken.len() && old_taken[q] == src@[k];
                            }
                        }
                    }
                    assert forall|j: int, p: int, q: int|
                        0 <= j < src@.len() && 0 <= p < taken@.len() && 0 <= q < taken@.len()
                            && !ports@[src@[j] as int].delayed && #[trigger] taken@[p] == #[trigger] src@[j]
                            && #[trigger] taken@[q] == tgt@[j] implies p < q by {
                        if q == old_taken.len() {
                            assert(old_placed[src@[j] as int]);
                            if p == old_taken.len() {
                                assert(src@[j] == v);
                            }
                        } else if p == old_taken.len() {
                            assert(old_placed[tgt@[j] as int]);
                        }
                    }
                }
                assert forall|i2: int| 0 <= i2 < n && #[trigger] placed@[i2] implies taken@.contains(i2 as usize)
                    || held@.contains(i2 as usize) by {
                    if i2 == v {
                        if ports@[v as int].delayed {
                            assert(held@[held@.len() - 1] == v);
                        } else {
                            assert(taken@[taken@.len() - 1] == v);
                        }
                    } else {
                        assert(old_placed[i2]);
                        if old_taken.contains(i2 as usize) {
                            let p = choose|p: int| 0 <= p < old_taken.len() && old_taken[p] == i2 as usize;
                            assert(taken@[p] == i2 as usize);
                        } else {
                            let p = choose|p: int| 0 <= p < old_held.len() && old_held[p] == i2 as usize;
                            assert(held@[p] == i2 as usize);
                        }
                    }
                }
                assert(taken@.no_duplicates());
                assert(held@.no_duplicates());
            },
            None => {
                if let Some(i) = first_unplaced(&placed) {
                    proof {
                        lemma_stuck_not_orderable(ids@, ports@, conns@, src@, tgt@, placed@, i as int);
                    }
                    return Err(GraphError::CycleWithoutDelay);
                }
                break;
            },
        }
    }
    let held = arrange_delays(ports, &src, &tgt, &held);
    proof {
        assert forall|p: int| 0 <= p < held@.len() implies #[trigger] held@[p] < n && ports@[held@[p] as int].delayed by {
            assert(held@.contains(held@[p]));
        }
    }
    // Every slot is placed: list the taken nodes, then the held ones.
    let mut order: Vec<NodeId> = Vec::new();
    let mut w: usize = 0;
    while w < taken.len()
        invariant
            w <= taken@.len(),
            order@.len() == w,
            n == ids@.len(),
            forall|p: int| 0 <= p < taken@.len() ==> #[trigger] taken@[p] < n,
            forall|q: int| 0 <= q < w ==> order@[q] == ids@[#[trigger] taken@[q] as int],
        decreases taken@.len() - w,
    {
        order.push(ids[taken[w]]);
        w += 1;
    }
    let mut w: usize = 0;
    while w < held.len()
        invariant
            w <= held@.len(),
            order@.len() == taken@.len() + w,
            n == ids@.len(),
            forall|p: int| 0 <= p < held@.len() ==> #[trigger] held@[p] < n,
            forall|q: int| 0 <= q < taken@.len() ==> order@[q] == ids@[#[trigger] taken@[q] as int],
            forall|q: int| 0 <= q < w ==> order@[taken@.len() + q] == ids@[#[trigger] held@[q] as int],
        decreases held@.len() - w,
    {
        order.push(ids[held[w]]);
        w += 1;
    }
    proof {
        lemma_listing_valid(ids@, ports@, conns@, src@, tgt@, placed@, taken@, held@, order@);
        lemma_listing_arranged(ids@, ports@, conns@, src@, tgt@, taken@, held@, order@);
        lemma_listing_first_ready(ids@, ports@, conns@, src@, tgt@, taken@, held@, order@);
    }
    Ok(order)
}

/// The tie-break among taken slots carries over to the order of identifiers.
proof fn lemma_listing_first_ready(
    ids: Seq<NodeId>,
    ports: Seq<NodePorts>,
    conns: Seq<Connection>,
    src: Seq<usize>,
    tgt: Seq<usize>,
    taken: Seq<usize>,
    held: Seq<usize>,
    order: Seq<NodeId>,
)
    requires
        ids.no_duplicates(),
        ids.len() == ports.len(),
        ids.len() <= usize::MAX,
        src.len() == conns.len(),
        slots_in_range(ids.len() as int, src, tgt),
        forall|j: int| 0 <= j < conns.len() ==> ids[src[j] as int] == (#[trigger] conns[j]).source_node
            && ids[tgt[j] as int] == conns[j].target_node,
        forall|p: int| 0 <= p < taken.len() ==> #[trigger] taken[p] < ids.len() && !ports[taken[p] as int].delayed,
        forall|p: int| 0 <= p < held.len() ==> #[trigger] held[p] < ids.len() && ports[held[p] as int].delayed,
        taken_first_ready(ports, src, tgt, taken),
        order.len() == taken.len() + held.len(),
        forall|q: int| 0 <= q < taken.len() ==> order[q] == ids[#[trigger] taken[q] as int],
        forall|q: int| 0 <= q < held.len() ==> order[taken.len() + q] == ids[#[trigger] held[q] as int],
    ensures
        first_ready_each(order, ids, keyed(ids, ports), conns),
{
    let nodes = keyed(ids, ports);
    lemma_keyed(ids, ports);
    let t = taken.len() as int;
    assert forall|p: int, i: int|
        0 <= p < order.len() && !nodes[order[p]].delayed && 0 <= i < slot_of(ids, #[trigger] order[p])
            && !nodes[ids[i]].delayed && !order.subrange(0, p).contains(ids[i]) implies !#[trigger] ready_at(
            order,
            nodes,
            conns,
            p,
            ids[i],
        ) by {
        if p >= t {
            assert(order[t + (p - t)] == ids[held[p - t] as int]);
            assert(nodes[ids[held[p - t] as int]] == ports[held[p - t] as int]);
        }
        assert(p < t);
        assert(slot_of(ids, order[p]) == taken[p] as int);
        assert(nodes[ids[i]] == ports[i]);
        let pre = taken.subrange(0, p);
        assert(!pre.contains(i as usize)) by {
            if pre.contains(i as usize) {
                let q = choose|q: int| 0 <= q < p && pre[q] == i as usize;
                assert(order[q] == ids[taken[q] as int]);
                assert(order.subrange(0, p)[q] == ids[i]);
            }
        }
        assert(!ready_after(ports, src, tgt, pre, i));
        let k = choose|k: int|
            0 <= k < src.len() && #[trigger] tgt[k] == i && !ports[src[k] as int].delayed && !pre.contains(src[k]);
        assert(conns[k].target_node == ids[i]);
        assert(nodes[ids[src[k] as int]] == ports[src[k] as int]);
        assert(is_dependency(nodes, conns[k]));
        assert(!order.subrange(0, p).contains(conns[k].source_node)) by {
            if order.subrange(0, p).contains(conns[k].source_node) {
                let q = choose|q: int| 0 <= q < p && order.subrange(0, p)[q] == conns[k].source_node;
                assert(order[q] == ids[taken[q] as int]);
                assert(taken[q] == src[k]);
                assert(pre[q] == src[k]);
            }
        }
    }
}

/// The arrangement of the held slots carries over to the order of identifiers.
proof fn lemma_listing_arranged(
    ids: Seq<NodeId>,
    ports: Seq<NodePorts>,
    conns: Seq<Connection>,
    src: Seq<usize>,
    tgt: Seq<usize>,
    taken: Seq<usize>,
    held: Seq<usize>,
    order: Seq<NodeId>,
)
    requires
        ids.no_duplicates(),
        ids.len() == ports.len(),
        ids.len() <= usize::MAX,
        src.len() == conns.len(),
        slots_in_range(ids.len() as int, src, tgt),
        forall|j: int| 0 <= j < conns.len() ==> ids[src[j] as int] == (#[trigger] conns[j]).source_node
            && ids[tgt[j] as int] == conns[j].target_node,
        taken.no_duplicates(),
        held.no_duplicates(),
        forall|p: int| 0 <= p < taken.len() ==> #[trigger] taken[p] < ids.len() && !ports[taken[p] as int].delayed,
        forall|p: int| 0 <= p < held.len() ==> #[trigger] held[p] < ids.len() && ports[held[p] as int].delayed,
        forall|p: int| 0 <= p < held.len() ==> #[trigger] arranged_at(ports, src, tgt, held, held, p),
        order.len() == taken.len() + held.len(),
        forall|q: int| 0 <= q < taken.len() ==> order[q] == ids[#[trigger] taken[q] as int],
        forall|q: int| 0 <= q < held.len() ==> order[taken.len() + q] == ids[#[trigger] held[q] as int],
    ensures
        delays_arranged(order, ids, keyed(ids, ports), conns),
{
    let nodes = keyed(ids, ports);
    lemma_keyed(ids, ports);
    let t = taken.len() as int;
    // The slot behind each position of the order.
    assert forall|i: int| 0 <= i < order.len() implies (i < t ==> !nodes[#[trigger] order[i]].delayed) && (i >= t
        ==> nodes[order[i]] == ports[held[i - t] as int]) by {
        if i < t {
            assert(nodes[ids[taken[i] as int]] == ports[taken[i] as int]);
        } else {
            assert(order[t + (i - t)] == ids[held[i - t] as int]);
            assert(nodes[ids[held[i - t] as int]] == ports[held[i - t] as int]);
        }
    }
    // Which delaying slots precede a position of the tail.
    assert forall|q: int, x: usize| 0 <= q <= held.len() && x < ids.len() && #[trigger] ports[x as int].delayed implies
        (#[trigger] order.subrange(0, t + q).contains(ids[x as int]) <==> held.subrange(0, q).contains(x)) by {
        let pre = order.subrange(0, t + q);
        if pre.contains(ids[x as int]) {
            let i = choose|i: int| 0 <= i < pre.len() && pre[i] == ids[x as int];
            if i < t {
                assert(ids[taken[i] as int] == ids[x as int]);
                assert(taken[i] == x);
            } else {
                assert(order[t + (i - t)] == ids[held[i - t] as int]);
                assert(held[i - t] == x);
                assert(held.subrange(0, q)[i - t] == x);
            }
        }
        if held.subrange(0, q).contains(x) {
            let j = choose|j: int| 0 <= j < q && held.subrange(0, q)[j] == x;
            assert(order[t + j] == ids[x as int]);
            assert(pre[t + j] == ids[x as int]);
        }
    }
    // A connection from the slot's identifier is a connection from the slot.
    assert forall|k: int, h: usize| h < ids.len() && #[trigger] feeds_delay(nodes, conns, ids[h as int], k) implies
        #[trigger] feeds_delay_via(ports, src, tgt, h, k) by {
        assert(ids[src[k] as int] == conns[k].source_node);
        assert(src[k] == h);
        assert(nodes[ids[tgt[k] as int]] == ports[tgt[k] as int]);
    }
    assert forall|k: int, h: usize| h < ids.len() && #[trigger] feeds_delay_via(ports, src, tgt, h, k) implies
        #[trigger] feeds_delay(nodes, conns, ids[h as int], k) by {
        assert(ids[src[k] as int] == conns[k].source_node);
        assert(nodes[ids[tgt[k] as int]] == ports[tgt[k] as int]);
    }
    assert forall|p: int|
        0 <= p < order.len() && nodes[#[trigger] order[p]].delayed implies first_fully_fed(order, ids, nodes, conns, p)
            || first_left(order, ids, nodes, conns, p) by {
        assert(p >= t);
        let j = p - t;
        let h = held[j];
        let pre = held.subrange(0, j);
        assert(t + j == p);
        assert(order[t + j] == ids[h as int]);
        assert(pre.len() == j);
        assert(arranged_at(ports, src, tgt, held, held, j));
        assert(slot_of(ids, order[p]) == h as int);
        // The node at a later place, and its slot.
        assert forall|q: int| p < q < order.len() implies slot_of(ids, #[trigger] order[q]) == held[q - t] as int
            && unlisted_delay(held, pre, held[q - t]) && held[q - t] != h by {
            assert(order[t + (q - t)] == ids[held[q - t] as int]);
            assert(held.contains(held[q - t]));
            if pre.contains(held[q - t]) {
                let i = choose|i: int| 0 <= i < j && pre[i] == held[q - t];
                assert(held[i] == held[q - t]);
            }
        }
        if feeds_only_listed(ports, src, tgt, pre, h) && forall|x: usize|
            x < h && #[trigger] unlisted_delay(held, pre, x) ==> !feeds_only_listed(ports, src, tgt, pre, x) {
            assert forall|k: int| #[trigger] feeds_delay(nodes, conns, order[p], k) implies order.subrange(0, p).contains(
                conns[k].target_node,
            ) by {
                assert(feeds_delay_via(ports, src, tgt, h, k));
                assert(pre.contains(tgt[k]));
                assert(ports[tgt[k] as int].delayed);
                assert(order.subrange(0, t + j).contains(ids[tgt[k] as int]));
            }
            assert forall|q: int|
                p < q < order.len() && slot_of(ids, #[trigger] order[q]) < slot_of(ids, order[p]) implies !feeds_only_before(
                order,
                nodes,
                conns,
                p,
                order[q],
            ) by {
                let x = held[q - t];
                assert(!feeds_only_listed(ports, src, tgt, pre, x));
                let k = choose|k: int| #[trigger] feeds_delay_via(ports, src, tgt, x, k) && !pre.contains(tgt[k]);
                assert(feeds_delay(nodes, conns, ids[x as int], k));
                assert(ports[tgt[k] as int].delayed);
                assert(!order.subrange(0, t + j).contains(ids[tgt[k] as int]));
                assert(order[t + (q - t)] == ids[x as int]);
            }
            assert(first_fully_fed(order, ids, nodes, conns, p));
        } else {
            assert(delays_stuck(ports, src, tgt, held, pre));
            assert forall|q: int| p <= q < order.len() implies #[trigger] feeds_unplaced(order, nodes, conns, p, q) by {
                let x = held[q - t];
                assert(order[t + (q - t)] == ids[x as int]);
                assert(held.contains(x));
                assert(!pre.contains(x)) by {
                    if pre.contains(x) {
                        let i = choose|i: int| 0 <= i < j && pre[i] == x;
                        assert(held[i] == held[q - t]);
                    }
                }
                let k = choose|k: int| #[trigger] feeds_delay_via(ports, src, tgt, x, k) && !pre.contains(tgt[k]);
                assert(feeds_delay(nodes, conns, ids[x as int], k));
                assert(ports[tgt[k] as int].delayed);
                assert(!order.subrange(0, t + j).contains(ids[tgt[k] as int]));
                assert(feeds_delay(nodes, conns, order[q], k) && !order.subrange(0, p).contains(conns[k].target_node));
            }
            assert forall|q: int| p < q < order.len() implies slot_of(ids, order[p]) < slot_of(ids, #[trigger] order[q]) by {
                let x = held[q - t];
                assert(!(x < h));
            }
            assert(first_left(order, ids, nodes, conns, p));
        }
    }
}

/// The taken nodes followed by the held ones form a valid order.
proof fn lemma_listing_valid(
    ids: Seq<NodeId>,
    ports: Seq<NodePorts>,
    conns: Seq<Connection>,
    src: Seq<usize>,
    tgt: Seq<usize>,
    placed: Seq<bool>,
    taken: Seq<usize>,
    held: Seq<usize>,
    order: Seq<NodeId>,
)
    requires
        ids.no_duplicates(),
        ids.len() == ports.len(),
        src.len() == conns.len(),
        slots_in_range(ids.len() as int, src, tgt),
        forall|j: int| 0 <= j < conns.len() ==> ids[src[j] as int] == (#[trigger] conns[j]).source_node
            && ids[tgt[j] as int] == conns[j].target_node,
        placed.len() == ids.len(),
        forall|j: int| 0 <= j < placed.len() ==> placed[j],
        taken.no_duplicates(),
        held.no_duplicates(),
        forall|p: int| 0 <= p < taken.len() ==> #[trigger] taken[p] < ids.len() && !ports[taken[p] as int].delayed,
        forall|p: int| 0 <= p < held.len() ==> #[trigger] held[p] < ids.len() && ports[held[p] as int].delayed,
        forall|i: int| 0 <= i < ids.len() && #[trigger] placed[i] ==> taken.contains(i as usize) || held.contains(i as usize),
        forall|j: int, p: int, q: int|
            0 <= j < src.len() && 0 <= p < taken.len() && 0 <= q < taken.len()
                && !ports[src[j] as int].delayed && #[trigger] taken[p] == #[trigger] src[j]
                && #[trigger] taken[q] == tgt[j] ==> p < q,
        order.len() == taken.len() + held.len(),
        forall|q: int| 0 <= q < taken.len() ==> order[q] == ids[#[trigger] taken[q] as int],
        forall|q: int| 0 <= q < held.len() ==> order[taken.len() + q] == ids[#[trigger] held[q] as int],
        ids.len() <= usize::MAX,
    ensures
        valid_order(order, keyed(ids, ports), conns),
        delays_last(order, keyed(ids, ports)),
{
    let nodes = keyed(ids, ports);
    lemma_keyed(ids, ports);
    let slots = taken + held;
    assert forall|q: int| 0 <= q < order.len() implies #[trigger] slots[q] < ids.len() && order[q] == ids[slots[q] as int]
        && (ports[slots[q] as int].delayed <==> q >= taken.len()) by {
        if q >= taken.len() {
            assert(slots[q] == held[q - taken.len()]);
        }
    }
    assert forall|a: int, b: int| 0 <= a < b < order.len() && nodes[#[trigger] order[a]].delayed implies nodes[#[trigger] order[b]].delayed by {
        assert(slots[a] < ids.len() && slots[b] < ids.len());
        assert(nodes[ids[slots[a] as int]] == ports[slots[a] as int]);
        assert(nodes[ids[slots[b] as int]] == ports[slots[b] as int]);
    }
    assert forall|a: int, b: int| 0 <= a < b < order.len() implies order[a] != order[b] by {
        assert(slots[a] < ids.len() && slots[b] < ids.len());
        if slots[a] == slots[b] {
            if a < taken.len() && b < taken.len() {
            } else if a >= taken.len() && b >= taken.len() {
                assert(held[a - taken.len()] == held[b - taken.len()]);
            }
        }
    }
    assert forall|id: NodeId| #[trigger] order.contains(id) <==> nodes.contains_key(id) by {
        if nodes.contains_key(id) {
            let i = slot_of(ids, id);
            assert(0 <= i < ids.len() && ids[i] == id);
            assert(placed[i]);
            if taken.contains(i as usize) {
                let p = choose|p: int| 0 <= p < taken.len() && taken[p] == i as usize;
                assert(order[p] == id);
            } else {
                let p = choose|p: int| 0 <= p < held.len() && held[p] == i as usize;
                assert(order[taken.len() + p] == id);
            }
        }
        if order.contains(id) {
            let q = choose|q: int| 0 <= q < order.len() && order[q] == id;
            assert(ids.contains(ids[slots[q] as int]));
        }
    }
    assert forall|k: int, i: int, j: int|
        0 <= k < conns.len() && 0 <= i < order.len() && 0 <= j < order.len()
            && is_dependency(nodes, #[trigger] conns[k]) && #[trigger] order[i] == conns[k].source_node
            && #[trigger] order[j] == conns[k].target_node implies i < j by {
        let s = src[k] as int;
        let t = tgt[k] as int;
        assert(nodes[ids[s]] == ports[s]);
        assert(slots[i] < ids.len() && ids[slots[i] as int] == ids[s]);
        assert(slots[i] as int == s);
        assert(slots[j] < ids.len() && ids[slots[j] as int] == ids[t]);
        assert(slots[j] as int == t);
        assert(i < taken.len());
        if j < taken.len() {
            assert(taken[i] == src[k]);
            assert(taken[j] == tgt[k]);
        }
    }
}

} // verus!

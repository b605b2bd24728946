//! The orthogonal edge router of hierarchical ports, its graph work: before
//! the edges of the northern and southern external ports are routed, the
//! external port dummies that were set aside come back (their port turns to
//! face the graph, each dummy that stood in for one is connected to it by a
//! new edge, and they join the last layer); afterwards the dummies that
//! stood in for them hand their edges back and leave their layers. Where
//! the dummies and bend points go is left to the caller.
use vstd::prelude::*;

use crate::breaking_point_inserter::fresh_port;
use crate::graph::{LEdge, LGraph, LPort, NodeType, Origin, PortSide, copy_list, layer_views, moved_layers, set_layer};
use crate::hyperedge_dummy_merger::{remove_from_layer, removed_from_layer};
use crate::graph::{lemma_filter_facts, lemma_index_of_unique, lemma_remove_unique};
use crate::hierarchical_port_constraint_processor::layer_nodes_before;
use crate::label_and_node_size_processor::same_but_ports;

verus! {

/// Routes the edges of hierarchical ports orthogonally.
pub struct HierarchicalPortOrthogonalEdgeRouter;

/// The side the first port of a restored dummy of the given external port
/// side takes: a northern dummy's port faces south and a southern one's
/// north; any other keeps its side.
pub open spec fn restored_side(side: PortSide, ext: Option<PortSide>) -> PortSide {
    match ext {
        Some(PortSide::North) => PortSide::South,
        Some(PortSide::South) => PortSide::North,
        _ => side,
    }
}

/// `b` is `a` after dummy `d` was restored: the side of its first port, if
/// it has one, turns (see `restored_side`); nothing else changes.
pub open spec fn port_restored(a: &LGraph, b: &LGraph, d: usize) -> bool {
    &&& b.nodes == a.nodes
    &&& b.edges == a.edges
    &&& b.layers == a.layers
    &&& b.layerless_nodes == a.layerless_nodes
    &&& if a.nodes@[d as int].ports@.len() > 0 {
        let p = a.nodes@[d as int].ports@[0] as int;
        let q = a.ports@[p];
        b.ports@ == a.ports@.update(
            p,
            LPort {
                node: q.node,
                side: restored_side(q.side, a.nodes@[d as int].ext_port_side),
                connected_to_external_nodes: q.connected_to_external_nodes,
                port_dummy: q.port_dummy,
                origin: q.origin,
                port_index: q.port_index,
            },
        )
    } else {
        b.ports == a.ports
    }
}

/// The graphs after each dummy of the list in turn was restored.
pub open spec fn restore_chain(chain: Seq<LGraph>, dummies: Seq<usize>) -> bool {
    &&& chain.len() == dummies.len() + 1
    &&& forall|k: int| 0 <= k < dummies.len() ==> #[trigger] port_restored(&chain[k], &chain[k + 1], dummies[k])
}

/// The node stands in for an external port dummy: it is an external port
/// dummy that records the dummy it replaces.
pub open spec fn stands_in(g: &LGraph, n: usize) -> bool {
    &&& g.nodes@[n as int].node_type == NodeType::ExternalPort
    &&& g.nodes@[n as int].ext_port_replaced_dummy is Some
}

/// `b` is `a` after node `n` had its turn: a node that stands in for a
/// dummy gets a new port, on its external port side (undefined if it has
/// none), appended to its ports, and, when the dummy it stands in for has a
/// port, a new edge from that port to the dummy's first port; any other node
/// changes nothing. The dummy's ports are read once the new port was
/// added, which matters only for a node that stands in for itself.
pub open spec fn connected(a: &LGraph, b: &LGraph, n: usize) -> bool {
    if stands_in(a, n) {
        let d = a.nodes@[n as int].ext_port_replaced_dummy->0;
        let p0 = a.ports@.len() as int;
        let side = match a.nodes@[n as int].ext_port_side {
            Some(s) => s,
            None => PortSide::Undefined,
        };
        &&& b.ports@.len() == p0 + 1
        &&& forall|p: int| 0 <= p < p0 ==> #[trigger] b.ports@[p] == a.ports@[p]
        &&& fresh_port(b.ports@[p0], n as int, side)
        &&& b.nodes@.len() == a.nodes@.len()
        &&& forall|m: int| 0 <= m < a.nodes@.len() && m != n ==> #[trigger] b.nodes@[m] == a.nodes@[m]
        &&& same_but_ports(b.nodes@[n as int], a.nodes@[n as int])
        &&& b.nodes@[n as int].ports@ == a.nodes@[n as int].ports@.push(p0 as usize)
        &&& b.edges@ == if b.nodes@[d as int].ports@.len() > 0 {
            a.edges@.push(LEdge { source: p0 as usize, target: b.nodes@[d as int].ports@[0], reversed: false })
        } else {
            a.edges@
        }
        &&& b.layers == a.layers
        &&& b.layerless_nodes == a.layerless_nodes
    } else {
        *b == *a
    }
}

/// The graphs after each node of the list in turn had its turn.
pub open spec fn connect_chain(chain: Seq<LGraph>, nodes: Seq<usize>) -> bool {
    &&& chain.len() == nodes.len() + 1
    &&& forall|k: int| 0 <= k < nodes.len() ==> #[trigger] connected(&chain[k], &chain[k + 1], nodes[k])
}

/// `b` is `a` after dummy `d` joined the end of the last layer.
pub open spec fn chain_moved(a: &LGraph, b: &LGraph, d: usize) -> bool {
    &&& b.ports == a.ports
    &&& b.edges == a.edges
    &&& b.layerless_nodes == a.layerless_nodes
    &&& layer_views(b) == moved_layers(layer_views(a), a.nodes@[d as int].layer, d, a.layers@.len() - 1)
    &&& b.nodes@.len() == a.nodes@.len()
    &&& b.nodes@[d as int].layer == Some((a.layers@.len() - 1) as usize)
    &&& crate::graph::same_but_layer(b.nodes@[d as int], a.nodes@[d as int])
    &&& forall|m: int| 0 <= m < a.nodes@.len() && m != d ==> #[trigger] b.nodes@[m] == a.nodes@[m]
}

/// The graphs after the dummies of the list, in turn, joined the end of
/// the last layer.
pub open spec fn moves_chain(chain: Seq<LGraph>, dummies: Seq<usize>) -> bool {
    &&& chain.len() == dummies.len() + 1
    &&& forall|k: int| 0 <= k < dummies.len() ==> #[trigger] chain_moved(&chain[k], &chain[k + 1], dummies[k])
}

/// Every node that stands in for a dummy names a node of the graph.
pub open spec fn stand_ins_valid(g: &LGraph) -> bool {
    forall|n: int|
        0 <= n < g.nodes@.len() ==> (#[trigger] g.nodes@[n].ext_port_replaced_dummy matches Some(d) ==> d
            < g.nodes@.len())
}

/// Restores the first port of each dummy of the list (see `port_restored`).
fn restore_ports(g: &mut LGraph, dummies: &Vec<usize>) -> (chain: Ghost<Seq<LGraph>>)
    requires
        old(g).wf(),
        forall|k: int| 0 <= k < dummies@.len() ==> #[trigger] dummies@[k] < old(g).nodes@.len(),
    ensures
        final(g).wf(),
        final(g).nodes == old(g).nodes,
        final(g).edges == old(g).edges,
        final(g).layers == old(g).layers,
        final(g).layerless_nodes == old(g).layerless_nodes,
        final(g).ports@.len() == old(g).ports@.len(),
        forall|p: int| 0 <= p < old(g).ports@.len() ==> #[trigger] final(g).ports@[p].node == old(g).ports@[p].node,
        restore_chain(chain@, dummies@),
        chain@[0] == *old(g),
        chain@.last() == *final(g),
{
    let ghost g0 = *g;
    let ghost mut chain: Seq<LGraph> = seq![*g];
    let mut k: usize = 0;
    while k < dummies.len()
        invariant
            g.wf(),
            g0.wf(),
            k <= dummies@.len(),
            forall|k: int| 0 <= k < dummies@.len() ==> #[trigger] dummies@[k] < g0.nodes@.len(),
            g.nodes == g0.nodes,
            g.edges == g0.edges,
            g.layers == g0.layers,
            g.layerless_nodes == g0.layerless_nodes,
            g.ports@.len() == g0.ports@.len(),
            forall|p: int| 0 <= p < g0.ports@.len() ==> #[trigger] g.ports@[p].node == g0.ports@[p].node,
            chain.len() == k + 1,
            chain[0] == g0,
            chain[k as int] == *g,
            forall|j: int| 0 <= j < k ==> #[trigger] port_restored(&chain[j], &chain[j + 1], dummies@[j]),
        decreases dummies@.len() - k,
    {
        let d = dummies[k];
        let ghost gb = *g;
        if g.nodes[d].ports.len() > 0 {
            let p = g.nodes[d].ports[0];
            assert(g.nodes@[d as int].ports@[0] < g.ports@.len());
            let side = match g.nodes[d].ext_port_side {
                Some(PortSide::North) => PortSide::South,
                Some(PortSide::South) => PortSide::North,
                _ => g.ports[p].side,
            };
            g.ports[p].side = side;
            proof {
                assert(g.ports@ =~= gb.ports@.update(
                    p as int,
                    LPort {
                        node: gb.ports@[p as int].node,
                        side: restored_side(gb.ports@[p as int].side, gb.nodes@[d as int].ext_port_side),
                        connected_to_external_nodes: gb.ports@[p as int].connected_to_external_nodes,
                        port_dummy: gb.ports@[p as int].port_dummy,
                        origin: gb.ports@[p as int].origin,
                        port_index: gb.ports@[p as int].port_index,
                    },
                ));
                assert forall|q: int| 0 <= q < g0.ports@.len() implies #[trigger] g.ports@[q].node == g0.ports@[q].node by {
                    assert(g.ports@[q].node == gb.ports@[q].node);
                }
                assert forall|n: int, i: int| 0 <= n < g.nodes@.len() && 0 <= i < g.nodes@[n].ports@.len() implies {
                    &&& #[trigger] g.nodes@[n].ports@[i] < g.ports@.len()
                    &&& g.ports@[g.nodes@[n].ports@[i] as int].node == Some(n as usize)
                } by {
                    assert(gb.nodes@[n].ports@[i] < gb.ports@.len());
                    assert(g.ports@[g.nodes@[n].ports@[i] as int].node == gb.ports@[gb.nodes@[n].ports@[i] as int].node);
                }
                assert forall|q: int| 0 <= q < g.ports@.len() implies (#[trigger] g.ports@[q].node matches Some(n) ==> n
                    < g.nodes@.len()) by {
                    assert(g.ports@[q].node == gb.ports@[q].node);
                }
            }
        }
        proof {
            let old_chain = chain;
            chain = chain.push(*g);
            assert forall|j: int| 0 <= j < k + 1 implies #[trigger] port_restored(&chain[j], &chain[j + 1], dummies@[j]) by {
                if j < k {
                    assert(chain[j] == old_chain[j]);
                    assert(chain[j + 1] == old_chain[j + 1]);
                } else {
                    assert(chain[j] == gb);
                }
            }
        }
        k += 1;
    }
    Ghost(chain)
}


/// The last port of the list on the given side, or, for `other`, the last
/// one on neither the western nor the eastern side.
pub open spec fn last_port(g: &LGraph, ps: Seq<usize>, side: PortSide, other: bool) -> Option<usize>
    decreases ps.len(),
{
    if ps.len() == 0 {
        None
    } else {
        let p = ps.last();
        let s = g.ports@[p as int].side;
        if (other && s != PortSide::West && s != PortSide::East) || (!other && s == side) {
            Some(p)
        } else {
            last_port(g, ps.drop_last(), side, other)
        }
    }
}

/// What the removal of a temporary dummy works with, when it has all of
/// it: the node is an external port dummy that stands in for dummy `d`; its
/// last western port (the way in), its last eastern port (the way out),
/// its last port on another side, the first edge leaving that port, and
/// the first port of `d`.
pub open spec fn temp_ports(g: &LGraph, n: usize) -> Option<(usize, usize, usize, usize, usize)> {
    let node = g.nodes@[n as int];
    if stands_in(g, n) {
        let d = node.ext_port_replaced_dummy->0;
        let ip = last_port(g, node.ports@, PortSide::West, false);
        let op = last_port(g, node.ports@, PortSide::East, false);
        let orp = last_port(g, node.ports@, PortSide::Undefined, true);
        if ip is Some && op is Some && orp is Some && g.outgoing_of(orp->0 as int).len() > 0
            && g.nodes@[d as int].ports@.len() > 0 {
            Some((ip->0, op->0, orp->0, g.outgoing_of(orp->0 as int)[0], g.nodes@[d as int].ports@[0]))
        } else {
            None
        }
    } else {
        None
    }
}

/// A port that belongs to no node. An edge both of whose ends lie at such
/// a port is detached: it connects nothing.
pub open spec fn loose_port(p: LPort) -> bool {
    &&& p.node is None
    &&& p.side == PortSide::Undefined
    &&& p.connected_to_external_nodes
    &&& p.port_dummy is None
    &&& p.origin == Origin::Unset
    &&& p.port_index is None
}

/// Edge `e` after the removal with `t` (see `temp_ports`): the edge to the
/// other port is detached at the loose port `lp`; any other edge that
/// entered the way in now enters the replaced dummy's port, and any that
/// left the way out now leaves it.
pub open spec fn rerouted(x: LEdge, e: int, t: (usize, usize, usize, usize, usize), lp: usize) -> LEdge {
    if e == t.3 {
        LEdge { source: lp, target: lp, reversed: x.reversed }
    } else {
        LEdge {
            source: if x.source == t.1 { t.4 } else { x.source },
            target: if x.target == t.0 { t.4 } else { x.target },
            reversed: x.reversed,
        }
    }
}

/// `b` is `a` after the edges of node `n` were handed back to the dummy it
/// stands in for (see `rerouted`), with one loose port appended; a node
/// without all of `temp_ports` changes nothing.
pub open spec fn handed_back(a: &LGraph, b: &LGraph, n: usize) -> bool {
    match temp_ports(a, n) {
        Some(t) => {
            &&& b.ports@.len() == a.ports@.len() + 1
            &&& forall|p: int| 0 <= p < a.ports@.len() ==> #[trigger] b.ports@[p] == a.ports@[p]
            &&& loose_port(b.ports@[a.ports@.len() as int])
            &&& b.edges@.len() == a.edges@.len()
            &&& forall|e: int|
                0 <= e < a.edges@.len() ==> #[trigger] b.edges@[e] == rerouted(a.edges@[e], e, t, a.ports@.len() as usize)
            &&& b.nodes == a.nodes
            &&& b.layers == a.layers
            &&& b.layerless_nodes == a.layerless_nodes
        },
        None => *b == *a,
    }
}

/// The graphs after each node of the list in turn had its edges handed
/// back.
pub open spec fn hand_back_chain(chain: Seq<LGraph>, nodes: Seq<usize>) -> bool {
    &&& chain.len() == nodes.len() + 1
    &&& forall|k: int| 0 <= k < nodes.len() ==> #[trigger] handed_back(&chain[k], &chain[k + 1], nodes[k])
}

/// The nodes among the first `k` of the list that had their edges handed
/// back, in order.
pub open spec fn handed_back_nodes(chain: Seq<LGraph>, nodes: Seq<usize>, k: int) -> Seq<usize>
    decreases k,
{
    if k <= 0 {
        Seq::empty()
    } else if temp_ports(&chain[k - 1], nodes[k - 1]) is Some {
        handed_back_nodes(chain, nodes, k - 1).push(nodes[k - 1])
    } else {
        handed_back_nodes(chain, nodes, k - 1)
    }
}

/// `b` is `a` after node `n` left the layer it was in, if any.
pub open spec fn unlayered(a: &LGraph, b: &LGraph, n: usize) -> bool {
    match a.nodes@[n as int].layer {
        Some(l) => removed_from_layer(a, b, l as int, a.layers@[l as int]@.index_of(n), n as int),
        None => *b == *a,
    }
}

/// The graphs after each node of the list in turn left its layer.
pub open spec fn unlayer_chain(chain: Seq<LGraph>, nodes: Seq<usize>) -> bool {
    &&& chain.len() == nodes.len() + 1
    &&& forall|k: int| 0 <= k < nodes.len() ==> #[trigger] unlayered(&chain[k], &chain[k + 1], nodes[k])
}

/// The nodes of all layers, layer by layer.
pub fn all_layer_nodes(g: &LGraph) -> (res: Vec<usize>)
    requires
        g.wf(),
    ensures
        res@ == layer_nodes_before(g, g.layers@.len() as int),
        forall|k: int| 0 <= k < res@.len() ==> #[trigger] res@[k] < g.nodes@.len(),
{
    let mut res: Vec<usize> = Vec::new();
    let mut l: usize = 0;
    while l < g.layers.len()
        invariant
            g.wf(),
            l <= g.layers@.len(),
            res@ == layer_nodes_before(g, l as int),
            forall|k: int| 0 <= k < res@.len() ==> #[trigger] res@[k] < g.nodes@.len(),
        decreases g.layers@.len() - l,
    {
        let mut i: usize = 0;
        while i < g.layers[l].len()
            invariant
                g.wf(),
                l < g.layers@.len(),
                i <= g.layers@[l as int]@.len(),
                res@ == layer_nodes_before(g, l as int) + g.layers@[l as int]@.take(i as int),
                forall|k: int| 0 <= k < res@.len() ==> #[trigger] res@[k] < g.nodes@.len(),
            decreases g.layers@[l as int]@.len() - i,
        {
            assert(g.layers@[l as int]@.take(i as int + 1) == g.layers@[l as int]@.take(i as int).push(
                g.layers@[l as int]@[i as int],
            ));
            res.push(g.layers[l][i]);
            i += 1;
        }
        assert(g.layers@[l as int]@.take(i as int) == g.layers@[l as int]@);
        l += 1;
    }
    res
}

/// The last port of the node on the given side, or, for `other`, the last
/// one on neither the western nor the eastern side.
fn find_last_port(g: &LGraph, n: usize, side: PortSide, other: bool) -> (res: Option<usize>)
    requires
        g.wf(),
        n < g.nodes@.len(),
    ensures
        res == last_port(g, g.nodes@[n as int].ports@, side, other),
{
    let ghost ps = g.nodes@[n as int].ports@;
    let mut res: Option<usize> = None;
    let mut i: usize = 0;
    while i < g.nodes[n].ports.len()
        invariant
            g.wf(),
            n < g.nodes@.len(),
            ps == g.nodes@[n as int].ports@,
            i <= ps.len(),
            res == last_port(g, ps.take(i as int), side, other),
        decreases ps.len() - i,
    {
        let p = g.nodes[n].ports[i];
        assert(ps.take(i as int + 1).drop_last() == ps.take(i as int));
        assert(ps.take(i as int + 1).last() == p);
        assert(p < g.ports@.len());
        let s = g.ports[p].side;
        let west = match s {
            PortSide::West => true,
            _ => false,
        };
        let east = match s {
            PortSide::East => true,
            _ => false,
        };
        if (other && !west && !east) || (!other && s == side) {
            res = Some(p);
        }
        i += 1;
    }
    assert(ps.take(i as int) == ps);
    res
}

/// The ports and the edge that the removal of node `n` works with (see
/// `temp_ports`).
fn find_temp_ports(g: &LGraph, n: usize) -> (res: Option<(usize, usize, usize, usize, usize)>)
    requires
        g.wf(),
        stand_ins_valid(g),
        n < g.nodes@.len(),
    ensures
        res == temp_ports(g, n),
{
    let is_ext = match g.nodes[n].node_type {
        NodeType::ExternalPort => true,
        _ => false,
    };
    if !is_ext {
        return None;
    }
    let d = match g.nodes[n].ext_port_replaced_dummy {
        Some(d) => d,
        None => {
            return None;
        },
    };
    let ip = find_last_port(g, n, PortSide::West, false);
    let op = find_last_port(g, n, PortSide::East, false);
    let orp = find_last_port(g, n, PortSide::Undefined, true);
    match (ip, op, orp) {
        (Some(ip), Some(op), Some(orp)) => {
            let outs = g.outgoing_edges(orp);
            if outs.len() > 0 && g.nodes[d].ports.len() > 0 {
                Some((ip, op, orp, outs[0], g.nodes[d].ports[0]))
            } else {
                None
            }
        },
        _ => None,
    }
}

/// Hands the edges of node `n` back to the dummy it stands in for (see
/// `handed_back`).
fn hand_back(g: &mut LGraph, n: usize) -> (done: bool)
    requires
        old(g).wf(),
        stand_ins_valid(old(g)),
        n < old(g).nodes@.len(),
    ensures
        final(g).wf(),
        handed_back(old(g), final(g), n),
        final(g).nodes == old(g).nodes,
        final(g).layers == old(g).layers,
        final(g).layerless_nodes == old(g).layerless_nodes,
        done == temp_ports(old(g), n) is Some,
{
    let t = match find_temp_ports(g, n) {
        Some(t) => t,
        None => {
            return false;
        },
    };
    let ghost g0 = *g;
    let (ip, op, _orp, oe, rdp) = t;
    proof {
        let d = g0.nodes@[n as int].ext_port_replaced_dummy->0;
        assert(g0.nodes@[d as int].ports@[0] < g0.ports@.len());
        let orp = t.2;
        assert(g0.outgoing_of(orp as int)[0] == oe);
        let all = Seq::new(g0.edges@.len(), |e: int| e as usize);
        lemma_filter_facts(all, |e: usize| g0.edges@[e as int].source == orp);
        assert(g0.outgoing_of(orp as int).contains(oe));
        g0.edges@.len();
    }
    let lp = g.ports.len();
    g.ports.push(LPort::new());
    assert(g.ports@[lp as int] == g0.ports@.push(g.ports@[lp as int])[lp as int]);
    let mut e: usize = 0;
    while e < g.edges.len()
        invariant
            g0.wf(),
            temp_ports(&g0, n) == Some(t),
            t == (ip, op, _orp, oe, rdp),
            rdp < g0.ports@.len(),
            lp == g0.ports@.len(),
            g.ports@.len() == lp + 1,
            forall|q: int| 0 <= q < lp ==> #[trigger] g.ports@[q] == g0.ports@[q],
            loose_port(g.ports@[lp as int]),
            g.nodes == g0.nodes,
            g.layers == g0.layers,
            g.layerless_nodes == g0.layerless_nodes,
            g.edges@.len() == g0.edges@.len(),
            e <= g.edges@.len(),
            forall|x: int| 0 <= x < e ==> #[trigger] g.edges@[x] == rerouted(g0.edges@[x], x, t, lp),
            forall|x: int| e <= x < g.edges@.len() ==> #[trigger] g.edges@[x] == g0.edges@[x],
        decreases g0.edges@.len() - e,
    {
        if e == oe {
            g.edges[e].source = lp;
            g.edges[e].target = lp;
        } else {
            if g.edges[e].target == ip {
                g.edges[e].target = rdp;
            }
            if g.edges[e].source == op {
                g.edges[e].source = rdp;
            }
        }
        e += 1;
    }
    proof {
        assert forall|x: int| 0 <= x < g.edges@.len() implies #[trigger] g.edges@[x].source < g.ports@.len()
            && g.edges@[x].target < g.ports@.len() by {
            assert(g.edges@[x] == rerouted(g0.edges@[x], x, t, lp));
        }
        assert forall|q: int| 0 <= q < g.ports@.len() implies (#[trigger] g.ports@[q].node matches Some(m) ==> m
            < g.nodes@.len()) by {
            if q < lp {
                assert(g.ports@[q] == g0.ports@[q]);
            }
        }
        assert forall|m: int, i: int| 0 <= m < g.nodes@.len() && 0 <= i < g.nodes@[m].ports@.len() implies {
            &&& #[trigger] g.nodes@[m].ports@[i] < g.ports@.len()
            &&& g.ports@[g.nodes@[m].ports@[i] as int].node == Some(m as usize)
        } by {
            assert(g0.nodes@[m].ports@[i] < g0.ports@.len());
            assert(g.ports@[g0.nodes@[m].ports@[i] as int] == g0.ports@[g0.nodes@[m].ports@[i] as int]);
        }
    }
    true
}

/// Takes node `n` out of the layer it is in, if any (see `unlayered`).
pub fn unset_layer(g: &mut LGraph, n: usize)
    requires
        old(g).wf(),
        old(g).layers_listed(),
        n < old(g).nodes@.len(),
    ensures
        final(g).wf(),
        final(g).layers_listed(),
        unlayered(old(g), final(g), n),
{
    let ghost g0 = *g;
    let l = match g.nodes[n].layer {
        Some(l) => l,
        None => {
            return;
        },
    };
    assert(g0.layers@[l as int]@.contains(n));
    let mut i: usize = 0;
    while i < g.layers[l].len() && g.layers[l][i] != n
        invariant
            *g == g0,
            l < g.layers@.len(),
            g.layers@[l as int]@.contains(n),
            i <= g.layers@[l as int]@.len(),
            forall|j: int| 0 <= j < i ==> g.layers@[l as int]@[j] != n,
        decreases g.layers@[l as int]@.len() - i,
    {
        i += 1;
    }
    proof {
        if i == g.layers@[l as int]@.len() {
            let j = choose|j: int| 0 <= j < g0.layers@[l as int]@.len() && g0.layers@[l as int]@[j] == n;
            assert(false);
        }
        lemma_index_of_unique(g0.layers@[l as int]@, i as int);
    }
    assert(g0.layers@[l as int]@[i as int] == n);
    remove_from_layer(g, l, i, n);
    proof {
        lemma_remove_unique(g0.layers@[l as int]@, i as int);
        assert forall|m: int| 0 <= m < g.nodes@.len() implies (#[trigger] g.nodes@[m].layer matches Some(k) ==> (k
            < g.layers@.len() && g.layers@[k as int]@.contains(m as usize))) by {
            if m != n {
                if let Some(k) = g.nodes@[m].layer {
                    assert(g.nodes@[m] == g0.nodes@[m]);
                    assert(g0.layers@[k as int]@.contains(m as usize));
                    if k != l {
                        assert(g.layers@[k as int] == g0.layers@[k as int]);
                    } else {
                        assert(g.layers@[l as int]@ == g0.layers@[l as int]@.remove(i as int));
                        assert(g.nodes@.len() == g.nodes.len());
                        assert(m as usize != g0.layers@[l as int]@[i as int]);
                        assert(g0.layers@[l as int]@.remove(i as int).contains(m as usize));
                    }
                }
            }
        }
    }
}

/// `b` is `a` after the temporary dummies were taken out: `c1` hands back
/// the edges of each node of the layers in turn, layer by layer, and `c2`
/// takes the nodes that handed edges back out of their layers, in order.
pub open spec fn temporary_removal(a: &LGraph, b: &LGraph, c1: Seq<LGraph>, c2: Seq<LGraph>) -> bool {
    let nodes = layer_nodes_before(a, a.layers@.len() as int);
    &&& hand_back_chain(c1, nodes)
    &&& c1[0] == *a
    &&& unlayer_chain(c2, handed_back_nodes(c1, nodes, nodes.len() as int))
    &&& c2[0] == c1.last()
    &&& c2.last() == *b
}

/// Connects node `n`, if it stands in for a dummy, to that dummy (see
/// `connected`).
fn connect_node(g: &mut LGraph, n: usize)
    requires
        old(g).wf(),
        old(g).layers_listed(),
        stand_ins_valid(old(g)),
        n < old(g).nodes@.len(),
        (old(g).edges@.len() + 1) * 2 <= usize::MAX,
    ensures
        final(g).wf(),
        final(g).layers_listed(),
        stand_ins_valid(final(g)),
        connected(old(g), final(g), n),
        final(g).nodes@.len() == old(g).nodes@.len(),
        final(g).edges@.len() <= old(g).edges@.len() + 1,
{
    let is_ext = match g.nodes[n].node_type {
        NodeType::ExternalPort => true,
        _ => false,
    };
    if !is_ext {
        return;
    }
    let d = match g.nodes[n].ext_port_replaced_dummy {
        Some(d) => d,
        None => {
            return;
        },
    };
    let ghost g0 = *g;
    let p0 = g.ports.len();
    let mut port = LPort::new();
    port.node = Some(n);
    port.side = match g.nodes[n].ext_port_side {
        Some(s) => s,
        None => PortSide::Undefined,
    };
    g.ports.push(port);
    g.nodes[n].ports.push(p0);
    if g.nodes[d].ports.len() > 0 {
        let t = g.nodes[d].ports[0];
        g.edges.push(LEdge { source: p0, target: t, reversed: false });
    }
    proof {
        assert(g.nodes@[d as int].ports@.len() > 0 ==> g.nodes@[d as int].ports@[0] < g.ports@.len());
        assert forall|x: int| 0 <= x < g.edges@.len() implies #[trigger] g.edges@[x].source < g.ports@.len()
            && g.edges@[x].target < g.ports@.len() by {
            if x < g0.edges@.len() {
                assert(g.edges@[x] == g0.edges@[x]);
            }
        }
        assert forall|q: int| 0 <= q < g.ports@.len() implies (#[trigger] g.ports@[q].node matches Some(m) ==> m
            < g.nodes@.len()) by {
            if q < p0 {
                assert(g.ports@[q] == g0.ports@[q]);
            }
        }
        assert forall|m: int, i: int| 0 <= m < g.nodes@.len() && 0 <= i < g.nodes@[m].ports@.len() implies {
            &&& #[trigger] g.nodes@[m].ports@[i] < g.ports@.len()
            &&& g.ports@[g.nodes@[m].ports@[i] as int].node == Some(m as usize)
        } by {
            if m != n || i < g0.nodes@[n as int].ports@.len() {
                assert(g.nodes@[m].ports@[i] == g0.nodes@[m].ports@[i]);
                assert(g0.nodes@[m].ports@[i] < g0.ports@.len());
                assert(g.ports@[g0.nodes@[m].ports@[i] as int] == g0.ports@[g0.nodes@[m].ports@[i] as int]);
            }
        }
        assert forall|k: int, i: int| 0 <= k < g.layers@.len() && 0 <= i < g.layers@[k]@.len() implies {
            &&& #[trigger] g.layers@[k]@[i] < g.nodes@.len()
            &&& g.nodes@[g.layers@[k]@[i] as int].layer == Some(k as usize)
        } by {
            assert(g0.layers@[k]@[i] < g0.nodes@.len());
        }
        assert forall|m: int| 0 <= m < g.nodes@.len() implies (#[trigger] g.nodes@[m].layer matches Some(k) ==> (k
            < g.layers@.len() && g.layers@[k as int]@.contains(m as usize))) by {
            assert(g.nodes@[m].layer == g0.nodes@[m].layer);
        }
        assert forall|m: int| 0 <= m < g.nodes@.len() implies (#[trigger] g.nodes@[m].ext_port_replaced_dummy matches Some(x) ==> x
            < g.nodes@.len()) by {
            assert(g.nodes@[m].ext_port_replaced_dummy == g0.nodes@[m].ext_port_replaced_dummy);
        }
        assert(g.nodes@[n as int].ports@ == g0.nodes@[n as int].ports@.push(p0));
        assert(same_but_ports(g.nodes@[n as int], g0.nodes@[n as int]));
        assert(forall|m: int| 0 <= m < g0.nodes@.len() && m != n ==> #[trigger] g.nodes@[m] == g0.nodes@[m]);
        assert(forall|q: int| 0 <= q < p0 ==> #[trigger] g.ports@[q] == g0.ports@[q]);
        assert(stands_in(&g0, n));
    }
}

/// `b` is `a` after the dummies of the list came back: `c1` restores the
/// first port of each (see `port_restored`), `c2` connects each node of the
/// layers in turn, layer by layer (see `connected`), and, when there is a
/// layer, `c3` moves the dummies in turn to the end of the last layer.
pub open spec fn restoration(a: &LGraph, b: &LGraph, dummies: Seq<usize>, c1: Seq<LGraph>, c2: Seq<LGraph>, c3: Seq<
    LGraph,
>) -> bool {
    &&& restore_chain(c1, dummies)
    &&& c1[0] == *a
    &&& connect_chain(c2, layer_nodes_before(a, a.layers@.len() as int))
    &&& c2[0] == c1.last()
    &&& if a.layers@.len() > 0 {
        &&& moves_chain(c3, dummies)
        &&& c3[0] == c2.last()
        &&& c3.last() == *b
    } else {
        c2.last() == *b
    }
}

/// The nodes of the layers depend on the layers alone.
proof fn lemma_layer_nodes_same(a: &LGraph, b: &LGraph, i: int)
    requires
        a.layers == b.layers,
    ensures
        layer_nodes_before(a, i) == layer_nodes_before(b, i),
    decreases i,
{
    if i > 0 {
        lemma_layer_nodes_same(a, b, i - 1);
    }
}

/// Once a node that stands in for another dummy handed its edges back, no
/// edge enters its way in or leaves its way out any more: they all run to
/// and from the dummy's port.
pub proof fn lemma_hand_back_frees_ports(a: &LGraph, b: &LGraph, n: usize)
    requires
        a.wf(),
        n < a.nodes@.len(),
        handed_back(a, b, n),
        temp_ports(a, n) matches Some(t) && t.4 != t.0 && t.4 != t.1,
    ensures
        temp_ports(a, n) matches Some(t) && forall|e: int|
            0 <= e < b.edges@.len() ==> #[trigger] b.edges@[e].target != t.0 && b.edges@[e].source != t.1,
{
    let t = temp_ports(a, n)->Some_0;
    lemma_last_port_of_node(a, n, a.nodes@[n as int].ports@, PortSide::West, false);
    lemma_last_port_of_node(a, n, a.nodes@[n as int].ports@, PortSide::East, false);
    assert(a.ports@.len() == a.ports.len());
    assert(t.0 < a.ports@.len() && t.1 < a.ports@.len());
    assert forall|e: int| 0 <= e < b.edges@.len() implies #[trigger] b.edges@[e].target != t.0 && b.edges@[e].source
        != t.1 by {
        assert(b.edges@[e] == rerouted(a.edges@[e], e, t, a.ports@.len() as usize));
    }
}

/// The last port of a list of the node's ports on a side is a port of the
/// graph.
proof fn lemma_last_port_of_node(g: &LGraph, n: usize, ps: Seq<usize>, side: PortSide, other: bool)
    requires
        g.wf(),
        n < g.nodes@.len(),
        forall|i: int| 0 <= i < ps.len() ==> #[trigger] ps[i] < g.ports@.len(),
    ensures
        last_port(g, ps, side, other) matches Some(p) ==> p < g.ports@.len(),
    decreases ps.len(),
{
    if ps.len() > 0 {
        lemma_last_port_of_node(g, n, ps.drop_last(), side, other);
    }
}

/// The nodes handed back among the first `k` depend on the first `k`
/// graphs of the chain alone.
proof fn lemma_handed_back_prefix(c1: Seq<LGraph>, c2: Seq<LGraph>, nodes: Seq<usize>, k: int)
    requires
        0 <= k,
        k <= c1.len(),
        k <= c2.len(),
        forall|j: int| 0 <= j < k ==> c1[j] == c2[j],
    ensures
        handed_back_nodes(c1, nodes, k) == handed_back_nodes(c2, nodes, k),
    decreases k,
{
    if k > 0 {
        lemma_handed_back_prefix(c1, c2, nodes, k - 1);
    }
}

impl HierarchicalPortOrthogonalEdgeRouter {
    /// Takes out the external port dummies that stood in for the northern
    /// and southern ones while their edges were routed. Each node of the
    /// layers in turn, layer by layer, that has all of `temp_ports` hands
    /// its edges back to the dummy it stands in for (see `handed_back`);
    /// then those nodes leave their layers, in the same order.
    pub fn remove_temporary_north_south_dummies(&self, g: &mut LGraph)
        requires
            old(g).wf(),
            old(g).layers_listed(),
            stand_ins_valid(old(g)),
        ensures
            final(g).wf(),
            final(g).layers_listed(),
            exists|c1: Seq<LGraph>, c2: Seq<LGraph>| #[trigger] temporary_removal(old(g), final(g), c1, c2),
    {
        let ghost g0 = *g;
        let nodes = all_layer_nodes(g);
        let mut removed: Vec<usize> = Vec::new();
        let ghost mut c1: Seq<LGraph> = seq![*g];
        let mut k: usize = 0;
        while k < nodes.len()
            invariant
                g0.wf(),
                g0.layers_listed(),
                stand_ins_valid(&g0),
                nodes@ == layer_nodes_before(&g0, g0.layers@.len() as int),
                forall|j: int| 0 <= j < nodes@.len() ==> #[trigger] nodes@[j] < g0.nodes@.len(),
                k <= nodes@.len(),
                g.wf(),
                g.nodes == g0.nodes,
                g.layers == g0.layers,
                g.layerless_nodes == g0.layerless_nodes,
                c1.len() == k + 1,
                c1[0] == g0,
                c1[k as int] == *g,
                forall|j: int| 0 <= j < k ==> #[trigger] handed_back(&c1[j], &c1[j + 1], nodes@[j]),
                removed@ == handed_back_nodes(c1, nodes@, k as int),
                forall|j: int| 0 <= j < removed@.len() ==> #[trigger] removed@[j] < g0.nodes@.len(),
            decreases nodes@.len() - k,
        {
            let n = nodes[k];
            let ghost gb = *g;
            let done = hand_back(g, n);
            if done {
                removed.push(n);
            }
            proof {
                let old_c1 = c1;
                c1 = c1.push(*g);
                lemma_handed_back_prefix(old_c1, c1, nodes@, k as int);
                assert(c1[k as int] == gb);
                assert forall|j: int| 0 <= j < k + 1 implies #[trigger] handed_back(&c1[j], &c1[j + 1], nodes@[j]) by {
                    if j < k {
                        assert(c1[j] == old_c1[j]);
                        assert(c1[j + 1] == old_c1[j + 1]);
                    }
                }
            }
            k += 1;
        }
        let ghost g1 = *g;
        let ghost mut c2: Seq<LGraph> = seq![*g];
        let mut r: usize = 0;
        while r < removed.len()
            invariant
                r <= removed@.len(),
                forall|j: int| 0 <= j < removed@.len() ==> #[trigger] removed@[j] < g1.nodes@.len(),
                g.wf(),
                g.layers_listed(),
                g.nodes@.len() == g1.nodes@.len(),
                c2.len() == r + 1,
                c2[0] == g1,
                c2[r as int] == *g,
                forall|j: int| 0 <= j < r ==> #[trigger] unlayered(&c2[j], &c2[j + 1], removed@[j]),
            decreases removed@.len() - r,
        {
            let ghost gb = *g;
            unset_layer(g, removed[r]);
            proof {
                let old_c2 = c2;
                c2 = c2.push(*g);
                assert forall|j: int| 0 <= j < r + 1 implies #[trigger] unlayered(&c2[j], &c2[j + 1], removed@[j]) by {
                    if j < r {
                        assert(c2[j] == old_c2[j]);
                        assert(c2[j + 1] == old_c2[j + 1]);
                    }
                }
            }
            r += 1;
        }
        proof {
            let ns = layer_nodes_before(&g0, g0.layers@.len() as int);
            assert(hand_back_chain(c1, ns));
            assert(unlayer_chain(c2, handed_back_nodes(c1, ns, ns.len() as int)));
            assert(temporary_removal(&g0, g, c1, c2));
        }
    }

    /// Brings back the external port dummies that were set aside (none
    /// when no list was recorded; the graph is then unchanged) and returns
    /// them (see `restoration`).
    pub fn restore_north_south_dummies(&self, g: &mut LGraph, replaced: &Option<Vec<usize>>) -> (res: Vec<usize>)
        requires
            old(g).wf(),
            old(g).layers_listed(),
            stand_ins_valid(old(g)),
            replaced matches Some(ds) ==> forall|k: int| 0 <= k < ds@.len() ==> #[trigger] ds@[k] < old(g).nodes@.len(),
            (old(g).edges@.len() + layer_nodes_before(old(g), old(g).layers@.len() as int).len()) * 2 <= usize::MAX,
        ensures
            final(g).wf(),
            final(g).layers_listed(),
            match replaced {
                Some(ds) => {
                    &&& res@ == ds@
                    &&& exists|c1: Seq<LGraph>, c2: Seq<LGraph>, c3: Seq<LGraph>|
                        #[trigger] restoration(old(g), final(g), ds@, c1, c2, c3)
                },
                None => res@.len() == 0 && *final(g) == *old(g),
            },
    {
        let ds = match replaced {
            Some(ds) => ds,
            None => {
                return Vec::new();
            },
        };
        let ghost g0 = *g;
        let c1 = restore_ports(g, ds);
        let ghost ga = *g;
        proof {
            assert forall|m: int| 0 <= m < g.nodes@.len() implies (#[trigger] g.nodes@[m].layer matches Some(k) ==> (k
                < g.layers@.len() && g.layers@[k as int]@.contains(m as usize))) by {
                assert(g.nodes@[m] == g0.nodes@[m]);
            }
            lemma_layer_nodes_same(g, &g0, g.layers@.len() as int);
        }
        let nodes = all_layer_nodes(g);
        let ghost mut c2: Seq<LGraph> = seq![*g];
        let mut k: usize = 0;
        while k < nodes.len()
            invariant
                ga.wf(),
                nodes@ == layer_nodes_before(&ga, ga.layers@.len() as int),
                forall|j: int| 0 <= j < nodes@.len() ==> #[trigger] nodes@[j] < ga.nodes@.len(),
                (ga.edges@.len() + nodes@.len()) * 2 <= usize::MAX,
                k <= nodes@.len(),
                g.wf(),
                g.layers_listed(),
                stand_ins_valid(g),
                g.nodes@.len() == ga.nodes@.len(),
                g.layers == ga.layers,
                g.edges@.len() <= ga.edges@.len() + k,
                c2.len() == k + 1,
                c2[0] == ga,
                c2[k as int] == *g,
                forall|j: int| 0 <= j < k ==> #[trigger] connected(&c2[j], &c2[j + 1], nodes@[j]),
            decreases nodes@.len() - k,
        {
            let ghost gb = *g;
            connect_node(g, nodes[k]);
            proof {
                let old_c2 = c2;
                c2 = c2.push(*g);
                assert forall|j: int| 0 <= j < k + 1 implies #[trigger] connected(&c2[j], &c2[j + 1], nodes@[j]) by {
                    if j < k {
                        assert(c2[j] == old_c2[j]);
                        assert(c2[j + 1] == old_c2[j + 1]);
                    }
                }
                assert(g.layers == gb.layers);
            }
            k += 1;
        }
        let ghost gc = *g;
        let ghost mut c3: Seq<LGraph> = seq![*g];
        let nl = g.layers.len();
        if nl > 0 {
            let mut r: usize = 0;
            while r < ds.len()
                invariant
                    nl == g.layers@.len(),
                    nl > 0,
                    forall|j: int| 0 <= j < ds@.len() ==> #[trigger] ds@[j] < gc.nodes@.len(),
                    r <= ds@.len(),
                    g.wf(),
                    g.layers_listed(),
                    g.nodes@.len() == gc.nodes@.len(),
                    c3.len() == r + 1,
                    c3[0] == gc,
                    c3[r as int] == *g,
                    forall|j: int| 0 <= j < r ==> #[trigger] chain_moved(&c3[j], &c3[j + 1], ds@[j]),
                decreases ds@.len() - r,
            {
                let ghost gb = *g;
                set_layer(g, ds[r], nl - 1);
                proof {
                    let old_c3 = c3;
                    c3 = c3.push(*g);
                    assert(chain_moved(&gb, g, ds@[r as int]));
                    assert forall|j: int| 0 <= j < r + 1 implies #[trigger] chain_moved(&c3[j], &c3[j + 1], ds@[j]) by {
                        if j < r {
                            assert(c3[j] == old_c3[j]);
                            assert(c3[j + 1] == old_c3[j + 1]);
                        }
                    }
                }
                r += 1;
            }
        }
        proof {
            assert(restoration(&g0, g, ds@, c1@, c2, c3));
        }
        copy_list(ds)
    }
}

} // verus!

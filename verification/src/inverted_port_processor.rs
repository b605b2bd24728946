//! Inverted ports: an edge that enters a node through an eastern port, or
//! leaves it through a western one, is led through a long-edge dummy in the
//! node's layer, so that it runs in the direction of the layout.
use vstd::prelude::*;

use crate::breaking_point_inserter::{fresh_port, lemma_port_edges_valid, node_edges_of};
use crate::breaking_point_processor::port_edges;
use crate::graph::{lemma_filter_facts, 
    LEdge, LGraph, LNode, LPort, NodeType, Origin, PortConstraints, PortSide, copy_list, lemma_filter_agree, take_layer,
};

verus! {

/// Leads the edges of inverted ports through dummies.
pub struct InvertedPortProcessor;

/// The edges entering the node's eastern ports and then those leaving its
/// western ports, port by port: the edges the processor leads through
/// dummies.
pub open spec fn inverted_edges(g: &LGraph, n: usize) -> Seq<usize> {
    port_edges(g, g.ports_on_side(n as int, PortSide::East), false) + port_edges(
        g,
        g.ports_on_side(n as int, PortSide::West),
        true,
    )
}

/// The node gets dummies for its inverted ports: a normal node whose port
/// sides are fixed.
pub open spec fn needs_dummies(g: &LGraph, n: usize) -> bool {
    &&& g.nodes@[n as int].node_type == NodeType::Normal
    &&& g.nodes@[n as int].port_constraints matches Some(pc)
    &&& pc.spec_is_side_fixed()
}

/// A fresh long-edge dummy for edge `e`: fixed port positions, the two given
/// ports, the given layer, and nothing else set.
pub open spec fn fresh_dummy(n: LNode, in_port: int, out_port: int, layer: int, e: int) -> bool {
    &&& n.node_type == NodeType::LongEdge
    &&& n.ports@ == seq![in_port as usize, out_port as usize]
    &&& n.layer == Some(layer as usize)
    &&& n.port_constraints == Some(PortConstraints::FixedPos)
    &&& n.origin == Origin::Edge(e as usize)
    &&& n.id == 0
    &&& n.layer_constraint is None
    &&& n.in_layer_constraint is None
    &&& n.edge_constraint is None
    &&& n.in_layer_layout_unit is None
    &&& n.in_layer_successor_constraints@.len() == 0
    &&& n.ext_port_side is None
    &&& n.layer_id is None
    &&& n.position_id is None
    &&& n.long_edge_source is None
    &&& n.long_edge_target is None
    &&& n.long_edge_has_label_dummies is None
    &&& n.long_edge_before_label_dummy is None
    &&& n.layer_split is None
    &&& n.reset_on_long_edges is None
    &&& n.minimize_edge_length is None
    &&& n.breaking_point_info is None
    &&& n.comment_box is None
    &&& n.comment_conn_port is None
    &&& n.alignment is None
    &&& n.label_placement is None
    &&& n.ext_port_replaced_dummy is None
    &&& n.represented_labels is None
}

/// `b` is `a` after edge `e` was led through a new long-edge dummy appended
/// to layer `l`: the dummy and its western (in) and eastern (out) port are
/// appended, `e` now enters the dummy, and a new edge with the same reversal
/// runs from the dummy to where `e` went.
pub open spec fn dummy_inserted(a: &LGraph, b: &LGraph, l: int, e: int) -> bool {
    let n0 = a.nodes@.len() as int;
    let p0 = a.ports@.len() as int;
    let e0 = a.edges@.len() as int;
    &&& b.nodes@.len() == n0 + 1
    &&& forall|n: int| 0 <= n < n0 ==> #[trigger] b.nodes@[n] == a.nodes@[n]
    &&& fresh_dummy(b.nodes@[n0], p0, p0 + 1, l, e)
    &&& b.ports@.len() == p0 + 2
    &&& forall|p: int| 0 <= p < p0 ==> #[trigger] b.ports@[p] == a.ports@[p]
    &&& fresh_port(b.ports@[p0], n0, PortSide::West)
    &&& fresh_port(b.ports@[p0 + 1], n0, PortSide::East)
    &&& b.edges@.len() == e0 + 1
    &&& forall|x: int| 0 <= x < e0 && x != e ==> #[trigger] b.edges@[x] == a.edges@[x]
    &&& b.edges@[e] == LEdge {
        source: a.edges@[e].source,
        target: p0 as usize,
        reversed: a.edges@[e].reversed,
    }
    &&& b.edges@[e0] == LEdge {
        source: (p0 + 1) as usize,
        target: a.edges@[e].target,
        reversed: a.edges@[e].reversed,
    }
    &&& b.layers@.len() == a.layers@.len()
    &&& forall|k: int|
        0 <= k < a.layers@.len() ==> #[trigger] b.layers@[k]@ == if k == l {
            a.layers@[k]@.push(n0 as usize)
        } else {
            a.layers@[k]@
        }
    &&& b.layerless_nodes == a.layerless_nodes
}

/// The number of the first `k` edges that enter port `p`.
pub open spec fn in_count(g: &LGraph, p: int, k: int) -> nat
    decreases k,
{
    if k <= 0 {
        0
    } else {
        in_count(g, p, k - 1) + if g.edges@[k - 1].target == p {
            1nat
        } else {
            0nat
        }
    }
}

/// The number of the first `k` edges that leave port `p`.
pub open spec fn out_count(g: &LGraph, p: int, k: int) -> nat
    decreases k,
{
    if k <= 0 {
        0
    } else {
        out_count(g, p, k - 1) + if g.edges@[k - 1].source == p {
            1nat
        } else {
            0nat
        }
    }
}

/// The edges entering (leaving) a port are as many as the count says.
proof fn lemma_counts(g: &LGraph, p: int, k: int)
    requires
        0 <= k <= g.edges@.len(),
    ensures
        Seq::new(k as nat, |e: int| e as usize).filter(|e: usize| g.edges@[e as int].target == p).len()
            == in_count(g, p, k),
        Seq::new(k as nat, |e: int| e as usize).filter(|e: usize| g.edges@[e as int].source == p).len()
            == out_count(g, p, k),
    decreases k,
{
    reveal_with_fuel(Seq::filter, 1);
    assert(g.edges.len() == g.edges@.len());
    if k == 0 {
        assert(Seq::new(k as nat, |e: int| e as usize) =~= Seq::<usize>::empty());
    } else {
        lemma_counts(g, p, k - 1);
        let s = Seq::new((k - 1) as nat, |e: int| e as usize);
        assert(Seq::new(k as nat, |e: int| e as usize) == s.push((k - 1) as usize));
        s.lemma_filter_push((k - 1) as usize, |e: usize| g.edges@[e as int].target == p);
        s.lemma_filter_push((k - 1) as usize, |e: usize| g.edges@[e as int].source == p);
    }
}

/// Retargeting edge `e` to a new port changes the counts of the old ports
/// only at `e`'s old target.
proof fn lemma_counts_retarget(a: &LGraph, b: &LGraph, e: int, p: int, k: int)
    requires
        0 <= e < a.edges@.len(),
        0 <= k <= a.edges@.len(),
        b.edges@.len() >= a.edges@.len(),
        forall|x: int| 0 <= x < a.edges@.len() && x != e ==> #[trigger] b.edges@[x] == a.edges@[x],
        b.edges@[e].source == a.edges@[e].source,
        b.edges@[e].target != p,
    ensures
        in_count(b, p, k) + (if e < k && a.edges@[e].target == p {
            1nat
        } else {
            0nat
        }) == in_count(a, p, k),
        out_count(b, p, k) == out_count(a, p, k),
    decreases k,
{
    if k > 0 {
        lemma_counts_retarget(a, b, e, p, k - 1);
    }
}

/// Leading an edge through a dummy keeps the number of edges at each port
/// that was there before.
proof fn lemma_dummy_keeps_counts(a: &LGraph, b: &LGraph, l: int, e: int, p: int)
    requires
        dummy_inserted(a, b, l, e),
        0 <= e < a.edges@.len(),
        0 <= p < a.ports@.len(),
    ensures
        b.incoming_of(p).len() == a.incoming_of(p).len(),
        b.outgoing_of(p).len() == a.outgoing_of(p).len(),
{
    let e0 = a.edges@.len() as int;
    assert(a.ports.len() == a.ports@.len());
    assert(b.ports.len() == b.ports@.len());
    assert(b.edges@[e].target == a.ports@.len());
    assert(b.edges@[e0].source == a.ports@.len() + 1);
    lemma_counts_retarget(a, b, e, p, e0);
    lemma_counts(a, p, e0);
    lemma_counts(b, p, e0 + 1);
    assert(in_count(b, p, e0 + 1) == in_count(b, p, e0) + if b.edges@[e0].target == p { 1nat } else { 0nat });
    assert(out_count(b, p, e0 + 1) == out_count(b, p, e0) + if b.edges@[e0].source == p { 1nat } else { 0nat });
}

/// The edges at a list of ports of the old graph are as many as before.
proof fn lemma_dummy_keeps_port_edges(a: &LGraph, b: &LGraph, l: int, e: int, ports: Seq<usize>, forwards: bool)
    requires
        dummy_inserted(a, b, l, e),
        0 <= e < a.edges@.len(),
        forall|i: int| 0 <= i < ports.len() ==> #[trigger] ports[i] < a.ports@.len(),
    ensures
        port_edges(b, ports, forwards).len() == port_edges(a, ports, forwards).len(),
    decreases ports.len(),
{
    if ports.len() > 0 {
        lemma_dummy_keeps_port_edges(a, b, l, e, ports.drop_last(), forwards);
        assert(ports[ports.len() - 1] < a.ports@.len());
        lemma_dummy_keeps_counts(a, b, l, e, ports.last() as int);
    }
}

/// Leading an edge through a dummy keeps the number of inverted edges of
/// every node of the old graph.
pub proof fn lemma_dummy_keeps_inverted(a: &LGraph, b: &LGraph, l: int, e: int, m: usize)
    requires
        a.wf(),
        dummy_inserted(a, b, l, e),
        0 <= e < a.edges@.len(),
        m < a.nodes@.len(),
    ensures
        inverted_edges(b, m).len() == inverted_edges(a, m).len(),
        b.ports_on_side(m as int, PortSide::East) == a.ports_on_side(m as int, PortSide::East),
        b.ports_on_side(m as int, PortSide::West) == a.ports_on_side(m as int, PortSide::West),
{
    let ps = a.nodes@[m as int].ports@;
    assert(b.nodes@[m as int] == a.nodes@[m as int]);
    assert forall|i: int| 0 <= i < ps.len() implies #[trigger] ps[i] < a.ports@.len() by {
        assert(a.nodes@[m as int].ports@[i] < a.ports@.len());
    }
    lemma_filter_agree(ps, |p: usize| b.ports@[p as int].side == PortSide::East, |p: usize| a.ports@[p as int].side == PortSide::East);
    lemma_filter_agree(ps, |p: usize| b.ports@[p as int].side == PortSide::West, |p: usize| a.ports@[p as int].side == PortSide::West);
    let east = a.ports_on_side(m as int, PortSide::East);
    let west = a.ports_on_side(m as int, PortSide::West);
    assert forall|i: int| 0 <= i < east.len() implies #[trigger] east[i] < a.ports@.len() by {
        assert(east.contains(east[i]));
        ps.lemma_filter_contains_rev(|p: usize| a.ports@[p as int].side == PortSide::East, east[i]);
    }
    assert forall|i: int| 0 <= i < west.len() implies #[trigger] west[i] < a.ports@.len() by {
        assert(west.contains(west[i]));
        ps.lemma_filter_contains_rev(|p: usize| a.ports@[p as int].side == PortSide::West, west[i]);
    }
    lemma_dummy_keeps_port_edges(a, b, l, e, east, false);
    lemma_dummy_keeps_port_edges(a, b, l, e, west, true);
}


/// Leads edge `e` through a new long-edge dummy appended to layer `l` (see
/// `dummy_inserted`).
pub fn lead_through_dummy(g: &mut LGraph, l: usize, e: usize)
    requires
        old(g).wf(),
        old(g).layers_listed(),
        e < old(g).edges@.len(),
        l < old(g).layers@.len(),
        old(g).nodes@.len() + 1 <= usize::MAX,
        old(g).ports@.len() + 2 <= usize::MAX,
        (old(g).edges@.len() + 1) * 2 <= usize::MAX,
    ensures
        final(g).wf(),
        final(g).layers_listed(),
        dummy_inserted(old(g), final(g), l as int, e as int),
{
    let ghost g0 = *g;
    let n0 = g.nodes.len();
    let p0 = g.ports.len();
    let e0 = g.edges.len();
    let mut ip = LPort::new();
    ip.node = Some(n0);
    ip.side = PortSide::West;
    g.ports.push(ip);
    let mut op = LPort::new();
    op.node = Some(n0);
    op.side = PortSide::East;
    g.ports.push(op);
    let mut dummy = LNode::new(NodeType::LongEdge);
    dummy.origin = Origin::Edge(e);
    dummy.port_constraints = Some(PortConstraints::FixedPos);
    dummy.layer = Some(l);
    dummy.ports = vec![p0, p0 + 1];
    g.nodes.push(dummy);
    let mut list = take_layer(g, l);
    list.push(n0);
    g.layers[l] = list;
    let source = g.edges[e].source;
    let target = g.edges[e].target;
    let reversed = g.edges[e].reversed;
    g.edges.set(e, LEdge { source, target: p0, reversed });
    g.edges.push(LEdge { source: p0 + 1, target, reversed });
    proof {
        assert(g.nodes@[n0 as int].ports@ == seq![p0, (p0 + 1) as usize]);
        assert forall|x: int| 0 <= x < g.edges@.len() implies #[trigger] g.edges@[x].source < g.ports@.len()
            && g.edges@[x].target < g.ports@.len() by {
            if x < e0 && x != e {
                assert(g.edges@[x] == g0.edges@[x]);
            } else if x == e {
                assert(g0.edges@[x].source < g0.ports@.len());
            } else {
                assert(g0.edges@[e as int].target < g0.ports@.len());
            }
        }
        assert forall|p: int| 0 <= p < g.ports@.len() implies (#[trigger] g.ports@[p].node matches Some(n) ==> n
            < g.nodes@.len()) by {
            if p < p0 {
                assert(g.ports@[p] == g0.ports@[p]);
            }
        }
        assert forall|n: int, i: int| 0 <= n < g.nodes@.len() && 0 <= i < g.nodes@[n].ports@.len() implies {
            &&& #[trigger] g.nodes@[n].ports@[i] < g.ports@.len()
            &&& g.ports@[g.nodes@[n].ports@[i] as int].node == Some(n as usize)
        } by {
            if n < n0 {
                assert(g.nodes@[n] == g0.nodes@[n]);
                assert(g0.nodes@[n].ports@[i] < g0.ports@.len());
                assert(g.ports@[g0.nodes@[n].ports@[i] as int] == g0.ports@[g0.nodes@[n].ports@[i] as int]);
            }
        }
        assert forall|k: int, i: int| 0 <= k < g.layers@.len() && 0 <= i < g.layers@[k]@.len() implies {
            &&& #[trigger] g.layers@[k]@[i] < g.nodes@.len()
            &&& g.nodes@[g.layers@[k]@[i] as int].layer == Some(k as usize)
        } by {
            if k == l && i == g0.layers@[k]@.len() {
            } else {
                assert(g.layers@[k]@[i] == g0.layers@[k]@[i]);
                assert(g0.layers@[k]@[i] < g0.nodes@.len());
                assert(g.nodes@[g0.layers@[k]@[i] as int] == g0.nodes@[g0.layers@[k]@[i] as int]);
            }
        }
        assert forall|k: int| 0 <= k < g.layers@.len() implies #[trigger] g.layers@[k]@.no_duplicates() by {
            assert(g0.layers@[k]@.no_duplicates());
            if k == l {
                assert forall|i: int| 0 <= i < g0.layers@[k]@.len() implies g0.layers@[k]@[i] != n0 by {
                    assert(g0.layers@[k]@[i] < g0.nodes@.len());
                }
            }
        }
        assert forall|k: int| 0 <= k < g.layerless_nodes@.len() implies #[trigger] g.layerless_nodes@[k]
            < g.nodes@.len() by {
            assert(g0.layerless_nodes@[k] < g0.nodes@.len());
        }
        assert forall|n: int| 0 <= n < g.nodes@.len() implies (#[trigger] g.nodes@[n].layer matches Some(k) ==> (k
            < g.layers@.len() && g.layers@[k as int]@.contains(n as usize))) by {
            if n < n0 {
                assert(g.nodes@[n] == g0.nodes@[n]);
                if let Some(k) = g0.nodes@[n].layer {
                    assert(g0.layers@[k as int]@.contains(n as usize));
                    let i = choose|i: int| 0 <= i < g0.layers@[k as int]@.len() && g0.layers@[k as int]@[i] == n as usize;
                    assert(g.layers@[k as int]@[i] == n as usize);
                }
            } else {
                assert(g.layers@[l as int]@[g0.layers@[l as int]@.len() as int] == n as usize);
            }
        }
    }
}

/// The edges entering the node's eastern ports, then those leaving its
/// western ports, port by port.
pub fn inverted_edge_list(g: &LGraph, n: usize) -> (res: Vec<usize>)
    requires
        g.wf(),
        n < g.nodes@.len(),
    ensures
        res@ == inverted_edges(g, n),
        forall|i: int| 0 <= i < res@.len() ==> #[trigger] res@[i] < g.edges@.len(),
{
    let mut res: Vec<usize> = Vec::new();
    let east = g.port_side_view(n, PortSide::East);
    let west = g.port_side_view(n, PortSide::West);
    let mut j: usize = 0;
    while j < east.len()
        invariant
            j <= east@.len(),
            res@ == port_edges(g, east@.take(j as int), false),
        decreases east@.len() - j,
    {
        let list = g.incoming_edges(east[j]);
        let ghost before = res@;
        let mut k: usize = 0;
        while k < list.len()
            invariant
                k <= list@.len(),
                res@ == before + list@.take(k as int),
            decreases list@.len() - k,
        {
            res.push(list[k]);
            assert(list@.take(k as int + 1) == list@.take(k as int).push(list@[k as int]));
            k += 1;
        }
        assert(list@.take(list@.len() as int) == list@);
        assert(east@.take(j as int + 1).drop_last() == east@.take(j as int));
        j += 1;
    }
    assert(east@.take(east@.len() as int) == east@);
    let ghost first = res@;
    let mut j: usize = 0;
    while j < west.len()
        invariant
            j <= west@.len(),
            res@ == first + port_edges(g, west@.take(j as int), true),
        decreases west@.len() - j,
    {
        let list = g.outgoing_edges(west[j]);
        let ghost before = res@;
        let mut k: usize = 0;
        while k < list.len()
            invariant
                k <= list@.len(),
                res@ == before + list@.take(k as int),
            decreases list@.len() - k,
        {
            res.push(list[k]);
            assert(list@.take(k as int + 1) == list@.take(k as int).push(list@[k as int]));
            k += 1;
        }
        assert(list@.take(list@.len() as int) == list@);
        assert(west@.take(j as int + 1).drop_last() == west@.take(j as int));
        j += 1;
    }
    assert(west@.take(west@.len() as int) == west@);
    proof {
        lemma_port_edges_valid(g, east@, false);
        lemma_port_edges_valid(g, west@, true);
        let a = port_edges(g, east@, false);
        let b = port_edges(g, west@, true);
        assert forall|i: int| 0 <= i < res@.len() implies #[trigger] res@[i] < g.edges@.len() by {
            if i < a.len() {
                assert(res@[i] == a[i]);
            } else {
                assert(res@[i] == b[i - a.len()]);
            }
        }
    }
    res
}


/// One visit of edge `e` at a node of layer `l`: a self loop stays as it is;
/// any other edge is led through a new dummy in layer `l`.
pub open spec fn visit_step(a: &LGraph, b: &LGraph, l: int, e: int) -> bool {
    if a.is_self_loop(e) {
        *b == *a
    } else {
        dummy_inserted(a, b, l, e)
    }
}

/// The graphs after each of the edges was visited in turn.
pub open spec fn visits_chain(chain: Seq<LGraph>, l: int, es: Seq<usize>) -> bool {
    &&& chain.len() == es.len() + 1
    &&& forall|j: int|
        0 <= j < es.len() ==> #[trigger] visit_step(&chain[j], &chain[j + 1], l, es[j] as int)
}

/// `b` is `a` after node `n` of layer `l` had its turn: a node that needs
/// dummies has its inverted edges visited in turn; any other node changes
/// nothing. The edges are listed when the node's turn comes: a visit changes
/// no other edge at the node's ports, so this is the order its ports give.
pub open spec fn node_done(a: &LGraph, b: &LGraph, l: int, n: usize) -> bool {
    if needs_dummies(a, n) {
        exists|chain: Seq<LGraph>|
            #[trigger] visits_chain(chain, l, inverted_edges(a, n)) && chain[0] == *a && chain.last() == *b
    } else {
        *b == *a
    }
}

/// The graphs after each of the nodes of layer `l` had its turn.
pub open spec fn nodes_chain(chain: Seq<LGraph>, l: int, nodes: Seq<usize>) -> bool {
    &&& chain.len() == nodes.len() + 1
    &&& forall|i: int| 0 <= i < nodes.len() ==> #[trigger] node_done(&chain[i], &chain[i + 1], l, nodes[i])
}

/// `b` is `a` after the nodes that layer `l` held, in their order, had their
/// turns (the dummies appended on the way get none).
pub open spec fn layer_done(a: &LGraph, b: &LGraph, l: int) -> bool {
    exists|chain: Seq<LGraph>|
        #[trigger] nodes_chain(chain, l, a.layers@[l]@) && chain[0] == *a && chain.last() == *b
}

/// The graphs after each layer in turn was done.
pub open spec fn layers_chain(chain: Seq<LGraph>) -> bool {
    forall|l: int| 0 <= l < chain.len() - 1 ==> #[trigger] layer_done(&chain[l], &chain[l + 1], l)
}

/// Every node lists each of its ports once.
pub open spec fn ports_distinct(g: &LGraph) -> bool {
    forall|n: int| 0 <= n < g.nodes@.len() ==> (#[trigger] g.nodes@[n]).ports@.no_duplicates()
}

/// Node `n` of the old graph has had its turn before layer `l`, or in layer
/// `l` among the first nodes of the list.
pub open spec fn turn_taken(g0: &LGraph, n: usize, l: int, firsts: Seq<usize>) -> bool {
    ||| (g0.nodes@[n as int].layer matches Some(k) && k < l)
    ||| (g0.nodes@[n as int].layer == Some(l as usize) && firsts.contains(n))
}

/// The number of inverted edges of the nodes of the list.
pub open spec fn visits_of(g: &LGraph, nodes: Seq<usize>) -> nat
    decreases nodes.len(),
{
    if nodes.len() == 0 {
        0
    } else {
        visits_of(g, nodes.drop_last()) + inverted_edges(g, nodes.last()).len()
    }
}

/// The number of inverted edges of the nodes of the first `k` layers.
pub open spec fn visits_before(g: &LGraph, k: int) -> nat
    decreases k,
{
    if k <= 0 {
        0
    } else {
        visits_before(g, k - 1) + visits_of(g, g.layers@[k - 1]@)
    }
}

/// A prefix of a list has no more inverted edges than the list.
proof fn lemma_visits_of_prefix(g: &LGraph, nodes: Seq<usize>, i: int)
    requires
        0 <= i <= nodes.len(),
    ensures
        visits_of(g, nodes.take(i)) <= visits_of(g, nodes),
    decreases nodes.len() - i,
{
    if i < nodes.len() {
        lemma_visits_of_prefix(g, nodes, i + 1);
        assert(nodes.take(i + 1).drop_last() == nodes.take(i));
    } else {
        assert(nodes.take(i) == nodes);
    }
}

/// The first layers have no more inverted edges than more layers.
proof fn lemma_visits_before_grows(g: &LGraph, k1: int, k2: int)
    requires
        0 <= k1 <= k2,
    ensures
        visits_before(g, k1) <= visits_before(g, k2),
    decreases k2 - k1,
{
    if k1 < k2 {
        lemma_visits_before_grows(g, k1, k2 - 1);
    }
}


/// Node `d` is a long-edge dummy in the given layer.
pub open spec fn dummy_in_layer(g: &LGraph, d: Option<usize>, layer: Option<usize>) -> bool {
    &&& d is Some
    &&& d->0 < g.nodes@.len()
    &&& g.nodes@[d->0 as int].node_type == NodeType::LongEdge
    &&& g.nodes@[d->0 as int].layer == layer
}

/// Edge `y` runs in the layout direction at node `n`: if it enters an
/// eastern port of `n` it comes from `n` itself or from a long-edge dummy in
/// `n`'s layer; if it leaves a western port of `n` it goes to `n` itself or
/// to such a dummy.
pub open spec fn runs_forward_at(g: &LGraph, n: usize, y: int) -> bool {
    let e = g.edges@[y];
    let ps = g.nodes@[n as int].ports@;
    let layer = g.nodes@[n as int].layer;
    &&& (ps.contains(e.target) && g.ports@[e.target as int].side == PortSide::East) ==> (g.source_node(y)
        == Some(n) || dummy_in_layer(g, g.source_node(y), layer))
    &&& (ps.contains(e.source) && g.ports@[e.source as int].side == PortSide::West) ==> (g.target_node(y)
        == Some(n) || dummy_in_layer(g, g.target_node(y), layer))
}

/// Every edge runs in the layout direction at node `n`.
pub open spec fn no_inverted_edges(g: &LGraph, n: usize) -> bool {
    forall|y: int| 0 <= y < g.edges@.len() ==> #[trigger] runs_forward_at(g, n, y)
}

/// An edge that a dummy insertion leaves alone runs forward at an old node
/// in the new graph just when it did in the old one.
proof fn lemma_untouched_edge_same(a: &LGraph, b: &LGraph, l: int, x: int, n: usize, y: int)
    requires
        a.wf(),
        dummy_inserted(a, b, l, x),
        0 <= x < a.edges@.len(),
        n < a.nodes@.len(),
        0 <= y < a.edges@.len(),
        y != x,
    ensures
        runs_forward_at(b, n, y) == runs_forward_at(a, n, y),
{
    let e = a.edges@[y];
    assert(b.edges@[y] == e);
    assert(e.source < a.ports@.len() && e.target < a.ports@.len());
    assert(b.ports@[e.source as int] == a.ports@[e.source as int]);
    assert(b.ports@[e.target as int] == a.ports@[e.target as int]);
    assert(b.nodes@[n as int] == a.nodes@[n as int]);
    if let Some(d) = a.ports@[e.source as int].node {
        assert(d < a.nodes@.len());
        assert(b.nodes@[d as int] == a.nodes@[d as int]);
    }
    if let Some(d) = a.ports@[e.target as int].node {
        assert(d < a.nodes@.len());
        assert(b.nodes@[d as int] == a.nodes@[d as int]);
    }
}

/// A port of node `n` names `n`.
proof fn lemma_port_of_node(g: &LGraph, n: usize, p: usize)
    requires
        g.wf(),
        n < g.nodes@.len(),
        g.nodes@[n as int].ports@.contains(p),
    ensures
        p < g.ports@.len(),
        g.ports@[p as int].node == Some(n),
{
    let i = choose|i: int| 0 <= i < g.nodes@[n as int].ports@.len() && g.nodes@[n as int].ports@[i] == p;
    assert(g.nodes@[n as int].ports@[i] < g.ports@.len());
}

/// Leading an inverted edge of a normal node `m` through a dummy keeps every
/// edge running forward at any other node.
proof fn lemma_dummy_keeps_forward(a: &LGraph, b: &LGraph, l: int, x: int, m: usize, n: usize)
    requires
        a.wf(),
        dummy_inserted(a, b, l, x),
        0 <= x < a.edges@.len(),
        m < a.nodes@.len(),
        n < a.nodes@.len(),
        m != n,
        a.nodes@[m as int].node_type == NodeType::Normal,
        (a.nodes@[m as int].ports@.contains(a.edges@[x].target) && a.ports@[a.edges@[x].target as int].side
            == PortSide::East) || (a.nodes@[m as int].ports@.contains(a.edges@[x].source)
            && a.ports@[a.edges@[x].source as int].side == PortSide::West),
        no_inverted_edges(a, n),
        a.nodes@.len() + 1 <= usize::MAX,
        a.ports@.len() + 2 <= usize::MAX,
    ensures
        no_inverted_edges(b, n),
{
    let e0 = a.edges@.len() as int;
    let p0 = a.ports@.len() as int;
    let ex = a.edges@[x];
    let ps = a.nodes@[n as int].ports@;
    assert(b.nodes@[n as int] == a.nodes@[n as int]);
    assert(ex.source < p0 && ex.target < p0);
    assert forall|y: int| 0 <= y < b.edges@.len() implies #[trigger] runs_forward_at(b, n, y) by {
        if y < e0 && y != x {
            lemma_untouched_edge_same(a, b, l, x, n, y);
            assert(runs_forward_at(a, n, y));
        } else if y == x {
            assert(runs_forward_at(a, n, x));
            if ps.contains(p0 as usize) {
                lemma_port_of_node(a, n, p0 as usize);
            }
            assert(b.ports@[ex.source as int] == a.ports@[ex.source as int]);
            if ps.contains(ex.source) && a.ports@[ex.source as int].side == PortSide::West {
                lemma_port_of_node(a, n, ex.source);
                if a.nodes@[m as int].ports@.contains(ex.target) {
                    lemma_port_of_node(a, m, ex.target);
                } else {
                    lemma_port_of_node(a, m, ex.source);
                }
            }
        } else {
            assert(y == e0);
            if ps.contains((p0 + 1) as usize) {
                lemma_port_of_node(a, n, (p0 + 1) as usize);
            }
            assert(b.ports@[ex.target as int] == a.ports@[ex.target as int]);
            if ps.contains(ex.target) && a.ports@[ex.target as int].side == PortSide::East {
                lemma_port_of_node(a, n, ex.target);
                assert(runs_forward_at(a, n, x));
                if a.nodes@[m as int].ports@.contains(ex.target) {
                    lemma_port_of_node(a, m, ex.target);
                } else {
                    lemma_port_of_node(a, m, ex.source);
                }
            }
        }
    }
}

/// Leading edge `x` at node `n` of layer `l` through a dummy makes it and
/// the new edge run forward at `n`.
proof fn lemma_dummy_fixes(a: &LGraph, b: &LGraph, l: int, x: int, n: usize)
    requires
        a.wf(),
        dummy_inserted(a, b, l, x),
        0 <= x < a.edges@.len(),
        n < a.nodes@.len(),
        a.nodes@[n as int].layer == Some(l as usize),
        a.nodes@.len() + 1 <= usize::MAX,
        a.ports@.len() + 2 <= usize::MAX,
    ensures
        runs_forward_at(b, n, x),
        runs_forward_at(b, n, a.edges@.len() as int),
{
    let p0 = a.ports@.len() as int;
    let n0 = a.nodes@.len() as int;
    let ps = a.nodes@[n as int].ports@;
    assert(b.nodes@[n as int] == a.nodes@[n as int]);
    if ps.contains(p0 as usize) {
        lemma_port_of_node(a, n, p0 as usize);
    }
    if ps.contains((p0 + 1) as usize) {
        lemma_port_of_node(a, n, (p0 + 1) as usize);
    }
    assert(b.ports@[p0].node == Some(n0 as usize));
    assert(b.ports@[p0 + 1].node == Some(n0 as usize));
    assert(dummy_in_layer(b, Some(n0 as usize), Some(l as usize)));
}

/// A self loop at a node runs forward there.
proof fn lemma_self_loop_forward(g: &LGraph, n: usize, y: int)
    requires
        g.wf(),
        n < g.nodes@.len(),
        0 <= y < g.edges@.len(),
        g.is_self_loop(y),
    ensures
        runs_forward_at(g, n, y),
{
    let e = g.edges@[y];
    if g.nodes@[n as int].ports@.contains(e.target) {
        lemma_port_of_node(g, n, e.target);
    }
    if g.nodes@[n as int].ports@.contains(e.source) {
        lemma_port_of_node(g, n, e.source);
    }
}


/// An edge at one of the ports is listed among the ports' edges.
proof fn lemma_port_edges_contains(g: &LGraph, ps: Seq<usize>, forwards: bool, y: usize, i: int)
    requires
        0 <= i < ps.len(),
        y < g.edges@.len(),
        ps[i] == if forwards {
            g.edges@[y as int].source
        } else {
            g.edges@[y as int].target
        },
    ensures
        port_edges(g, ps, forwards).contains(y),
    decreases ps.len(),
{
    let d = ps.drop_last();
    let a = port_edges(g, d, forwards);
    let b = if forwards {
        g.outgoing_of(ps.last() as int)
    } else {
        g.incoming_of(ps.last() as int)
    };
    if i < ps.len() - 1 {
        assert(d[i] == ps[i]);
        lemma_port_edges_contains(g, d, forwards, y, i);
        let k = choose|k: int| 0 <= k < a.len() && a[k] == y;
        assert((a + b)[k] == y);
    } else {
        crate::edge_and_layer_constraint_edge_reverser::lemma_port_edges(g, ps.last());
        assert(b.contains(y));
        let k = choose|k: int| 0 <= k < b.len() && b[k] == y;
        assert((a + b)[a.len() + k] == y);
    }
}

/// An edge entering an eastern port of the node or leaving a western one is
/// among its inverted edges.
proof fn lemma_inverted_contains(g: &LGraph, n: usize, y: usize)
    requires
        y < g.edges@.len(),
        (g.nodes@[n as int].ports@.contains(g.edges@[y as int].target) && g.ports@[g.edges@[y as int].target as int].side
            == PortSide::East) || (g.nodes@[n as int].ports@.contains(g.edges@[y as int].source)
            && g.ports@[g.edges@[y as int].source as int].side == PortSide::West),
    ensures
        inverted_edges(g, n).contains(y),
{
    let ps = g.nodes@[n as int].ports@;
    let east = g.ports_on_side(n as int, PortSide::East);
    let west = g.ports_on_side(n as int, PortSide::West);
    let a = port_edges(g, east, false);
    let b = port_edges(g, west, true);
    let e = g.edges@[y as int];
    if ps.contains(e.target) && g.ports@[e.target as int].side == PortSide::East {
        let k = choose|k: int| 0 <= k < ps.len() && ps[k] == e.target;
        ps.lemma_filter_contains(|p: usize| g.ports@[p as int].side == PortSide::East, k);
        let i = choose|i: int| 0 <= i < east.len() && east[i] == e.target;
        lemma_port_edges_contains(g, east, false, y, i);
        let j = choose|j: int| 0 <= j < a.len() && a[j] == y;
        assert((a + b)[j] == y);
    } else {
        let k = choose|k: int| 0 <= k < ps.len() && ps[k] == e.source;
        ps.lemma_filter_contains(|p: usize| g.ports@[p as int].side == PortSide::West, k);
        let i = choose|i: int| 0 <= i < west.len() && west[i] == e.source;
        lemma_port_edges_contains(g, west, true, y, i);
        let j = choose|j: int| 0 <= j < b.len() && b[j] == y;
        assert((a + b)[a.len() + j] == y);
    }
}

/// Gives node `n` of layer `l` its turn (see `node_done`).
pub fn process_node(g: &mut LGraph, l: usize, n: usize)
    requires
        old(g).wf(),
        old(g).layers_listed(),
        n < old(g).nodes@.len(),
        l < old(g).layers@.len(),
        old(g).nodes@.len() + inverted_edges(old(g), n).len() + 1 <= usize::MAX,
        old(g).ports@.len() + 2 * inverted_edges(old(g), n).len() + 2 <= usize::MAX,
        (old(g).edges@.len() + inverted_edges(old(g), n).len() + 1) * 2 <= usize::MAX,
    ensures
        final(g).wf(),
        final(g).layers_listed(),
        node_done(old(g), final(g), l as int, n),
        old(g).edges@.len() <= final(g).edges@.len() <= old(g).edges@.len() + inverted_edges(old(g), n).len(),
        final(g).nodes@.len() - old(g).nodes@.len() == final(g).edges@.len() - old(g).edges@.len(),
        final(g).ports@.len() - old(g).ports@.len() == 2 * (final(g).edges@.len() - old(g).edges@.len()),
        final(g).layers@.len() == old(g).layers@.len(),
        forall|k: int| 0 <= k < old(g).layers@.len() && k != l ==> #[trigger] final(g).layers@[k]@ == old(g).layers@[k]@,
        forall|m: int| 0 <= m < old(g).nodes@.len() ==> #[trigger] final(g).nodes@[m] == old(g).nodes@[m],
        forall|m: usize| m < old(g).nodes@.len() ==> #[trigger] inverted_edges(final(g), m).len() == inverted_edges(old(g), m).len(),
        old(g).nodes@[n as int].layer == Some(l) && old(g).nodes@[n as int].ports@.no_duplicates() ==> forall|
            n2: usize,
        |
            n2 < old(g).nodes@.len() && n2 != n && #[trigger] no_inverted_edges(old(g), n2) ==> no_inverted_edges(
                final(g),
                n2,
            ),
        old(g).nodes@[n as int].layer == Some(l) && old(g).nodes@[n as int].ports@.no_duplicates() && needs_dummies(
            old(g),
            n,
        ) ==> no_inverted_edges(final(g), n),
{
    let ghost g0 = *g;
    let ghost law = g0.nodes@[n as int].layer == Some(l) && g0.nodes@[n as int].ports@.no_duplicates();
    let eligible = match g.nodes[n].port_constraints {
        Some(pc) => g.nodes[n].node_type == NodeType::Normal && pc.is_side_fixed(),
        None => false,
    };
    if !eligible {
        return;
    }
    let es = inverted_edge_list(g, n);
    proof {
        if law {
            lemma_inverted_distinct(&g0, n);
            assert forall|y: int| 0 <= y < g0.edges@.len() && !#[trigger] runs_forward_at(&g0, n, y) implies (y
                < g0.edges@.len() && g0.edges@[y] == g0.edges@[y] && exists|k: int|
                0 <= k < es@.len() && es@[k] == y) by {
                let e = g0.edges@[y];
                if g0.nodes@[n as int].ports@.contains(e.target) && g0.ports@[e.target as int].side == PortSide::East {
                    lemma_inverted_contains(&g0, n, y as usize);
                } else {
                    lemma_inverted_contains(&g0, n, y as usize);
                }
            }
        }
    }
    let ghost mut chain: Seq<LGraph> = seq![*g];
    let mut j: usize = 0;
    while j < es.len()
        invariant
            law == (g0.nodes@[n as int].layer == Some(l) && g0.nodes@[n as int].ports@.no_duplicates()),
            n < g0.nodes@.len(),
            needs_dummies(&g0, n),
            law ==> forall|a: int, b: int|
                0 <= a < b < es@.len() && es@[a] == es@[b] ==> g0.is_self_loop(es@[a] as int),
            law ==> forall|n2: usize|
                n2 < g0.nodes@.len() && n2 != n && #[trigger] no_inverted_edges(&g0, n2) ==> no_inverted_edges(g, n2),
            law ==> forall|y: int|
                0 <= y < g.edges@.len() && !#[trigger] runs_forward_at(g, n, y) ==> (y < g0.edges@.len() && g.edges@[y]
                    == g0.edges@[y] && exists|k: int| j <= k < es@.len() && es@[k] == y),
            law ==> forall|k: int|
                j <= k < es@.len() ==> g0.is_self_loop(#[trigger] es@[k] as int) || g.edges@[es@[k] as int]
                    == g0.edges@[es@[k] as int],
            forall|y: int| 0 <= y < g0.edges@.len() && #[trigger] g0.is_self_loop(y) ==> g.edges@[y] == g0.edges@[y],
            g.ports@.len() >= g0.ports@.len(),
            forall|p: int| 0 <= p < g0.ports@.len() ==> #[trigger] g.ports@[p] == g0.ports@[p],
            g.wf(),
            g.layers_listed(),
            g0.wf(),
            l < g0.layers@.len(),
            es@ == inverted_edges(&g0, n),
            forall|x: int| 0 <= x < es@.len() ==> #[trigger] es@[x] < g0.edges@.len(),
            g0.nodes@.len() + es@.len() + 1 <= usize::MAX,
            g0.ports@.len() + 2 * es@.len() + 2 <= usize::MAX,
            (g0.edges@.len() + es@.len() + 1) * 2 <= usize::MAX,
            j <= es@.len(),
            g0.edges@.len() <= g.edges@.len() <= g0.edges@.len() + j,
            g.nodes@.len() - g0.nodes@.len() == g.edges@.len() - g0.edges@.len(),
            g.ports@.len() - g0.ports@.len() == 2 * (g.edges@.len() - g0.edges@.len()),
            g.layers@.len() == g0.layers@.len(),
            forall|k: int| 0 <= k < g0.layers@.len() && k != l ==> #[trigger] g.layers@[k]@ == g0.layers@[k]@,
            forall|m: int| 0 <= m < g0.nodes@.len() ==> #[trigger] g.nodes@[m] == g0.nodes@[m],
            forall|m: usize| m < g0.nodes@.len() ==> #[trigger] inverted_edges(g, m).len() == inverted_edges(&g0, m).len(),
            chain.len() == j + 1,
            chain[0] == g0,
            chain[j as int] == *g,
            forall|k: int| 0 <= k < j ==> #[trigger] visit_step(&chain[k], &chain[k + 1], l as int, es@[k] as int),
        decreases es@.len() - j,
    {
        let e = es[j];
        let ghost gb = *g;
        proof {
            assert(e < g0.edges@.len());
            let ee = g0.edges@[e as int];
            assert(ee.source < g0.ports@.len() && ee.target < g0.ports@.len());
            assert(gb.ports@[ee.source as int] == g0.ports@[ee.source as int]);
            assert(gb.ports@[ee.target as int] == g0.ports@[ee.target as int]);
            if g0.is_self_loop(e as int) {
                assert(gb.edges@[e as int] == g0.edges@[e as int]);
                assert(gb.is_self_loop(e as int));
            }
        }
        if !g.is_self_loop_exec(e) {
            lead_through_dummy(g, l, e);
            proof {
                if law {
                    assert(gb.edges@[e as int] == g0.edges@[e as int]);
                    assert(es@.contains(e));
                    lemma_inverted_member(&g0, n, e);
                    let ee = g0.edges@[e as int];
                    assert(gb.nodes@[n as int] == g0.nodes@[n as int]);
                    assert forall|n2: usize| n2 < g0.nodes@.len() && n2 != n && #[trigger] no_inverted_edges(&g0, n2)
                        implies no_inverted_edges(g, n2) by {
                        assert(no_inverted_edges(&gb, n2));
                        lemma_dummy_keeps_forward(&gb, g, l as int, e as int, n, n2);
                    }
                    lemma_dummy_fixes(&gb, g, l as int, e as int, n);
                    assert(g.nodes@[n as int] == g0.nodes@[n as int]);
                    assert forall|y: int| 0 <= y < g.edges@.len() && !#[trigger] runs_forward_at(g, n, y) implies (y
                        < g0.edges@.len() && g.edges@[y] == g0.edges@[y] && exists|k: int|
                        j + 1 <= k < es@.len() && es@[k] == y) by {
                        if y < gb.edges@.len() && y != e {
                            lemma_untouched_edge_same(&gb, g, l as int, e as int, n, y);
                            assert(!runs_forward_at(&gb, n, y));
                            let k = choose|k: int| j <= k < es@.len() && es@[k] == y;
                            assert(k != j);
                        }
                    }
                    assert forall|k: int| j + 1 <= k < es@.len() implies g0.is_self_loop(#[trigger] es@[k] as int)
                        || g.edges@[es@[k] as int] == g0.edges@[es@[k] as int] by {
                        if es@[k] == e {
                            assert(es@[j as int] == es@[k]);
                        }
                        assert(es@[k] < g0.edges@.len());
                    }
                }
                assert forall|y: int| 0 <= y < g0.edges@.len() && #[trigger] g0.is_self_loop(y) implies g.edges@[y]
                    == g0.edges@[y] by {
                    if y == e {
                        assert(gb.is_self_loop(e as int));
                    }
                }
                assert forall|m: usize| m < g0.nodes@.len() implies #[trigger] inverted_edges(g, m).len() == inverted_edges(&g0, m).len() by {
                    lemma_dummy_keeps_inverted(&gb, g, l as int, e as int, m);
                }
                assert forall|k: int| 0 <= k < g0.layers@.len() && k != l implies #[trigger] g.layers@[k]@ == g0.layers@[k]@ by {
                    assert(g.layers@[k]@ == gb.layers@[k]@);
                }
                assert forall|m: int| 0 <= m < g0.nodes@.len() implies #[trigger] g.nodes@[m] == g0.nodes@[m] by {
                    assert(g.nodes@[m] == gb.nodes@[m]);
                }
                assert forall|p: int| 0 <= p < g0.ports@.len() implies #[trigger] g.ports@[p] == g0.ports@[p] by {
                    assert(g.ports@[p] == gb.ports@[p]);
                }
            }
        }
        proof {
            if law && gb.is_self_loop(e as int) {
                assert forall|y: int| 0 <= y < g.edges@.len() && !#[trigger] runs_forward_at(g, n, y) implies (y
                    < g0.edges@.len() && g.edges@[y] == g0.edges@[y] && exists|k: int|
                    j + 1 <= k < es@.len() && es@[k] == y) by {
                    let k = choose|k: int| j <= k < es@.len() && es@[k] == y;
                    if k == j {
                        lemma_self_loop_forward(g, n, y);
                    }
                }
            }
            let old_chain = chain;
            chain = chain.push(*g);
            assert(visit_step(&gb, g, l as int, e as int));
            assert forall|k: int| 0 <= k < j + 1 implies #[trigger] visit_step(&chain[k], &chain[k + 1], l as int, es@[k] as int) by {
                if k < j {
                    assert(chain[k] == old_chain[k]);
                    assert(chain[k + 1] == old_chain[k + 1]);
                } else {
                    assert(chain[k] == gb);
                }
            }
        }
        j += 1;
    }
    proof {
        assert(visits_chain(chain, l as int, inverted_edges(&g0, n)));
        if law {
            assert forall|y: int| 0 <= y < g.edges@.len() implies #[trigger] runs_forward_at(g, n, y) by {
                if !runs_forward_at(g, n, y) {
                    let k = choose|k: int| j <= k < es@.len() && es@[k] == y;
                }
            }
        }
    }
}


impl InvertedPortProcessor {
    /// Visits the layers in turn, and in each the nodes it held when its turn
    /// came, in their order; a normal node whose port sides are fixed has the
    /// edges entering its eastern ports and leaving its western ports led
    /// through new long-edge dummies in its layer (self loops excepted).
    pub fn process(&self, g: &mut LGraph)
        requires
            old(g).wf(),
            old(g).layers_listed(),
            old(g).nodes@.len() + visits_before(old(g), old(g).layers@.len() as int) + 1 <= usize::MAX,
            old(g).ports@.len() + 2 * visits_before(old(g), old(g).layers@.len() as int) + 2 <= usize::MAX,
            (old(g).edges@.len() + visits_before(old(g), old(g).layers@.len() as int) + 1) * 2 <= usize::MAX,
        ensures
            final(g).wf(),
            final(g).layers_listed(),
            exists|chain: Seq<LGraph>|
                #[trigger] layers_chain(chain) && chain.len() == old(g).layers@.len() + 1 && chain[0] == *old(g)
                    && chain.last() == *final(g),
            ports_distinct(old(g)) ==> forall|n: usize|
                n < old(g).nodes@.len() && needs_dummies(old(g), n) && old(g).nodes@[n as int].layer is Some
                    ==> #[trigger] no_inverted_edges(final(g), n),
    {
        let ghost g0 = *g;
        let ghost total = visits_before(&g0, g0.layers@.len() as int);
        let ghost mut chain: Seq<LGraph> = seq![*g];
        let mut l: usize = 0;
        while l < g.layers.len()
            invariant
                g.wf(),
                g.layers_listed(),
                g0.wf(),
                total == visits_before(&g0, g0.layers@.len() as int),
                g0.nodes@.len() + total + 1 <= usize::MAX,
                g0.ports@.len() + 2 * total + 2 <= usize::MAX,
                (g0.edges@.len() + total + 1) * 2 <= usize::MAX,
                l <= g.layers@.len(),
                g.layers@.len() == g0.layers@.len(),
                forall|k: int| l <= k < g0.layers@.len() ==> #[trigger] g.layers@[k]@ == g0.layers@[k]@,
                g0.edges@.len() <= g.edges@.len() <= g0.edges@.len() + visits_before(&g0, l as int),
                g.nodes@.len() - g0.nodes@.len() == g.edges@.len() - g0.edges@.len(),
                g.ports@.len() - g0.ports@.len() == 2 * (g.edges@.len() - g0.edges@.len()),
                forall|m: usize| m < g0.nodes@.len() ==> #[trigger] inverted_edges(g, m).len() == inverted_edges(&g0, m).len(),
                g0.layers_listed(),
                forall|m: int| 0 <= m < g0.nodes@.len() ==> #[trigger] g.nodes@[m] == g0.nodes@[m],
                ports_distinct(&g0) ==> forall|n2: usize|
                    n2 < g0.nodes@.len() && needs_dummies(&g0, n2) && turn_taken(&g0, n2, l as int, Seq::empty())
                        ==> #[trigger] no_inverted_edges(g, n2),
                chain.len() == l + 1,
                chain[0] == g0,
                chain[l as int] == *g,
                forall|k: int| 0 <= k < l ==> #[trigger] layer_done(&chain[k], &chain[k + 1], k),
            decreases g0.layers@.len() - l,
        {
            let ghost gl = *g;
            let nodes = copy_list(&g.layers[l]);
            let ghost mut ichain: Seq<LGraph> = seq![*g];
            proof {
                lemma_visits_before_grows(&g0, l as int + 1, g0.layers@.len() as int);
                assert(nodes@ == g0.layers@[l as int]@);
                if ports_distinct(&g0) {
                    assert forall|n2: usize|
                        n2 < g0.nodes@.len() && needs_dummies(&g0, n2) && turn_taken(&g0, n2, l as int, nodes@.take(0))
                            implies #[trigger] no_inverted_edges(g, n2) by {
                        assert(turn_taken(&g0, n2, l as int, Seq::empty()));
                    }
                }
            }
            let mut i: usize = 0;
            while i < nodes.len()
                invariant
                    g.wf(),
                    g.layers_listed(),
                    g0.wf(),
                    l < g0.layers@.len(),
                    nodes@ == g0.layers@[l as int]@,
                    nodes@ == gl.layers@[l as int]@,
                    visits_before(&g0, l as int + 1) <= total,
                    g0.nodes@.len() + total + 1 <= usize::MAX,
                    g0.ports@.len() + 2 * total + 2 <= usize::MAX,
                    (g0.edges@.len() + total + 1) * 2 <= usize::MAX,
                    i <= nodes@.len(),
                    g.layers@.len() == g0.layers@.len(),
                    forall|k: int| l < k < g0.layers@.len() ==> #[trigger] g.layers@[k]@ == g0.layers@[k]@,
                    g0.edges@.len() <= g.edges@.len() <= g0.edges@.len() + visits_before(&g0, l as int) + visits_of(&g0, nodes@.take(i as int)),
                    g.nodes@.len() - g0.nodes@.len() == g.edges@.len() - g0.edges@.len(),
                    g.ports@.len() - g0.ports@.len() == 2 * (g.edges@.len() - g0.edges@.len()),
                    forall|m: usize| m < g0.nodes@.len() ==> #[trigger] inverted_edges(g, m).len() == inverted_edges(&g0, m).len(),
                    g0.layers_listed(),
                    forall|m: int| 0 <= m < g0.nodes@.len() ==> #[trigger] g.nodes@[m] == g0.nodes@[m],
                    ports_distinct(&g0) ==> forall|n2: usize|
                        n2 < g0.nodes@.len() && needs_dummies(&g0, n2) && turn_taken(&g0, n2, l as int, nodes@.take(i as int))
                            ==> #[trigger] no_inverted_edges(g, n2),
                    ichain.len() == i + 1,
                    ichain[0] == gl,
                    ichain[i as int] == *g,
                    forall|j: int| 0 <= j < i ==> #[trigger] node_done(&ichain[j], &ichain[j + 1], l as int, nodes@[j]),
                decreases nodes@.len() - i,
            {
                let n = nodes[i];
                let ghost gb = *g;
                proof {
                    assert(g0.layers@[l as int]@[i as int] < g0.nodes@.len());
                    assert(nodes@.take(i as int + 1).drop_last() == nodes@.take(i as int));
                    lemma_visits_of_prefix(&g0, nodes@, i as int + 1);
                    assert(inverted_edges(g, n).len() == inverted_edges(&g0, n).len());
                }
                process_node(g, l, n);
                proof {
                    assert(nodes@.take(i as int + 1) == nodes@.take(i as int).push(n));
                    if ports_distinct(&g0) {
                        assert(gb.nodes@[n as int] == g0.nodes@[n as int]);
                        assert(g0.nodes@[n as int].ports@.no_duplicates());
                        assert(g0.nodes@[n as int].layer == Some(l));
                        assert forall|n2: usize|
                            n2 < g0.nodes@.len() && needs_dummies(&g0, n2) && turn_taken(
                                &g0,
                                n2,
                                l as int,
                                nodes@.take(i as int + 1),
                            ) implies #[trigger] no_inverted_edges(g, n2) by {
                            if n2 != n {
                                if g0.nodes@[n2 as int].layer == Some(l) && nodes@.take(i as int + 1).contains(n2) {
                                    let x = choose|x: int| 0 <= x < i + 1 && #[trigger] nodes@.take(i as int + 1)[x] == n2;
                                    assert(nodes@.take(i as int)[x] == n2);
                                }
                                assert(turn_taken(&g0, n2, l as int, nodes@.take(i as int)));
                                assert(no_inverted_edges(&gb, n2));
                            }
                        }
                    }
                    let old_ichain = ichain;
                    ichain = ichain.push(*g);
                    assert forall|j: int| 0 <= j < i + 1 implies #[trigger] node_done(&ichain[j], &ichain[j + 1], l as int, nodes@[j]) by {
                        if j < i {
                            assert(ichain[j] == old_ichain[j]);
                            assert(ichain[j + 1] == old_ichain[j + 1]);
                        } else {
                            assert(ichain[j] == gb);
                        }
                    }
                }
                i += 1;
            }
            proof {
                assert(nodes@.take(nodes@.len() as int) == nodes@);
                if ports_distinct(&g0) {
                    assert forall|n2: usize|
                        n2 < g0.nodes@.len() && needs_dummies(&g0, n2) && turn_taken(&g0, n2, l as int + 1, Seq::empty())
                            implies #[trigger] no_inverted_edges(g, n2) by {
                        if g0.nodes@[n2 as int].layer == Some(l) {
                            assert(g0.layers@[l as int]@.contains(n2));
                        }
                        assert(turn_taken(&g0, n2, l as int, nodes@));
                    }
                }
                assert(nodes_chain(ichain, l as int, gl.layers@[l as int]@));
                assert(layer_done(&gl, g, l as int));
                let old_chain = chain;
                chain = chain.push(*g);
                assert forall|k: int| 0 <= k < l + 1 implies #[trigger] layer_done(&chain[k], &chain[k + 1], k) by {
                    if k < l {
                        assert(chain[k] == old_chain[k]);
                        assert(chain[k + 1] == old_chain[k + 1]);
                    } else {
                        assert(chain[k] == gl);
                    }
                }
            }
            l += 1;
        }
        proof {
            assert(layers_chain(chain));
            if ports_distinct(&g0) {
                assert forall|n: usize|
                    n < g0.nodes@.len() && needs_dummies(&g0, n) && g0.nodes@[n as int].layer is Some implies #[trigger] no_inverted_edges(
                        g,
                        n,
                    ) by {
                    assert(turn_taken(&g0, n, l as int, Seq::empty()));
                }
            }
        }
    }
}


/// A filter of a list of distinct items holds distinct items.
proof fn lemma_filter_distinct(s: Seq<usize>, p: spec_fn(usize) -> bool)
    requires
        s.no_duplicates(),
    ensures
        s.filter(p).no_duplicates(),
    decreases s.len(),
{
    reveal_with_fuel(Seq::filter, 1);
    if s.len() > 0 {
        let d = s.drop_last();
        assert forall|a: int, b: int| 0 <= a < b < d.len() implies d[a] != d[b] by {
            assert(d[a] == s[a] && d[b] == s[b]);
        }
        lemma_filter_distinct(d, p);
        let f = d.filter(p);
        let x = s.last();
        if p(x) {
            if f.contains(x) {
                d.lemma_filter_contains_rev(p, x);
                let i = choose|i: int| 0 <= i < d.len() && d[i] == x;
                assert(s[i] == s[s.len() - 1]);
            }
            assert forall|a: int, b: int| 0 <= a < b < f.push(x).len() implies f.push(x)[a] != f.push(x)[b] by {
                if b == f.len() {
                    assert(f.push(x)[a] == f[a]);
                    if f[a] == x {
                        assert(f.contains(x));
                    }
                } else {
                    assert(f.push(x)[a] == f[a] && f.push(x)[b] == f[b]);
                }
            }
        }
    }
}

/// An edge listed at some ports is at one of them.
proof fn lemma_port_edges_member(g: &LGraph, ps: Seq<usize>, forwards: bool, x: usize)
    requires
        port_edges(g, ps, forwards).contains(x),
    ensures
        x < g.edges@.len(),
        ps.contains(
            if forwards {
                g.edges@[x as int].source
            } else {
                g.edges@[x as int].target
            },
        ),
    decreases ps.len(),
{
    let d = ps.drop_last();
    let a = port_edges(g, d, forwards);
    let b = if forwards {
        g.outgoing_of(ps.last() as int)
    } else {
        g.incoming_of(ps.last() as int)
    };
    crate::edge_and_layer_constraint_edge_reverser::lemma_port_edges(g, ps.last());
    let i = choose|i: int| 0 <= i < (a + b).len() && (a + b)[i] == x;
    if i < a.len() {
        assert(a[i] == x);
        lemma_port_edges_member(g, d, forwards, x);
        let end = if forwards {
            g.edges@[x as int].source
        } else {
            g.edges@[x as int].target
        };
        let k = choose|k: int| 0 <= k < d.len() && d[k] == end;
        assert(ps[k] == end);
    } else {
        assert(b[i - a.len()] == x);
        assert(b.contains(x));
        assert(ps[ps.len() - 1] == ps.last());
    }
}

/// The edges listed at distinct ports are distinct.
proof fn lemma_port_edges_distinct(g: &LGraph, ps: Seq<usize>, forwards: bool)
    requires
        ps.no_duplicates(),
        g.edges@.len() <= usize::MAX,
    ensures
        port_edges(g, ps, forwards).no_duplicates(),
    decreases ps.len(),
{
    if ps.len() > 0 {
        let d = ps.drop_last();
        assert forall|i: int, j: int| 0 <= i < j < d.len() implies d[i] != d[j] by {
            assert(d[i] == ps[i] && d[j] == ps[j]);
        }
        lemma_port_edges_distinct(g, d, forwards);
        let a = port_edges(g, d, forwards);
        let all = Seq::new(g.edges@.len(), |e: int| e as usize);
        assert forall|i: int, j: int| 0 <= i < j < all.len() implies all[i] != all[j] by {}
        let b = if forwards {
            g.outgoing_of(ps.last() as int)
        } else {
            g.incoming_of(ps.last() as int)
        };
        if forwards {
            lemma_filter_distinct(all, |e: usize| g.edges@[e as int].source == ps.last());
        } else {
            lemma_filter_distinct(all, |e: usize| g.edges@[e as int].target == ps.last());
        }
        crate::edge_and_layer_constraint_edge_reverser::lemma_port_edges(g, ps.last());
        assert forall|i: int, j: int| 0 <= i < j < (a + b).len() implies (a + b)[i] != (a + b)[j] by {
            if i < a.len() && j >= a.len() {
                let x = a[i];
                if x == b[j - a.len()] {
                    assert(a.contains(x));
                    lemma_port_edges_member(g, d, forwards, x);
                    assert(b.contains(x));
                    let end = if forwards {
                        g.edges@[x as int].source
                    } else {
                        g.edges@[x as int].target
                    };
                    let k = choose|k: int| 0 <= k < d.len() && d[k] == end;
                    assert(ps[k] == ps[ps.len() - 1]);
                }
            } else if j < a.len() {
                assert((a + b)[i] == a[i] && (a + b)[j] == a[j]);
            } else {
                assert((a + b)[i] == b[i - a.len()] && (a + b)[j] == b[j - a.len()]);
            }
        }
    }
}

/// An inverted edge of a node enters one of its eastern ports or leaves one
/// of its western ports.
proof fn lemma_inverted_member(g: &LGraph, n: usize, x: usize)
    requires
        inverted_edges(g, n).contains(x),
    ensures
        x < g.edges@.len(),
        (g.nodes@[n as int].ports@.contains(g.edges@[x as int].target) && g.ports@[g.edges@[x as int].target as int].side
            == PortSide::East) || (g.nodes@[n as int].ports@.contains(g.edges@[x as int].source)
            && g.ports@[g.edges@[x as int].source as int].side == PortSide::West),
{
    let ps = g.nodes@[n as int].ports@;
    let east = g.ports_on_side(n as int, PortSide::East);
    let west = g.ports_on_side(n as int, PortSide::West);
    let a = port_edges(g, east, false);
    let b = port_edges(g, west, true);
    let i = choose|i: int| 0 <= i < (a + b).len() && (a + b)[i] == x;
    if i < a.len() {
        assert(a[i] == x);
        lemma_port_edges_member(g, east, false, x);
        let t = g.edges@[x as int].target;
        ps.lemma_filter_contains_rev(|p: usize| g.ports@[p as int].side == PortSide::East, t);
        lemma_filter_facts(ps, |p: usize| g.ports@[p as int].side == PortSide::East);
        let k = choose|k: int| 0 <= k < east.len() && east[k] == t;
    } else {
        assert(b[i - a.len()] == x);
        lemma_port_edges_member(g, west, true, x);
        let s0 = g.edges@[x as int].source;
        ps.lemma_filter_contains_rev(|p: usize| g.ports@[p as int].side == PortSide::West, s0);
        lemma_filter_facts(ps, |p: usize| g.ports@[p as int].side == PortSide::West);
        let k = choose|k: int| 0 <= k < west.len() && west[k] == s0;
    }
}

/// The inverted edges of a node with distinct ports are distinct, but for
/// self loops, which may be listed twice.
proof fn lemma_inverted_distinct(g: &LGraph, n: usize)
    requires
        g.wf(),
        n < g.nodes@.len(),
        g.nodes@[n as int].ports@.no_duplicates(),
    ensures
        forall|a: int, b: int|
            0 <= a < b < inverted_edges(g, n).len() && inverted_edges(g, n)[a] == inverted_edges(g, n)[b]
                ==> g.is_self_loop(inverted_edges(g, n)[a] as int),
{
    let ps = g.nodes@[n as int].ports@;
    let east = g.ports_on_side(n as int, PortSide::East);
    let west = g.ports_on_side(n as int, PortSide::West);
    lemma_filter_distinct(ps, |p: usize| g.ports@[p as int].side == PortSide::East);
    lemma_filter_distinct(ps, |p: usize| g.ports@[p as int].side == PortSide::West);
    lemma_port_edges_distinct(g, east, false);
    lemma_port_edges_distinct(g, west, true);
    let ea = port_edges(g, east, false);
    let we = port_edges(g, west, true);
    let es = inverted_edges(g, n);
    assert forall|a: int, b: int| 0 <= a < b < es.len() && es[a] == es[b] implies g.is_self_loop(es[a] as int) by {
        let x = es[a];
        if a < ea.len() && b >= ea.len() {
            assert(ea[a] == x && we[b - ea.len()] == x);
            assert(ea.contains(x) && we.contains(x));
            lemma_port_edges_member(g, east, false, x);
            lemma_port_edges_member(g, west, true, x);
            let t = g.edges@[x as int].target;
            let s0 = g.edges@[x as int].source;
            ps.lemma_filter_contains_rev(|p: usize| g.ports@[p as int].side == PortSide::East, t);
            ps.lemma_filter_contains_rev(|p: usize| g.ports@[p as int].side == PortSide::West, s0);
            let i = choose|i: int| 0 <= i < ps.len() && ps[i] == t;
            let j = choose|j: int| 0 <= j < ps.len() && ps[j] == s0;
            assert(g.nodes@[n as int].ports@[i] < g.ports@.len());
            assert(g.nodes@[n as int].ports@[j] < g.ports@.len());
        } else if b < ea.len() {
            assert(ea[a] == es[a] && ea[b] == es[b]);
        } else {
            assert(we[a - ea.len()] == es[a] && we[b - ea.len()] == es[b]);
        }
    }
}

} // verus!

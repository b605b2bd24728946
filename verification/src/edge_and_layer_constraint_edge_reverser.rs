//! Reverses edges so that nodes constrained to the first (last) layer have
//! only outgoing (incoming) edges, and reverses all edges of nodes whose
//! fixed port sides show they point the wrong way.
use vstd::prelude::*;

use crate::graph::{lemma_filter_facts, 
    EdgeConstraint,
    LEdge,
    LGraph,
    LNode,
    LayerConstraint,
    NodeType,
    PortConstraints,
    PortSide,
    PortType,
};

verus! {

/// The layer constraint of a node, unconstrained when unset.
pub open spec fn spec_layer_constraint_of(g: &LGraph, n: int) -> LayerConstraint {
    match g.nodes@[n].layer_constraint {
        Some(c) => c,
        None => LayerConstraint::Unconstrained,
    }
}

/// The edge constraint that a layer constraint imposes.
pub open spec fn spec_edge_constraint_for(c: LayerConstraint) -> Option<EdgeConstraint> {
    match c {
        LayerConstraint::First | LayerConstraint::FirstSeparate => Some(EdgeConstraint::OutgoingOnly),
        LayerConstraint::Last | LayerConstraint::LastSeparate => Some(EdgeConstraint::IncomingOnly),
        LayerConstraint::Unconstrained => None,
    }
}

/// An outgoing edge of a node with the given constraint may be reversed: it
/// is not reversed yet, its target lies on a node, that node is no label
/// dummy when the source must be in the last layer, and it is not
/// constrained to a separate last layer.
pub open spec fn outgoing_reversible(
    g: &LGraph,
    es: Seq<LEdge>,
    source_constraint: LayerConstraint,
    e: int,
) -> bool {
    &&& !es[e].reversed
    &&& g.ports@[es[e].target as int].node matches Some(t)
    &&& !(source_constraint == LayerConstraint::Last && g.nodes@[t as int].node_type
        == NodeType::Label)
    &&& spec_layer_constraint_of(g, t as int) != LayerConstraint::LastSeparate
}

/// An incoming edge of a node with the given constraint may be reversed.
pub open spec fn incoming_reversible(
    g: &LGraph,
    es: Seq<LEdge>,
    target_constraint: LayerConstraint,
    e: int,
) -> bool {
    &&& !es[e].reversed
    &&& g.ports@[es[e].source as int].node matches Some(s)
    &&& !(target_constraint == LayerConstraint::First && g.nodes@[s as int].node_type
        == NodeType::Label)
    &&& spec_layer_constraint_of(g, s as int) != LayerConstraint::FirstSeparate
}

/// The edge is reversed when the edges of the given ports of a node are
/// reversed: outgoing edges unless only outputs are wanted, incoming edges
/// unless only inputs are wanted.
pub open spec fn reversed_at(
    g: &LGraph,
    es: Seq<LEdge>,
    ports: Seq<usize>,
    c: LayerConstraint,
    port_type: PortType,
    e: int,
) -> bool {
    ||| !(port_type is Output) && ports.contains(es[e].source) && outgoing_reversible(g, es, c, e)
    ||| !(port_type is Input) && ports.contains(es[e].target) && incoming_reversible(g, es, c, e)
}

/// An edge with source and target swapped and its reversed flag flipped.
pub open spec fn flip(e: LEdge) -> LEdge {
    LEdge { source: e.target, target: e.source, reversed: !e.reversed }
}

/// `new` holds edge `e` of `old`, flipped when `rev`.
pub open spec fn edge_as(old: &LGraph, new: &LGraph, e: int, rev: bool) -> bool {
    new.edges@[e] == if rev {
        flip(old.edges@[e])
    } else {
        old.edges@[e]
    }
}

/// The edges `es` after the edges at the ports of `node` were reversed as
/// far as the constraints allow: outgoing edges unless the port type is
/// output, incoming edges unless it is input.
pub open spec fn reverse_step(
    g: &LGraph,
    es: Seq<LEdge>,
    node: int,
    c: LayerConstraint,
    port_type: PortType,
) -> Seq<LEdge> {
    Seq::new(
        es.len(),
        |e: int|
            if reversed_at(g, es, g.nodes@[node].ports@, c, port_type, e) {
                flip(es[e])
            } else {
                es[e]
            },
    )
}

/// Only edges may differ.
pub open spec fn same_but_edges(a: &LGraph, b: &LGraph) -> bool {
    &&& a.nodes == b.nodes
    &&& a.ports == b.ports
    &&& a.layers == b.layers
    &&& a.layerless_nodes == b.layerless_nodes
    &&& a.edges@.len() == b.edges@.len()
}

/// Two graphs with the same ports and nodes that agree on everything but
/// their edge constraints: the edge reversal reads no more of them.
pub open spec fn same_frame(a: &LGraph, b: &LGraph) -> bool {
    &&& a.ports == b.ports
    &&& a.nodes@.len() == b.nodes@.len()
    &&& forall|n: int|
        #![trigger a.nodes@[n]]
        #![trigger b.nodes@[n]]
        0 <= n < a.nodes@.len() ==> same_but_edge_constraint(a.nodes@[n], b.nodes@[n])
}

/// Every edge of the list runs between ports below `k`.
pub open spec fn ends_in(es: Seq<LEdge>, k: int) -> bool {
    forall|e: int| 0 <= e < es.len() ==> #[trigger] es[e].source < k && es[e].target < k
}

/// Edge `e` leaves port `p` and may be reversed.
pub open spec fn outgoing_reversed_at(g: &LGraph, es: Seq<LEdge>, p: usize, c: LayerConstraint, e: int) -> bool {
    es[e].source == p && outgoing_reversible(g, es, c, e)
}

/// Edge `e` enters port `p` and may be reversed.
pub open spec fn incoming_reversed_at(g: &LGraph, es: Seq<LEdge>, p: usize, c: LayerConstraint, e: int) -> bool {
    es[e].target == p && incoming_reversible(g, es, c, e)
}

/// Edge `e` is among the first `k` listed edges and reversible as an
/// outgoing edge.
pub open spec fn done_outgoing(g: &LGraph, listed: Seq<usize>, k: int, c: LayerConstraint, e: int) -> bool {
    listed.take(k).contains(e as usize) && outgoing_reversible(g, g.edges@, c, e)
}

/// Edge `e` is among the first `k` listed edges and reversible as an
/// incoming edge.
pub open spec fn done_incoming(g: &LGraph, listed: Seq<usize>, k: int, c: LayerConstraint, e: int) -> bool {
    listed.take(k).contains(e as usize) && incoming_reversible(g, g.edges@, c, e)
}

/// The ports whose edges stay as they are when a node must have only the
/// given kind of edges.
pub open spec fn spec_port_type_for(ec: EdgeConstraint) -> PortType {
    match ec {
        EdgeConstraint::IncomingOnly => PortType::Input,
        EdgeConstraint::OutgoingOnly => PortType::Output,
        EdgeConstraint::Unconstrained => PortType::Undefined,
    }
}

/// The edges after a node constrained to the first or last layer had its
/// edges reversed; the edges are unchanged for an unconstrained node.
pub open spec fn outer_step(g: &LGraph, es: Seq<LEdge>, n: int) -> Seq<LEdge> {
    let c = spec_layer_constraint_of(g, n);
    match spec_edge_constraint_for(c) {
        Some(ec) => reverse_step(g, es, n, c, spec_port_type_for(ec)),
        None => es,
    }
}

/// The edges after `outer_step` was applied to the given nodes in order.
pub open spec fn outer_pass(g: &LGraph, nodes: Seq<usize>, es: Seq<LEdge>) -> Seq<LEdge>
    decreases nodes.len(),
{
    if nodes.len() == 0 {
        es
    } else {
        outer_step(g, outer_pass(g, nodes.drop_last(), es), nodes.last() as int)
    }
}

/// The nodes that no layer constraint forces to one kind of edges, in order.
pub open spec fn remaining_nodes(g: &LGraph, nodes: Seq<usize>) -> Seq<usize> {
    nodes.filter(|n: usize| spec_edge_constraint_for(spec_layer_constraint_of(g, n as int)) is None)
}

/// How many of the edges enter port `p`.
pub open spec fn count_into(es: Seq<LEdge>, p: usize) -> nat
    decreases es.len(),
{
    if es.len() == 0 {
        0
    } else {
        count_into(es.drop_last(), p) + if es.last().target == p {
            1nat
        } else {
            0nat
        }
    }
}

/// How many of the edges leave port `p`.
pub open spec fn count_out_of(es: Seq<LEdge>, p: usize) -> nat
    decreases es.len(),
{
    if es.len() == 0 {
        0
    } else {
        count_out_of(es.drop_last(), p) + if es.last().source == p {
            1nat
        } else {
            0nat
        }
    }
}

/// The port's net flow (entering minus leaving edges) points against its
/// side: into an eastern port, or out of a western one.
pub open spec fn looks_reversed(g: &LGraph, es: Seq<LEdge>, p: usize) -> bool {
    ||| g.ports@[p as int].side == PortSide::East && count_into(es, p) > count_out_of(es, p)
    ||| g.ports@[p as int].side == PortSide::West && count_into(es, p) < count_out_of(es, p)
}

/// The node is constrained to the last layer, separate or not.
pub open spec fn in_last_layer(g: &LGraph, n: Option<usize>) -> bool {
    n matches Some(t) && (spec_layer_constraint_of(g, t as int) == LayerConstraint::Last
        || spec_layer_constraint_of(g, t as int) == LayerConstraint::LastSeparate)
}

/// The node is constrained to the first layer, separate or not.
pub open spec fn in_first_layer(g: &LGraph, n: Option<usize>) -> bool {
    n matches Some(s) && (spec_layer_constraint_of(g, s as int) == LayerConstraint::First
        || spec_layer_constraint_of(g, s as int) == LayerConstraint::FirstSeparate)
}

/// Edge `e` at port `p` forbids reversing the node: it leaves `p` towards a
/// node of the last layer, or enters `p` from a node of the first layer.
pub open spec fn blocks_reversal(g: &LGraph, es: Seq<LEdge>, p: usize, e: int) -> bool {
    ||| es[e].source == p && in_last_layer(g, g.ports@[es[e].target as int].node)
    ||| es[e].target == p && in_first_layer(g, g.ports@[es[e].source as int].node)
}

/// The port looks reversed and no edge at it forbids reversing.
pub open spec fn port_reversible(g: &LGraph, es: Seq<LEdge>, p: usize) -> bool {
    &&& looks_reversed(g, es, p)
    &&& !exists|e: int| 0 <= e < es.len() && #[trigger] blocks_reversal(g, es, p, e)
}

/// Every port of the node is reversible.
pub open spec fn all_ports_reversible(g: &LGraph, es: Seq<LEdge>, n: int) -> bool {
    forall|i: int|
        0 <= i < g.nodes@[n].ports@.len() ==> #[trigger] port_reversible(
            g,
            es,
            g.nodes@[n].ports@[i],
        )
}

/// The sides of the node's ports are fixed.
pub open spec fn spec_side_fixed(g: &LGraph, n: int) -> bool {
    match g.nodes@[n].port_constraints {
        Some(pc) => pc.spec_is_side_fixed(),
        None => false,
    }
}

/// The edges after a node was handled in the second pass: a constrained
/// node is treated as in the first pass; an unconstrained one with ports on
/// fixed sides that all look reversed has all its reversible edges reversed.
pub open spec fn inner_step(g: &LGraph, es: Seq<LEdge>, n: int) -> Seq<LEdge> {
    let c = spec_layer_constraint_of(g, n);
    match spec_edge_constraint_for(c) {
        Some(ec) => reverse_step(g, es, n, c, spec_port_type_for(ec)),
        None => if g.nodes@[n].ports@.len() > 0 && spec_side_fixed(g, n) && all_ports_reversible(
            g,
            es,
            n,
        ) {
            reverse_step(g, es, n, c, PortType::Undefined)
        } else {
            es
        },
    }
}

/// The edges after `inner_step` was applied to the given nodes in order.
pub open spec fn inner_pass(g: &LGraph, nodes: Seq<usize>, es: Seq<LEdge>) -> Seq<LEdge>
    decreases nodes.len(),
{
    if nodes.len() == 0 {
        es
    } else {
        inner_step(g, inner_pass(g, nodes.drop_last(), es), nodes.last() as int)
    }
}

/// The node is listed and constrained to the first or last layer; such
/// nodes get the edge constraint recorded.
pub open spec fn marked(g: &LGraph, nodes: Seq<usize>, n: usize) -> bool {
    nodes.contains(n) && spec_edge_constraint_for(spec_layer_constraint_of(g, n as int)) is Some
}

/// Two nodes agree on everything but their edge constraint.
pub open spec fn same_but_edge_constraint(a: LNode, b: LNode) -> bool {
    &&& a.node_type == b.node_type
    &&& a.ports == b.ports
    &&& a.layer == b.layer
    &&& a.id == b.id
    &&& a.layer_constraint == b.layer_constraint
    &&& a.in_layer_constraint == b.in_layer_constraint
    &&& a.port_constraints == b.port_constraints
    &&& a.origin == b.origin
    &&& a.in_layer_layout_unit == b.in_layer_layout_unit
    &&& a.in_layer_successor_constraints == b.in_layer_successor_constraints
    &&& a.ext_port_side == b.ext_port_side
    &&& a.layer_id == b.layer_id
    &&& a.position_id == b.position_id
    &&& a.long_edge_source == b.long_edge_source
    &&& a.long_edge_target == b.long_edge_target
    &&& a.long_edge_has_label_dummies == b.long_edge_has_label_dummies
    &&& a.long_edge_before_label_dummy == b.long_edge_before_label_dummy
    &&& a.layer_split == b.layer_split
    &&& a.reset_on_long_edges == b.reset_on_long_edges
    &&& a.minimize_edge_length == b.minimize_edge_length
    &&& a.breaking_point_info == b.breaking_point_info
    &&& a.comment_box == b.comment_box
    &&& a.comment_conn_port == b.comment_conn_port
    &&& a.alignment == b.alignment
    &&& a.label_placement == b.label_placement
    &&& a.ext_port_replaced_dummy == b.ext_port_replaced_dummy
    &&& a.represented_labels == b.represented_labels
}

/// The layer constraint of a node, unconstrained when unset.
pub fn layer_constraint_of(g: &LGraph, n: usize) -> (res: LayerConstraint)
    requires
        n < g.nodes@.len(),
    ensures
        res == spec_layer_constraint_of(g, n as int),
{
    match g.nodes[n].layer_constraint {
        Some(c) => c,
        None => LayerConstraint::Unconstrained,
    }
}

/// The edge constraint that a layer constraint imposes.
pub fn edge_constraint_for(c: LayerConstraint) -> (res: Option<EdgeConstraint>)
    ensures
        res == spec_edge_constraint_for(c),
{
    match c {
        LayerConstraint::First | LayerConstraint::FirstSeparate => Some(EdgeConstraint::OutgoingOnly),
        LayerConstraint::Last | LayerConstraint::LastSeparate => Some(EdgeConstraint::IncomingOnly),
        LayerConstraint::Unconstrained => None,
    }
}

/// Whether an outgoing edge of a node with the given constraint may be reversed.
pub fn can_reverse_outgoing_edge(g: &LGraph, source_constraint: LayerConstraint, e: usize) -> (res:
    bool)
    requires
        g.wf(),
        e < g.edges@.len(),
    ensures
        res == outgoing_reversible(g, g.edges@, source_constraint, e as int),
{
    if g.edges[e].reversed {
        return false;
    }
    assert(g.edges@[e as int].source < g.ports@.len());
    let tp = g.edges[e].target;
    let target_node = g.ports[tp].node;
    assert(g.ports@[tp as int].node matches Some(n) ==> n < g.nodes@.len());
    match target_node {
        Some(t) => {
            if source_constraint == LayerConstraint::Last && g.nodes[t].node_type
                == NodeType::Label {
                return false;
            }
            layer_constraint_of(g, t) != LayerConstraint::LastSeparate
        },
        None => false,
    }
}

/// Whether an incoming edge of a node with the given constraint may be reversed.
pub fn can_reverse_incoming_edge(g: &LGraph, target_constraint: LayerConstraint, e: usize) -> (res:
    bool)
    requires
        g.wf(),
        e < g.edges@.len(),
    ensures
        res == incoming_reversible(g, g.edges@, target_constraint, e as int),
{
    if g.edges[e].reversed {
        return false;
    }
    assert(g.edges@[e as int].source < g.ports@.len());
    let sp = g.edges[e].source;
    let source_node = g.ports[sp].node;
    assert(g.ports@[sp as int].node matches Some(n) ==> n < g.nodes@.len());
    match source_node {
        Some(s) => {
            if target_constraint == LayerConstraint::First && g.nodes[s].node_type
                == NodeType::Label {
                return false;
            }
            layer_constraint_of(g, s) != LayerConstraint::FirstSeparate
        },
        None => false,
    }
}

/// Swaps source and target of an edge and flips its reversed flag.
pub fn reverse_edge(g: &mut LGraph, e: usize)
    requires
        old(g).wf(),
        e < old(g).edges@.len(),
    ensures
        final(g).wf(),
        same_but_edges(old(g), final(g)),
        edge_as(old(g), final(g), e as int, true),
        forall|f: int| 0 <= f < old(g).edges@.len() && f != e ==> #[trigger] final(g).edges@[f]
            == old(g).edges@[f],
{
    let source = g.edges[e].source;
    let target = g.edges[e].target;
    let reversed = g.edges[e].reversed;
    g.edges[e].source = target;
    g.edges[e].target = source;
    g.edges[e].reversed = !reversed;
}

/// The edges of `g` whose ends lie on `p`: every edge in the list has the
/// port as source (or target), and every such edge is in the list.
pub proof fn lemma_port_edges(g: &LGraph, p: usize)
    ensures
        forall|e: usize| #[trigger] g.outgoing_of(p as int).contains(e) <==> (e < g.edges@.len()
            && g.edges@[e as int].source == p),
        forall|e: usize| #[trigger] g.incoming_of(p as int).contains(e) <==> (e < g.edges@.len()
            && g.edges@[e as int].target == p),
{
    let all = Seq::new(g.edges@.len(), |e: int| e as usize);
    let po = |e: usize| g.edges@[e as int].source == p;
    let pi = |e: usize| g.edges@[e as int].target == p;
    assert forall|e: usize| #[trigger] g.outgoing_of(p as int).contains(e) <==> (e < g.edges@.len()
        && g.edges@[e as int].source == p) by {
        if g.outgoing_of(p as int).contains(e) {
            all.lemma_filter_contains_rev(po, e);
            lemma_filter_facts(all, po);
        }
        if e < g.edges@.len() && g.edges@[e as int].source == p {
            assert(all[e as int] == e);
            all.lemma_filter_contains(po, e as int);
        }
    }
    assert forall|e: usize| #[trigger] g.incoming_of(p as int).contains(e) <==> (e < g.edges@.len()
        && g.edges@[e as int].target == p) by {
        if g.incoming_of(p as int).contains(e) {
            all.lemma_filter_contains_rev(pi, e);
            lemma_filter_facts(all, pi);
        }
        if e < g.edges@.len() && g.edges@[e as int].target == p {
            assert(all[e as int] == e);
            all.lemma_filter_contains(pi, e as int);
        }
    }
}

/// Reverses the reversible outgoing edges of port `p`.
fn reverse_outgoing_of_port(g: &mut LGraph, p: usize, c: LayerConstraint)
    requires
        old(g).wf(),
        p < old(g).ports@.len(),
    ensures
        final(g).wf(),
        same_but_edges(old(g), final(g)),
        forall|e: int|
            0 <= e < old(g).edges@.len() ==> #[trigger] edge_as(
                old(g),
                final(g),
                e,
                outgoing_reversed_at(old(g), old(g).edges@, p, c, e),
            ),
{
    let ghost g0 = *g;
    let outgoing = g.outgoing_edges(p);
    proof {
        lemma_port_edges(g, p);
        reveal_outgoing_no_dup(g, p);
    }
    let mut k: usize = 0;
    while k < outgoing.len()
        invariant
            g0.wf(),
            g.wf(),
            same_but_edges(&g0, g),
            outgoing@.no_duplicates(),
            forall|e: usize| #[trigger] outgoing@.contains(e) <==> (e < g0.edges@.len()
                && g0.edges@[e as int].source == p),
            k <= outgoing@.len(),
            forall|e: int|
                0 <= e < g0.edges@.len() ==> #[trigger] edge_as(
                    &g0,
                    g,
                    e,
                    done_outgoing(&g0, outgoing@, k as int, c, e),
                ),
        decreases outgoing@.len() - k,
    {
        let e = outgoing[k];
        assert(outgoing@.contains(e));
        assert(outgoing@.take(k as int + 1) == outgoing@.take(k as int).push(e));
        assert(!outgoing@.take(k as int).contains(e)) by {
            if outgoing@.take(k as int).contains(e) {
                let j = choose|j: int| 0 <= j < k && outgoing@.take(k as int)[j] == e;
                assert(outgoing@[j] == outgoing@[k as int]);
            }
        }
        assert(edge_as(&g0, g, e as int, done_outgoing(&g0, outgoing@, k as int, c, e as int)));
        let ghost g1 = *g;
        let rev = can_reverse_outgoing_edge(g, c, e);
        if rev {
            reverse_edge(g, e);
        }
        assert forall|f: int| 0 <= f < g0.edges@.len() implies #[trigger] edge_as(
            &g0,
            g,
            f,
            done_outgoing(&g0, outgoing@, k as int + 1, c, f),
        ) by {
            assert(edge_as(&g0, &g1, f, done_outgoing(&g0, outgoing@, k as int, c, f)));
            if f != e as int {
                assert(outgoing@.take(k as int + 1).contains(f as usize)
                    == outgoing@.take(k as int).contains(f as usize));
                assert(g.edges@[f] == g1.edges@[f]);
            } else {
                assert(outgoing@.take(k as int + 1)[k as int] == e);
                assert(outgoing@.take(k as int + 1).contains(f as usize));
            }
        }
        k += 1;
    }
    assert(outgoing@.take(outgoing@.len() as int) == outgoing@);
    assert forall|e: int| 0 <= e < g0.edges@.len() implies #[trigger] edge_as(
        &g0,
        g,
        e,
        outgoing_reversed_at(&g0, g0.edges@, p, c, e),
    ) by {
        assert(edge_as(&g0, g, e, done_outgoing(&g0, outgoing@, k as int, c, e)));
        assert(outgoing@.contains(e as usize) == (g0.edges@[e].source == p));
    }
}

/// Reverses the reversible incoming edges of port `p`.
fn reverse_incoming_of_port(g: &mut LGraph, p: usize, c: LayerConstraint)
    requires
        old(g).wf(),
        p < old(g).ports@.len(),
    ensures
        final(g).wf(),
        same_but_edges(old(g), final(g)),
        forall|e: int|
            0 <= e < old(g).edges@.len() ==> #[trigger] edge_as(
                old(g),
                final(g),
                e,
                incoming_reversed_at(old(g), old(g).edges@, p, c, e),
            ),
{
    let ghost g0 = *g;
    let incoming = g.incoming_edges(p);
    proof {
        lemma_port_edges(g, p);
        reveal_incoming_no_dup(g, p);
    }
    let mut k: usize = 0;
    while k < incoming.len()
        invariant
            g0.wf(),
            g.wf(),
            same_but_edges(&g0, g),
            incoming@.no_duplicates(),
            forall|e: usize| #[trigger] incoming@.contains(e) <==> (e < g0.edges@.len()
                && g0.edges@[e as int].target == p),
            k <= incoming@.len(),
            forall|e: int|
                0 <= e < g0.edges@.len() ==> #[trigger] edge_as(
                    &g0,
                    g,
                    e,
                    done_incoming(&g0, incoming@, k as int, c, e),
                ),
        decreases incoming@.len() - k,
    {
        let e = incoming[k];
        assert(incoming@.contains(e));
        assert(incoming@.take(k as int + 1) == incoming@.take(k as int).push(e));
        assert(!incoming@.take(k as int).contains(e)) by {
            if incoming@.take(k as int).contains(e) {
                let j = choose|j: int| 0 <= j < k && incoming@.take(k as int)[j] == e;
                assert(incoming@[j] == incoming@[k as int]);
            }
        }
        assert(edge_as(&g0, g, e as int, done_incoming(&g0, incoming@, k as int, c, e as int)));
        let ghost g1 = *g;
        let rev = can_reverse_incoming_edge(g, c, e);
        if rev {
            reverse_edge(g, e);
        }
        assert forall|f: int| 0 <= f < g0.edges@.len() implies #[trigger] edge_as(
            &g0,
            g,
            f,
            done_incoming(&g0, incoming@, k as int + 1, c, f),
        ) by {
            assert(edge_as(&g0, &g1, f, done_incoming(&g0, incoming@, k as int, c, f)));
            if f != e as int {
                assert(incoming@.take(k as int + 1).contains(f as usize)
                    == incoming@.take(k as int).contains(f as usize));
                assert(g.edges@[f] == g1.edges@[f]);
            } else {
                assert(incoming@.take(k as int + 1)[k as int] == e);
                assert(incoming@.take(k as int + 1).contains(f as usize));
            }
        }
        k += 1;
    }
    assert(incoming@.take(incoming@.len() as int) == incoming@);
    assert forall|e: int| 0 <= e < g0.edges@.len() implies #[trigger] edge_as(
        &g0,
        g,
        e,
        incoming_reversed_at(&g0, g0.edges@, p, c, e),
    ) by {
        assert(edge_as(&g0, g, e, done_incoming(&g0, incoming@, k as int, c, e)));
        assert(incoming@.contains(e as usize) == (g0.edges@[e].target == p));
    }
}

/// Reverses the reversible edges of the node's ports: outgoing ones for
/// input or undefined port types, incoming ones for output or undefined.
pub fn reverse_edges(
    g: &mut LGraph,
    node: usize,
    node_layer_constraint: LayerConstraint,
    target_port_type: PortType,
)
    requires
        old(g).wf(),
        node < old(g).nodes@.len(),
    ensures
        final(g).wf(),
        same_but_edges(old(g), final(g)),
        forall|e: int|
            0 <= e < old(g).edges@.len() ==> #[trigger] edge_as(
                old(g),
                final(g),
                e,
                reversed_at(
                    old(g),
                    old(g).edges@,
                    old(g).nodes@[node as int].ports@,
                    node_layer_constraint,
                    target_port_type,
                    e,
                ),
            ),
        final(g).edges@ == reverse_step(
            old(g),
            old(g).edges@,
            node as int,
            node_layer_constraint,
            target_port_type,
        ),
{
    let ghost old_g = *g;
    let ports = copy_ports(&g.nodes[node].ports);
    let ghost ps = ports@;
    let c = node_layer_constraint;
    let t = target_port_type;
    let mut i: usize = 0;
    assert(ps.take(0) == Seq::<usize>::empty());
    assert forall|e: int| 0 <= e < old_g.edges@.len() implies #[trigger] edge_as(
        &old_g,
        g,
        e,
        reversed_at(&old_g, old_g.edges@, ps.take(0), c, t, e),
    ) by {}
    while i < ports.len()
        invariant
            old_g.wf(),
            g.wf(),
            node < old_g.nodes@.len(),
            ps == ports@,
            ps == old_g.nodes@[node as int].ports@,
            same_but_edges(&old_g, g),
            i <= ps.len(),
            forall|e: int|
                0 <= e < old_g.edges@.len() ==> #[trigger] edge_as(
                    &old_g,
                    g,
                    e,
                    reversed_at(&old_g, old_g.edges@, ps.take(i as int), c, t, e),
                ),
        decreases ps.len() - i,
    {
        let p = ports[i];
        let ghost before = ps.take(i as int);
        let ghost after = ps.take(i as int + 1);
        assert(after == before.push(p));
        assert(p < g.ports@.len());
        let ghost g1 = *g;
        assert forall|e: int| 0 <= e < old_g.edges@.len() implies #[trigger] edge_as(
            &old_g,
            &g1,
            e,
            reversed_at(&old_g, old_g.edges@, before, c, t, e),
        ) by {
            assert(edge_as(&old_g, g, e, reversed_at(&old_g, old_g.edges@, ps.take(i as int), c, t, e)));
        }
        if t == PortType::Input || t == PortType::Undefined {
            reverse_outgoing_of_port(g, p, c);
        }
        let ghost g2 = *g;
        if t == PortType::Output || t == PortType::Undefined {
            reverse_incoming_of_port(g, p, c);
        }
        assert forall|e: int| 0 <= e < old_g.edges@.len() implies #[trigger] edge_as(
            &old_g,
            g,
            e,
            reversed_at(&old_g, old_g.edges@, after, c, t, e),
        ) by {
            assert(edge_as(&old_g, &g1, e, reversed_at(&old_g, old_g.edges@, before, c, t, e)));
            let r0 = reversed_at(&old_g, old_g.edges@, before, c, t, e);
            let r1 = !(t is Output) && outgoing_reversed_at(&g1, g1.edges@, p, c, e);
            if !(t is Output) {
                assert(edge_as(&g1, &g2, e, outgoing_reversed_at(&g1, g1.edges@, p, c, e)));
            } else {
                assert(g2 == g1);
            }
            let r2 = !(t is Input) && incoming_reversed_at(&g2, g2.edges@, p, c, e);
            if !(t is Input) {
                assert(edge_as(&g2, g, e, incoming_reversed_at(&g2, g2.edges@, p, c, e)));
            } else {
                assert(*g == g2);
            }
            lemma_push_contains(before, p, old_g.edges@[e].source);
            lemma_push_contains(before, p, old_g.edges@[e].target);
            if r0 {
                assert(!r1);
                assert(!r2);
            } else if r1 {
                assert(!r2);
            }
        }
        i += 1;
    }
    assert(ps.take(ps.len() as int) == ps);
    assert forall|e: int| 0 <= e < old_g.edges@.len() implies g.edges@[e] == reverse_step(
        &old_g,
        old_g.edges@,
        node as int,
        c,
        t,
    )[e] by {
        assert(edge_as(&old_g, g, e, reversed_at(&old_g, old_g.edges@, ps, c, t, e)));
    }
    assert(g.edges@ =~= reverse_step(&old_g, old_g.edges@, node as int, c, t));
}

/// The ports whose edges stay as they are when a node must have only the
/// given kind of edges.
pub fn port_type_for(ec: EdgeConstraint) -> (res: PortType)
    ensures
        res == spec_port_type_for(ec),
{
    match ec {
        EdgeConstraint::IncomingOnly => PortType::Input,
        EdgeConstraint::OutgoingOnly => PortType::Output,
        EdgeConstraint::Unconstrained => PortType::Undefined,
    }
}

/// Reversing edges depends on the graph's nodes and ports only through
/// what the two graphs share.
proof fn lemma_reverse_step_congruent(
    a: &LGraph,
    b: &LGraph,
    es: Seq<LEdge>,
    n: int,
    c: LayerConstraint,
    t: PortType,
)
    requires
        same_frame(a, b),
        a.wf(),
        ends_in(es, a.ports@.len() as int),
        0 <= n < a.nodes@.len(),
    ensures
        reverse_step(a, es, n, c, t) == reverse_step(b, es, n, c, t),
{
    assert forall|e: int| 0 <= e < es.len() implies reversed_at(a, es, a.nodes@[n].ports@, c, t, e)
        == reversed_at(b, es, b.nodes@[n].ports@, c, t, e) by {}
    assert(reverse_step(a, es, n, c, t) =~= reverse_step(b, es, n, c, t));
}

/// Whether the port looks reversed and no edge at it forbids reversing.
fn port_reversible_exec(g: &LGraph, p: usize) -> (res: bool)
    requires
        g.wf(),
        p < g.ports@.len(),
    ensures
        res == port_reversible(g, g.edges@, p),
{
    let ghost es = g.edges@;
    let mut into: usize = 0;
    let mut out: usize = 0;
    let mut blocked = false;
    let mut e: usize = 0;
    while e < g.edges.len()
        invariant
            g.wf(),
            p < g.ports@.len(),
            es == g.edges@,
            e <= es.len(),
            into as nat == count_into(es.take(e as int), p),
            out as nat == count_out_of(es.take(e as int), p),
            into <= e,
            out <= e,
            blocked == exists|f: int| 0 <= f < e && #[trigger] blocks_reversal(g, es, p, f),
        decreases es.len() - e,
    {
        assert(es.take(e as int + 1).drop_last() == es.take(e as int));
        assert(es.take(e as int + 1).last() == es[e as int]);
        assert(g.edges@[e as int].source < g.ports@.len());
        let src = g.edges[e].source;
        let tgt = g.edges[e].target;
        let mut here = false;
        if src == p {
            out = out + 1;
            let tn = g.ports[tgt].node;
            assert(g.ports@[tgt as int].node matches Some(n) ==> n < g.nodes@.len());
            match tn {
                Some(t) => {
                    let tc = layer_constraint_of(g, t);
                    if tc == LayerConstraint::Last || tc == LayerConstraint::LastSeparate {
                        here = true;
                    }
                },
                None => {},
            }
        }
        if tgt == p {
            into = into + 1;
            let sn = g.ports[src].node;
            assert(g.ports@[src as int].node matches Some(n) ==> n < g.nodes@.len());
            match sn {
                Some(s) => {
                    let sc = layer_constraint_of(g, s);
                    if sc == LayerConstraint::First || sc == LayerConstraint::FirstSeparate {
                        here = true;
                    }
                },
                None => {},
            }
        }
        assert(here == blocks_reversal(g, es, p, e as int));
        proof {
            if blocked {
                let f = choose|f: int| 0 <= f < e && #[trigger] blocks_reversal(g, es, p, f);
                assert(0 <= f < e + 1 && blocks_reversal(g, es, p, f));
            }
            if here {
                assert(0 <= e < e + 1 && blocks_reversal(g, es, p, e as int));
            }
        }
        blocked = blocked || here;
        e += 1;
    }
    assert(es.take(es.len() as int) == es);
    let side = g.ports[p].side;
    let looks = (side == PortSide::East && into > out) || (side == PortSide::West && into < out);
    looks && !blocked
}

/// Whether every port of the node is reversible.
fn all_ports_reversible_exec(g: &LGraph, n: usize) -> (res: bool)
    requires
        g.wf(),
        n < g.nodes@.len(),
    ensures
        res == all_ports_reversible(g, g.edges@, n as int),
{
    let mut i: usize = 0;
    while i < g.nodes[n].ports.len()
        invariant
            g.wf(),
            n < g.nodes@.len(),
            i <= g.nodes@[n as int].ports@.len(),
            forall|j: int| 0 <= j < i ==> #[trigger] port_reversible(
                g,
                g.edges@,
                g.nodes@[n as int].ports@[j],
            ),
        decreases g.nodes@[n as int].ports@.len() - i,
    {
        let p = g.nodes[n].ports[i];
        assert(g.nodes@[n as int].ports@[i as int] < g.ports@.len());
        if !port_reversible_exec(g, p) {
            return false;
        }
        i += 1;
    }
    true
}

/// Reverses the edges of the nodes constrained to the first or last layer,
/// in the order of the layerless nodes, each of which records the
/// outgoing-only edge constraint, and returns the other nodes.
fn handle_outer_nodes(g: &mut LGraph) -> (remaining: Vec<usize>)
    requires
        old(g).wf(),
    ensures
        final(g).wf(),
        final(g).ports == old(g).ports,
        final(g).layers == old(g).layers,
        final(g).layerless_nodes == old(g).layerless_nodes,
        final(g).edges@.len() == old(g).edges@.len(),
        final(g).nodes@.len() == old(g).nodes@.len(),
        forall|n: usize|
            n < old(g).nodes@.len() ==> {
                &&& same_but_edge_constraint(#[trigger] final(g).nodes@[n as int], old(g).nodes@[n as int])
                &&& final(g).nodes@[n as int].edge_constraint == if marked(old(g), old(g).layerless_nodes@, n) {
                    Some(EdgeConstraint::OutgoingOnly)
                } else {
                    old(g).nodes@[n as int].edge_constraint
                }
            },
        final(g).edges@ == outer_pass(old(g), old(g).layerless_nodes@, old(g).edges@),
        remaining@ == remaining_nodes(old(g), old(g).layerless_nodes@),
{
    let ghost g0 = *g;
    let ghost ls = g.layerless_nodes@;
    let mut remaining: Vec<usize> = Vec::new();
    let mut i: usize = 0;
    assert(ls.take(0) == Seq::<usize>::empty());
    assert(remaining_nodes(&g0, ls.take(0)) =~= Seq::<usize>::empty());
    while i < g.layerless_nodes.len()
        invariant
            g0.wf(),
            g.wf(),
            g.ports == g0.ports,
            g.layers == g0.layers,
            g.layerless_nodes == g0.layerless_nodes,
            g.edges@.len() == g0.edges@.len(),
            g.nodes@.len() == g0.nodes@.len(),
            forall|n: usize|
                n < g0.nodes@.len() ==> {
                    &&& same_but_edge_constraint(#[trigger] g.nodes@[n as int], g0.nodes@[n as int])
                    &&& g.nodes@[n as int].edge_constraint == if marked(&g0, ls.take(i as int), n) {
                        Some(EdgeConstraint::OutgoingOnly)
                    } else {
                        g0.nodes@[n as int].edge_constraint
                    }
                },
            ls == g0.layerless_nodes@,
            i <= ls.len(),
            g.edges@ == outer_pass(&g0, ls.take(i as int), g0.edges@),
            remaining@ == remaining_nodes(&g0, ls.take(i as int)),
        decreases ls.len() - i,
    {
        let n = g.layerless_nodes[i];
        assert(ls.take(i as int + 1) == ls.take(i as int).push(n));
        assert(ls.take(i as int + 1).drop_last() == ls.take(i as int));
        proof {
            ls.take(i as int).lemma_filter_push(
                n,
                |m: usize| spec_edge_constraint_for(spec_layer_constraint_of(&g0, m as int)) is None,
            );
        }
        let c = layer_constraint_of(g, n);
        assert(c == spec_layer_constraint_of(&g0, n as int));
        let ghost gb = *g;
        match edge_constraint_for(c) {
            Some(ec) => {
                g.nodes[n].edge_constraint = Some(EdgeConstraint::OutgoingOnly);
                let ghost g1 = *g;
                proof {
                    assert forall|x: int, j: int| 0 <= x < g.nodes@.len() && 0 <= j < g.nodes@[x].ports@.len() implies {
                        &&& #[trigger] g.nodes@[x].ports@[j] < g.ports@.len()
                        &&& g.ports@[g.nodes@[x].ports@[j] as int].node == Some(x as usize)
                    } by {
                        assert(g.nodes@[x].ports == gb.nodes@[x].ports);
                    }
                    assert forall|k: int, j: int| 0 <= k < g.layers@.len() && 0 <= j < g.layers@[k]@.len() implies {
                        &&& #[trigger] g.layers@[k]@[j] < g.nodes@.len()
                        &&& g.nodes@[g.layers@[k]@[j] as int].layer == Some(k as usize)
                    } by {
                        assert(gb.layers@[k]@[j] < gb.nodes@.len());
                    }
                }
                reverse_edges(g, n, c, port_type_for(ec));
                proof {
                    assert(same_frame(&g1, &g0)) by {
                        assert forall|x: int| 0 <= x < g1.nodes@.len() implies same_but_edge_constraint(g1.nodes@[x], g0.nodes@[x]) by {
                            assert(g0.nodes@.len() == g0.nodes.len());
                            let xu = x as usize;
                            assert(xu as int == x);
                            assert(same_but_edge_constraint(gb.nodes@[xu as int], g0.nodes@[xu as int]));
                        }
                    }
                    lemma_reverse_step_congruent(&g1, &g0, g1.edges@, n as int, c, spec_port_type_for(ec));
                }
            },
            None => {
                remaining.push(n);
            },
        }
        proof {
            assert forall|m: usize| m < g0.nodes@.len() implies {
                &&& same_but_edge_constraint(#[trigger] g.nodes@[m as int], g0.nodes@[m as int])
                &&& g.nodes@[m as int].edge_constraint == if marked(&g0, ls.take(i as int + 1), m) {
                    Some(EdgeConstraint::OutgoingOnly)
                } else {
                    g0.nodes@[m as int].edge_constraint
                }
            } by {
                lemma_push_contains(ls.take(i as int), n, m);
                assert(same_but_edge_constraint(gb.nodes@[m as int], g0.nodes@[m as int]));
            }
        }
        i += 1;
    }
    assert(ls.take(ls.len() as int) == ls);
    remaining
}

/// Reverses all reversible edges of each unconstrained node whose ports sit
/// on fixed sides and all look reversed; constrained nodes are handled as
/// in the first pass.
fn handle_inner_nodes(g: &mut LGraph, nodes: &Vec<usize>)
    requires
        old(g).wf(),
        forall|i: int| 0 <= i < nodes@.len() ==> #[trigger] nodes@[i] < old(g).nodes@.len(),
    ensures
        final(g).wf(),
        same_but_edges(old(g), final(g)),
        final(g).edges@ == inner_pass(old(g), nodes@, old(g).edges@),
{
    let ghost g0 = *g;
    let mut i: usize = 0;
    assert(nodes@.take(0) == Seq::<usize>::empty());
    while i < nodes.len()
        invariant
            g0.wf(),
            g.wf(),
            same_but_edges(&g0, g),
            forall|j: int| 0 <= j < nodes@.len() ==> #[trigger] nodes@[j] < g0.nodes@.len(),
            i <= nodes@.len(),
            g.edges@ == inner_pass(&g0, nodes@.take(i as int), g0.edges@),
        decreases nodes@.len() - i,
    {
        let n = nodes[i];
        assert(nodes@.take(i as int + 1).drop_last() == nodes@.take(i as int));
        assert(nodes@.take(i as int + 1).last() == n);
        let c = layer_constraint_of(g, n);
        let ghost g1 = *g;
        match edge_constraint_for(c) {
            Some(ec) => {
                reverse_edges(g, n, c, port_type_for(ec));
                proof {
                    lemma_reverse_step_congruent(&g1, &g0, g1.edges@, n as int, c, spec_port_type_for(ec));
                }
            },
            None => {
                if g.nodes[n].ports.len() > 0 {
                    let fixed = match g.nodes[n].port_constraints {
                        Some(pc) => pc.is_side_fixed(),
                        None => false,
                    };
                    if fixed {
                        if all_ports_reversible_exec(g, n) {
                            reverse_edges(g, n, c, PortType::Undefined);
                            proof {
                                lemma_reverse_step_congruent(&g1, &g0, g1.edges@, n as int, c, PortType::Undefined);
                            }
                        }
                    }
                }
                proof {
                    lemma_all_ports_congruent(&g1, &g0, g1.edges@, n as int);
                }
            },
        }
        i += 1;
    }
    assert(nodes@.take(nodes@.len() as int) == nodes@);
}

/// Reverses edges so that nodes constrained to the first (last) layer have
/// only outgoing (incoming) edges, and flips the edges of nodes whose fixed
/// port sides show that all their edges point the wrong way.
pub struct EdgeAndLayerConstraintEdgeReverser;

impl EdgeAndLayerConstraintEdgeReverser {
    /// Runs both passes over the layerless nodes: the constrained nodes
    /// first, each of which records the outgoing-only edge constraint, then
    /// the others.
    pub fn process(&self, g: &mut LGraph)
        requires
            old(g).wf(),
        ensures
            final(g).wf(),
            final(g).ports == old(g).ports,
            final(g).layers == old(g).layers,
            final(g).layerless_nodes == old(g).layerless_nodes,
            final(g).edges@ == inner_pass(
                old(g),
                remaining_nodes(old(g), old(g).layerless_nodes@),
                outer_pass(old(g), old(g).layerless_nodes@, old(g).edges@),
            ),
            final(g).nodes@.len() == old(g).nodes@.len(),
            forall|n: usize|
                n < old(g).nodes@.len() ==> {
                    &&& same_but_edge_constraint(
                        #[trigger] final(g).nodes@[n as int],
                        old(g).nodes@[n as int],
                    )
                    &&& final(g).nodes@[n as int].edge_constraint == if marked(
                        old(g),
                        old(g).layerless_nodes@,
                        n,
                    ) {
                        Some(EdgeConstraint::OutgoingOnly)
                    } else {
                        old(g).nodes@[n as int].edge_constraint
                    }
                },
    {
        let ghost g0 = *g;
        let remaining = handle_outer_nodes(g);
        proof {
            assert forall|i: int| 0 <= i < remaining@.len() implies #[trigger] remaining@[i]
                < g.nodes@.len() by {
                let pred = |m: usize| spec_edge_constraint_for(spec_layer_constraint_of(&g0, m as int)) is None;
                lemma_filter_facts(g0.layerless_nodes@, pred);
                assert(g0.layerless_nodes@.filter(pred).contains(remaining@[i]));
                g0.layerless_nodes@.lemma_filter_contains_rev(pred, remaining@[i]);
            }
        }
        let ghost g1 = *g;
        handle_inner_nodes(g, &remaining);
        proof {
            assert(inner_pass(&g1, remaining@, g1.edges@) == inner_pass(&g0, remaining@, g1.edges@)) by {
                assert forall|x: int| 0 <= x < g1.nodes@.len() implies same_but_edge_constraint(g1.nodes@[x], g0.nodes@[x]) by {
                    assert(g0.nodes@.len() == g0.nodes.len());
                    let xu = x as usize;
                    assert(xu as int == x);
                    assert(same_but_edge_constraint(g1.nodes@[xu as int], g0.nodes@[xu as int]));
                }
                lemma_inner_pass_congruent(&g1, &g0, remaining@, g1.edges@);
            }
        }
    }
}

/// Whether all ports of a node are reversible depends on the graph's nodes
/// and ports only through what the two graphs share.
proof fn lemma_all_ports_congruent(a: &LGraph, b: &LGraph, es: Seq<LEdge>, n: int)
    requires
        same_frame(a, b),
        a.wf(),
        ends_in(es, a.ports@.len() as int),
        0 <= n < a.nodes@.len(),
    ensures
        all_ports_reversible(a, es, n) == all_ports_reversible(b, es, n),
{
    assert forall|p: usize| port_reversible(a, es, p) == port_reversible(b, es, p) by {
        assert forall|e: int| 0 <= e < es.len() implies blocks_reversal(a, es, p, e) == blocks_reversal(b, es, p, e) by {}
    }
}

/// Reversing edges keeps their ends among the same ports.
proof fn lemma_reverse_step_ends(g: &LGraph, es: Seq<LEdge>, n: int, c: LayerConstraint, t: PortType, k: int)
    requires
        ends_in(es, k),
    ensures
        ends_in(reverse_step(g, es, n, c, t), k),
{
    let r = reverse_step(g, es, n, c, t);
    assert(r.len() == es.len());
    assert forall|e: int| 0 <= e < r.len() implies #[trigger] r[e].source < k && r[e].target < k by {
        assert(0 <= e < es.len());
        let x = es[e];
        assert(x.source < k && x.target < k);
        assert(r[e] == flip(x) || r[e] == x);
    }
}

/// The second pass keeps the edges' ends among the same ports.
proof fn lemma_inner_pass_ends(g: &LGraph, nodes: Seq<usize>, es: Seq<LEdge>, k: int)
    requires
        ends_in(es, k),
    ensures
        ends_in(inner_pass(g, nodes, es), k),
    decreases nodes.len(),
{
    if nodes.len() > 0 {
        lemma_inner_pass_ends(g, nodes.drop_last(), es, k);
        let prev = inner_pass(g, nodes.drop_last(), es);
        let n = nodes.last() as int;
        let c = spec_layer_constraint_of(g, n);
        lemma_reverse_step_ends(g, prev, n, c, PortType::Undefined, k);
        match spec_edge_constraint_for(c) {
            Some(ec) => {
                lemma_reverse_step_ends(g, prev, n, c, spec_port_type_for(ec), k);
            },
            None => {},
        }
    }
}

/// The second pass depends on the graph's nodes and ports only through
/// what the two graphs share.
proof fn lemma_inner_pass_congruent(a: &LGraph, b: &LGraph, nodes: Seq<usize>, es: Seq<LEdge>)
    requires
        same_frame(a, b),
        a.wf(),
        ends_in(es, a.ports@.len() as int),
        forall|i: int| 0 <= i < nodes.len() ==> #[trigger] nodes[i] < a.nodes@.len(),
    ensures
        inner_pass(a, nodes, es) == inner_pass(b, nodes, es),
    decreases nodes.len(),
{
    if nodes.len() > 0 {
        assert forall|i: int| 0 <= i < nodes.drop_last().len() implies #[trigger] nodes.drop_last()[i] < a.nodes@.len() by {
            assert(nodes.drop_last()[i] == nodes[i]);
        }
        lemma_inner_pass_congruent(a, b, nodes.drop_last(), es);
        let prev = inner_pass(a, nodes.drop_last(), es);
        lemma_inner_pass_ends(a, nodes.drop_last(), es, a.ports@.len() as int);
        let n = nodes.last() as int;
        let c = spec_layer_constraint_of(a, n);
        lemma_reverse_step_congruent(a, b, prev, n, c, PortType::Undefined);
        lemma_all_ports_congruent(a, b, prev, n);
        match spec_edge_constraint_for(c) {
            Some(ec) => {
                lemma_reverse_step_congruent(a, b, prev, n, c, spec_port_type_for(ec));
            },
            None => {},
        }
    }
}

/// An element lies in `s.push(v)` exactly when it lies in `s` or is `v`.
proof fn lemma_push_contains(s: Seq<usize>, v: usize, x: usize)
    ensures
        s.push(v).contains(x) == (s.contains(x) || x == v),
{
    if s.contains(x) {
        let j = choose|j: int| 0 <= j < s.len() && s[j] == x;
        assert(s.push(v)[j] == x);
    }
    if x == v {
        assert(s.push(v)[s.len() as int] == x);
    }
    if s.push(v).contains(x) {
        let j = choose|j: int| 0 <= j < s.len() + 1 && s.push(v)[j] == x;
        if j < s.len() {
            assert(s[j] == x);
        }
    }
}

/// A copy of a node's port list.
fn copy_ports(v: &Vec<usize>) -> (res: Vec<usize>)
    ensures
        res@ == v@,
{
    let mut res: Vec<usize> = Vec::new();
    let mut j: usize = 0;
    while j < v.len()
        invariant
            j <= v@.len(),
            res@ == v@.take(j as int),
        decreases v@.len() - j,
    {
        res.push(v[j]);
        assert(v@.take(j as int + 1) == v@.take(j as int).push(v@[j as int]));
        j += 1;
    }
    assert(v@.take(v@.len() as int) == v@);
    res
}

/// The outgoing edges of a port are listed once each.
proof fn reveal_outgoing_no_dup(g: &LGraph, p: usize)
    requires
        g.wf(),
    ensures
        g.outgoing_of(p as int).no_duplicates(),
{
    let all = Seq::new(g.edges@.len(), |e: int| e as usize);
    assert forall|i: int, j: int| 0 <= i < all.len() && 0 <= j < all.len() && i != j implies all[i]
        != all[j] by {}
    assert(all.no_duplicates());
    crate::in_layer_constraint_processor::lemma_filter_no_duplicates(
        all,
        |e: usize| g.edges@[e as int].source == p,
    );
}

/// The incoming edges of a port are listed once each.
proof fn reveal_incoming_no_dup(g: &LGraph, p: usize)
    requires
        g.wf(),
    ensures
        g.incoming_of(p as int).no_duplicates(),
{
    let all = Seq::new(g.edges@.len(), |e: int| e as usize);
    assert forall|i: int, j: int| 0 <= i < all.len() && 0 <= j < all.len() && i != j implies all[i]
        != all[j] by {}
    assert(all.no_duplicates());
    crate::in_layer_constraint_processor::lemma_filter_no_duplicates(
        all,
        |e: usize| g.edges@[e as int].target == p,
    );
}

/// Node `m` is constrained to the first layer, separate or not.
pub open spec fn first_layer_node(g: &LGraph, m: Option<usize>) -> bool {
    m matches Some(x) && (g.nodes@[x as int].layer_constraint == Some(LayerConstraint::First)
        || g.nodes@[x as int].layer_constraint == Some(LayerConstraint::FirstSeparate))
}

/// Node `m` is constrained to the last layer, separate or not.
pub open spec fn last_layer_node(g: &LGraph, m: Option<usize>) -> bool {
    m matches Some(x) && (g.nodes@[x as int].layer_constraint == Some(LayerConstraint::Last)
        || g.nodes@[x as int].layer_constraint == Some(LayerConstraint::LastSeparate))
}

/// Turning an unconstrained node whose port sides are fixed never turns an
/// edge that enters it from a node of the first layer or leaves it for a
/// node of the last layer: any edge that the step changes does neither.
pub proof fn lemma_turning_keeps_outer_layer_edges(g: &LGraph, es: Seq<LEdge>, n: int)
    requires
        0 <= n < g.nodes@.len(),
        g.nodes@[n].layer_constraint is None || g.nodes@[n].layer_constraint == Some(LayerConstraint::Unconstrained),
    ensures
        forall|e: int|
            0 <= e < es.len() && #[trigger] inner_step(g, es, n)[e] != es[e] ==> {
                &&& !(g.nodes@[n].ports@.contains(es[e].target) && first_layer_node(g, g.ports@[es[e].source as int].node))
                &&& !(g.nodes@[n].ports@.contains(es[e].source) && last_layer_node(g, g.ports@[es[e].target as int].node))
            },
{
    assert forall|e: int| 0 <= e < es.len() && #[trigger] inner_step(g, es, n)[e] != es[e] implies {
        &&& !(g.nodes@[n].ports@.contains(es[e].target) && first_layer_node(g, g.ports@[es[e].source as int].node))
        &&& !(g.nodes@[n].ports@.contains(es[e].source) && last_layer_node(g, g.ports@[es[e].target as int].node))
    } by {
        let ps = g.nodes@[n].ports@;
        assert(all_ports_reversible(g, es, n));
        if ps.contains(es[e].target) && first_layer_node(g, g.ports@[es[e].source as int].node) {
            let i = choose|i: int| 0 <= i < ps.len() && ps[i] == es[e].target;
            assert(port_reversible(g, es, ps[i]));
            assert(blocks_reversal(g, es, ps[i], e));
        }
        if ps.contains(es[e].source) && last_layer_node(g, g.ports@[es[e].target as int].node) {
            let i = choose|i: int| 0 <= i < ps.len() && ps[i] == es[e].source;
            assert(port_reversible(g, es, ps[i]));
            assert(blocks_reversal(g, es, ps[i], e));
        }
    }
}

} // verus!

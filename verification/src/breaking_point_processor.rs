//! The node tests and index bookkeeping of the breaking point processor,
//! which wraps the drawing at the breaking points and tidies the wrapped
//! edges.
use vstd::prelude::*;

use crate::alternating_layer_unzipper::place_node_at_index;
use crate::graph::same_but_layer;
use crate::breaking_point_info::BreakingPointInfo;
use crate::breaking_point_inserter::records_ok;
use crate::graph::{LGraph, LNode, NodeType};
use crate::hyperedge_dummy_merger::{remove_from_layer, removed_from_layer};
use crate::high_degree_node_layering_processor::{
    other_node,
    source_node,
    spec_other_node,
    spec_source_node,
    spec_target_node,
    target_node,
};

verus! {

/// Wraps the drawing at the breaking points.
pub struct BreakingPointProcessor;

/// Two nodes agree on everything but their scratch id.
pub open spec fn same_but_id(a: LNode, b: LNode) -> bool {
    &&& a.node_type == b.node_type
    &&& a.ports == b.ports
    &&& a.layer == b.layer
    &&& a.layer_constraint == b.layer_constraint
    &&& a.in_layer_constraint == b.in_layer_constraint
    &&& a.edge_constraint == b.edge_constraint
    &&& a.port_constraints == b.port_constraints
    &&& a.origin == b.origin
    &&& a.in_layer_layout_unit == b.in_layer_layout_unit
    &&& a.in_layer_successor_constraints == b.in_layer_successor_constraints
    &&& a.ext_port_side == b.ext_port_side
    &&& a.layer_id == b.layer_id
    &&& a.position_id == b.position_id
    &&& a.long_edge_source == b.long_edge_source
    &&& a.long_edge_target == b.long_edge_target
    &&& a.long_edge_has_label_dummies == b.long_edge_has_label_dummies
    &&& a.long_edge_before_label_dummy == b.long_edge_before_label_dummy
    &&& a.layer_split == b.layer_split
    &&& a.reset_on_long_edges == b.reset_on_long_edges
    &&& a.minimize_edge_length == b.minimize_edge_length
    &&& a.breaking_point_info == b.breaking_point_info
    &&& a.comment_box == b.comment_box
    &&& a.comment_conn_port == b.comment_conn_port
    &&& a.alignment == b.alignment
    &&& a.label_placement == b.label_placement
    &&& a.ext_port_replaced_dummy == b.ext_port_replaced_dummy
    &&& a.represented_labels == b.represented_labels
}

/// The node's scratch id.
pub fn node_id(g: &LGraph, n: usize) -> (res: i32)
    requires
        n < g.nodes@.len(),
    ensures
        res == g.nodes@[n as int].id,
{
    g.nodes[n].id
}

/// Sets the node's scratch id.
pub fn set_node_id(g: &mut LGraph, n: usize, value: i32)
    requires
        old(g).wf(),
        n < old(g).nodes@.len(),
    ensures
        final(g).wf(),
        final(g).nodes@.len() == old(g).nodes@.len(),
        final(g).nodes@[n as int].id == value,
        same_but_id(final(g).nodes@[n as int], old(g).nodes@[n as int]),
        forall|m: int| 0 <= m < old(g).nodes@.len() && m != n ==> #[trigger] final(g).nodes@[m]
            == old(g).nodes@[m],
        final(g).ports == old(g).ports,
        final(g).edges == old(g).edges,
        final(g).layers == old(g).layers,
        final(g).layerless_nodes == old(g).layerless_nodes,
{
    let ghost g0 = *g;
    g.nodes[n].id = value;
    assert forall|m: int, j: int|
        0 <= m < g.nodes@.len() && 0 <= j < g.nodes@[m].ports@.len() implies {
            &&& #[trigger] g.nodes@[m].ports@[j] < g.ports@.len()
            &&& g.ports@[g.nodes@[m].ports@[j] as int].node == Some(m as usize)
        } by {
        assert(g.nodes@[m].ports@[j] == g0.nodes@[m].ports@[j]);
    }
}

/// The breaking point record the node names, if any.
pub fn breaking_point_info(g: &LGraph, n: usize) -> (res: Option<usize>)
    requires
        n < g.nodes@.len(),
    ensures
        res == g.nodes@[n as int].breaking_point_info,
{
    g.nodes[n].breaking_point_info
}

/// The node is the start marker of the record it names.
pub open spec fn spec_is_start(g: &LGraph, infos: Seq<BreakingPointInfo>, n: usize) -> bool {
    g.nodes@[n as int].breaking_point_info matches Some(i) && infos[i as int].start == n
}

/// The node is the end marker of the record it names.
pub open spec fn spec_is_end(g: &LGraph, infos: Seq<BreakingPointInfo>, n: usize) -> bool {
    g.nodes@[n as int].breaking_point_info matches Some(i) && infos[i as int].end == n
}

/// Whether the node is the start marker of the record it names.
pub fn is_start(g: &LGraph, infos: &Vec<BreakingPointInfo>, n: usize) -> (res: bool)
    requires
        n < g.nodes@.len(),
        records_ok(g, infos@),
    ensures
        res == spec_is_start(g, infos@, n),
{
    match breaking_point_info(g, n) {
        Some(i) => infos[i].start == n,
        None => false,
    }
}

/// Whether the node is the end marker of the record it names.
pub fn is_end(g: &LGraph, infos: &Vec<BreakingPointInfo>, n: usize) -> (res: bool)
    requires
        n < g.nodes@.len(),
        records_ok(g, infos@),
    ensures
        res == spec_is_end(g, infos@, n),
{
    match breaking_point_info(g, n) {
        Some(i) => infos[i].end == n,
        None => false,
    }
}

/// A long-edge dummy with an edge, other than a self loop, to another node
/// of its own layer.
pub open spec fn in_layer_dummy(g: &LGraph, n: usize) -> bool {
    &&& g.nodes@[n as int].node_type == NodeType::LongEdge
    &&& g.nodes@[n as int].layer is Some
    &&& exists|e: int| 0 <= e < g.edges@.len() && #[trigger] in_layer_link(g, n, e)
}

/// Edge `e` is no self loop, touches `n`, and its other end lies in `n`'s
/// layer.
pub open spec fn in_layer_link(g: &LGraph, n: usize, e: int) -> bool {
    &&& (spec_source_node(g, e) == Some(n) || spec_target_node(g, e) == Some(n))
    &&& spec_source_node(g, e) != spec_target_node(g, e)
    &&& spec_other_node(g, e, n) matches Some(o)
    &&& g.nodes@[o as int].layer == g.nodes@[n as int].layer
}

/// Whether the node is a long-edge dummy connected to another node of its
/// own layer.
pub fn is_in_layer_dummy(g: &LGraph, n: usize) -> (res: bool)
    requires
        g.wf(),
        n < g.nodes@.len(),
    ensures
        res == in_layer_dummy(g, n),
{
    if g.nodes[n].node_type != NodeType::LongEdge {
        return false;
    }
    let layer = g.nodes[n].layer;
    if layer.is_none() {
        return false;
    }
    let mut e: usize = 0;
    while e < g.edges.len()
        invariant
            g.wf(),
            n < g.nodes@.len(),
            layer == g.nodes@[n as int].layer,
            layer is Some,
            g.nodes@[n as int].node_type == NodeType::LongEdge,
            e <= g.edges@.len(),
            forall|f: int| 0 <= f < e ==> !#[trigger] in_layer_link(g, n, f),
        decreases g.edges@.len() - e,
    {
        let s = source_node(g, e);
        let t = target_node(g, e);
        if (s == Some(n) || t == Some(n)) && s != t {
            match other_node(g, e, n) {
                Some(o) => {
                    proof {
                        assert(g.edges@[e as int].source < g.ports@.len());
                        assert(g.ports@[g.edges@[e as int].source as int].node matches Some(x) ==> x < g.nodes@.len());
                        assert(g.ports@[g.edges@[e as int].target as int].node matches Some(x) ==> x < g.nodes@.len());
                    }
                    if g.nodes[o].layer == layer {
                        assert(in_layer_link(g, n, e as int));
                        return true;
                    }
                },
                None => {},
            }
        }
        e += 1;
    }
    false
}

/// The edges at the given ports, port by port: those leaving them when
/// `forwards`, else those entering them.
pub open spec fn port_edges(g: &LGraph, ports: Seq<usize>, forwards: bool) -> Seq<usize>
    decreases ports.len(),
{
    if ports.len() == 0 {
        Seq::empty()
    } else {
        port_edges(g, ports.drop_last(), forwards) + if forwards {
            g.outgoing_of(ports.last() as int)
        } else {
            g.incoming_of(ports.last() as int)
        }
    }
}

/// Edge `e` leads from `start` to a long-edge dummy in another layer.
pub open spec fn leads_to_dummy(g: &LGraph, start: usize, e: usize) -> bool {
    &&& spec_other_node(g, e as int, start) matches Some(o)
    &&& g.nodes@[o as int].node_type == NodeType::LongEdge
    &&& g.nodes@[start as int].layer is Some
    &&& g.nodes@[o as int].layer is Some
    &&& g.nodes@[o as int].layer != g.nodes@[start as int].layer
}

/// The other end of the first edge of the list that leads from `start` to a
/// long-edge dummy in another layer.
pub open spec fn first_dummy(g: &LGraph, start: usize, edges: Seq<usize>) -> Option<usize>
    decreases edges.len(),
{
    if edges.len() == 0 {
        None
    } else if leads_to_dummy(g, start, edges[0]) {
        spec_other_node(g, edges[0] as int, start)
    } else {
        first_dummy(g, start, edges.drop_first())
    }
}

/// Looking through two lists in turn finds what the first has, else what
/// the second has.
proof fn lemma_first_dummy_add(g: &LGraph, start: usize, a: Seq<usize>, b: Seq<usize>)
    ensures
        first_dummy(g, start, a + b) == if first_dummy(g, start, a) is Some {
            first_dummy(g, start, a)
        } else {
            first_dummy(g, start, b)
        },
    decreases a.len(),
{
    if a.len() > 0 {
        assert((a + b).drop_first() == a.drop_first() + b);
        assert((a + b)[0] == a[0]);
        lemma_first_dummy_add(g, start, a.drop_first(), b);
    } else {
        assert(a + b == b);
    }
}

/// The next long-edge dummy along the node's leaving (`forwards`) or
/// entering edges that lies in another layer, if any.
pub fn next_long_edge_dummy(g: &LGraph, start: usize, forwards: bool) -> (res: Option<usize>)
    requires
        g.wf(),
        start < g.nodes@.len(),
    ensures
        res == first_dummy(g, start, port_edges(g, g.nodes@[start as int].ports@, forwards)),
{
    let ghost ports = g.nodes@[start as int].ports@;
    let mut i: usize = 0;
    while i < g.nodes[start].ports.len()
        invariant
            g.wf(),
            start < g.nodes@.len(),
            ports == g.nodes@[start as int].ports@,
            i <= ports.len(),
            first_dummy(g, start, port_edges(g, ports.take(i as int), forwards)) is None,
        decreases ports.len() - i,
    {
        let p = g.nodes[start].ports[i];
        let list = if forwards {
            g.outgoing_edges(p)
        } else {
            g.incoming_edges(p)
        };
        let ghost before = port_edges(g, ports.take(i as int), forwards);
        proof {
            crate::edge_and_layer_constraint_edge_reverser::lemma_port_edges(g, p);
            assert forall|j: int| 0 <= j < list@.len() implies #[trigger] list@[j] < g.edges@.len() by {
                assert(list@.contains(list@[j]));
            }
        }
        assert(ports.take(i as int + 1).drop_last() == ports.take(i as int));
        assert(port_edges(g, ports.take(i as int + 1), forwards) == before + list@);
        let mut k: usize = 0;
        while k < list.len()
            invariant
                g.wf(),
                start < g.nodes@.len(),
                k <= list@.len(),
                ports == g.nodes@[start as int].ports@,
                i < ports.len(),
                before == port_edges(g, ports.take(i as int), forwards),
                port_edges(g, ports.take(i as int + 1), forwards) == before + list@,
                forall|j: int| 0 <= j < list@.len() ==> #[trigger] list@[j] < g.edges@.len(),
                first_dummy(g, start, before) is None,
                first_dummy(g, start, list@.take(k as int)) is None,
            decreases list@.len() - k,
        {
            let e = list[k];
            assert(list@.take(k as int + 1) == list@.take(k as int) + seq![e]);
            proof {
                lemma_first_dummy_add(g, start, list@.take(k as int), seq![e]);
                assert(seq![e].drop_first() == Seq::<usize>::empty());
            }
            match other_node(g, e, start) {
                Some(o) => {
                    proof {
                        assert(g.edges@[e as int].source < g.ports@.len());
                        assert(g.ports@[g.edges@[e as int].source as int].node matches Some(x) ==> x < g.nodes@.len());
                        assert(g.ports@[g.edges@[e as int].target as int].node matches Some(x) ==> x < g.nodes@.len());
                    }
                    let start_layer = g.nodes[start].layer;
                    let other_layer = g.nodes[o].layer;
                    if g.nodes[o].node_type == NodeType::LongEdge && start_layer.is_some()
                        && other_layer.is_some() && start_layer != other_layer {
                        proof {
                            assert(leads_to_dummy(g, start, e));
                            let rest = list@.skip(k as int);
                            assert(list@ == list@.take(k as int) + rest);
                            assert(rest[0] == e);
                            lemma_first_dummy_add(g, start, list@.take(k as int), rest);
                            lemma_first_dummy_add(g, start, before, list@);
                            let suffix = port_edges(g, ports.skip(i as int + 1), forwards);
                            assert(ports =~= ports.take(i as int + 1) + ports.skip(i as int + 1));
                            lemma_port_edges_add(g, ports.take(i as int + 1), ports.skip(i as int + 1), forwards);
                            lemma_first_dummy_add(g, start, before + list@, suffix);
                        }
                        return Some(o);
                    }
                    assert(!leads_to_dummy(g, start, e));
                    proof {
                        reveal_with_fuel(first_dummy, 2);
                        assert(first_dummy(g, start, seq![e]) is None);
                    }
                },
                None => {
                    assert(!leads_to_dummy(g, start, e));
                    proof {
                        reveal_with_fuel(first_dummy, 2);
                        assert(first_dummy(g, start, seq![e]) is None);
                    }
                },
            }
            k += 1;
        }
        assert(list@.take(list@.len() as int) == list@);
        proof {
            lemma_first_dummy_add(g, start, before, list@);
        }
        i += 1;
    }
    assert(ports.take(ports.len() as int) == ports);
    None
}

/// The edges at two lists of ports in turn are the edges at the first list
/// followed by those at the second.
proof fn lemma_port_edges_add(g: &LGraph, a: Seq<usize>, b: Seq<usize>, forwards: bool)
    ensures
        port_edges(g, a + b, forwards) == port_edges(g, a, forwards) + port_edges(g, b, forwards),
    decreases b.len(),
{
    if b.len() == 0 {
        assert(a + b == a);
        assert(port_edges(g, a, forwards) + Seq::<usize>::empty() == port_edges(g, a, forwards));
    } else {
        lemma_port_edges_add(g, a, b.drop_last(), forwards);
        assert((a + b).drop_last() == a + b.drop_last());
        assert((a + b).last() == b.last());
    }
}

/// Position `i` of the layer holds a breaking point or an in-layer dummy.
pub open spec fn separator_at(g: &LGraph, layer: Seq<usize>, i: int) -> bool {
    &&& 0 <= i < layer.len()
    &&& (g.nodes@[layer[i] as int].node_type == NodeType::BreakingPoint || in_layer_dummy(
        g,
        layer[i],
    ))
}

/// The two dummies lie next to each other in the layer of the first, or
/// only breaking points and in-layer dummies lie between them: by their ids,
/// the first comes after the second when `forwards`, else before it.
pub open spec fn adjacent_or_separated(g: &LGraph, dummy1: usize, dummy2: usize, forwards: bool) -> bool {
    match g.nodes@[dummy1 as int].layer {
        None => false,
        Some(l) => {
            let start_id = if forwards {
                g.nodes@[dummy2 as int].id
            } else {
                g.nodes@[dummy1 as int].id
            };
            let end_id = if forwards {
                g.nodes@[dummy1 as int].id
            } else {
                g.nodes@[dummy2 as int].id
            };
            end_id <= start_id || separated_between(g, g.layers@[l as int]@, start_id as int, end_id as int)
        },
    }
}

/// Every position strictly between the two ids holds a breaking point or
/// an in-layer dummy.
pub open spec fn separated_between(g: &LGraph, layer: Seq<usize>, start_id: int, end_id: int) -> bool {
    forall|i: int| start_id < i < end_id ==> #[trigger] separator_at(g, layer, i)
}

/// Whether only breaking points and in-layer dummies separate the two
/// dummies in their layer.
pub fn is_adjacent_or_separated_by_breaking_points(
    g: &LGraph,
    dummy1: usize,
    dummy2: usize,
    forwards: bool,
) -> (res: bool)
    requires
        g.wf(),
        g.layers_listed(),
        dummy1 < g.nodes@.len(),
        dummy2 < g.nodes@.len(),
    ensures
        res == adjacent_or_separated(g, dummy1, dummy2, forwards),
{
    let l = match g.nodes[dummy1].layer {
        None => {
            return false;
        },
        Some(l) => l,
    };
    assert(l < g.layers@.len());
    let (start, end) = if forwards {
        (dummy2, dummy1)
    } else {
        (dummy1, dummy2)
    };
    let start_id = node_id(g, start);
    let end_id = node_id(g, end);
    if end_id <= start_id {
        return true;
    }
    let ghost layer = g.layers@[l as int]@;
    let mut i: i32 = start_id + 1;
    while i < end_id
        invariant
            g.wf(),
            l < g.layers@.len(),
            layer == g.layers@[l as int]@,
            dummy1 < g.nodes@.len(),
            dummy2 < g.nodes@.len(),
            g.nodes@[dummy1 as int].layer == Some(l),
            start_id == (if forwards { g.nodes@[dummy2 as int].id } else { g.nodes@[dummy1 as int].id }),
            end_id == (if forwards { g.nodes@[dummy1 as int].id } else { g.nodes@[dummy2 as int].id }),
            start_id < i <= end_id,
            forall|j: int| start_id < j < i ==> #[trigger] separator_at(g, layer, j),
        decreases end_id - i,
    {
        if i < 0 || i as usize >= g.layers[l].len() {
            assert(!separator_at(g, layer, i as int));
            assert(!separated_between(g, layer, start_id as int, end_id as int));
            return false;
        }
        let n = g.layers[l][i as usize];
        assert(n < g.nodes@.len());
        if !(g.nodes[n].node_type == NodeType::BreakingPoint || is_in_layer_dummy(g, n)) {
            assert(!separator_at(g, layer, i as int));
            assert(!separated_between(g, layer, start_id as int, end_id as int));
            return false;
        }
        i += 1;
    }
    true
}

/// Decrements the ids of the nodes that follow the node's id in its layer.
pub fn update_indexes_after(g: &mut LGraph, node: usize)
    requires
        old(g).wf(),
        old(g).layers_listed(),
        node < old(g).nodes@.len(),
        old(g).nodes@[node as int].id < i32::MAX,
        old(g).nodes@[node as int].layer matches Some(l) ==> forall|i: int|
            old(g).nodes@[node as int].id + 1 <= i < old(g).layers@[l as int]@.len()
                ==> old(g).nodes@[old(g).layers@[l as int]@[i] as int].id > i32::MIN,
    ensures
        final(g).wf(),
        final(g).ports == old(g).ports,
        final(g).edges == old(g).edges,
        final(g).layers == old(g).layers,
        final(g).layerless_nodes == old(g).layerless_nodes,
        final(g).nodes@.len() == old(g).nodes@.len(),
        forall|m: int| 0 <= m < old(g).nodes@.len() ==> same_but_id(#[trigger] final(g).nodes@[m], old(g).nodes@[m]),
        forall|m: int|
            0 <= m < old(g).nodes@.len() ==> #[trigger] final(g).nodes@[m].id == if decremented(
                old(g),
                node,
                m,
            ) {
                old(g).nodes@[m].id - 1
            } else {
                old(g).nodes@[m].id as int
            },
{
    let ghost g0 = *g;
    let current_id = node_id(g, node);
    let l = match g.nodes[node].layer {
        None => {
            assert forall|m: int| 0 <= m < g0.nodes@.len() implies !decremented(&g0, node, m) by {}
            return;
        },
        Some(l) => l,
    };
    assert(l < g.layers@.len());
    let ghost layer = g0.layers@[l as int]@;
    let first: usize = if current_id + 1 < 0 {
        0
    } else {
        (current_id + 1) as usize
    };
    let mut i: usize = first;
    while i < g.layers[l].len()
        invariant
            g0.wf(),
            g.wf(),
            l < g0.layers@.len(),
            layer == g0.layers@[l as int]@,
            g0.nodes@[node as int].layer == Some(l),
            current_id == g0.nodes@[node as int].id,
            first == if current_id + 1 < 0 { 0 } else { current_id + 1 },
            forall|k: int| current_id + 1 <= k < layer.len() ==> g0.nodes@[layer[k] as int].id > i32::MIN,
            g.ports == g0.ports,
            g.edges == g0.edges,
            g.layers == g0.layers,
            g.layerless_nodes == g0.layerless_nodes,
            g.nodes@.len() == g0.nodes@.len(),
            first <= i,
            i <= layer.len() || i == first,
            forall|m: int| 0 <= m < g0.nodes@.len() ==> same_but_id(#[trigger] g.nodes@[m], g0.nodes@[m]),
            forall|m: int|
                0 <= m < g0.nodes@.len() ==> #[trigger] g.nodes@[m].id == if exists|k: int|
                    first <= k < i && layer[k] == m {
                    g0.nodes@[m].id - 1
                } else {
                    g0.nodes@[m].id as int
                },
        decreases layer.len() - i,
    {
        let n = g.layers[l][i];
        assert(n < g.nodes@.len());
        assert(g0.layers@[l as int]@.no_duplicates());
        assert(forall|k: int| first <= k < i ==> layer[k] != n);
        let v = g.nodes[n].id;
        assert(v == g0.nodes@[n as int].id);
        set_node_id(g, n, v - 1);
        assert forall|m: int| 0 <= m < g0.nodes@.len() implies #[trigger] g.nodes@[m].id == if exists|k: int|
            first <= k < i + 1 && layer[k] == m {
            g0.nodes@[m].id - 1
        } else {
            g0.nodes@[m].id as int
        } by {
            if m == n as int {
                assert(layer[i as int] == m);
            } else {
                if exists|k: int| first <= k < i + 1 && layer[k] == m {
                    let k = choose|k: int| first <= k < i + 1 && layer[k] == m;
                    assert(k != i);
                }
            }
        }
        i += 1;
    }
}

/// The node's id follows `node`'s in `node`'s layer: it sits in that layer
/// at a position after `node`'s id.
pub open spec fn decremented(g: &LGraph, node: usize, m: int) -> bool {
    &&& g.nodes@[node as int].layer matches Some(l)
    &&& exists|k: int|
        (if g.nodes@[node as int].id + 1 < 0 {
            0
        } else {
            g.nodes@[node as int].id + 1
        }) <= k < g.layers@[l as int]@.len() && #[trigger] g.layers@[l as int]@[k] == m
}

/// The index clamped to the positions of a layer of the given length.
pub open spec fn clamp_index(index: i32, len: int) -> int {
    if index < 0 {
        0
    } else if index > len {
        len
    } else {
        index as int
    }
}

/// Moves the node into layer `l` at the given position, clamped to the
/// layer's positions; the node leaves the layer it was in.
pub fn set_layer_at_index_clamped(g: &mut LGraph, node: usize, index: i32, l: usize)
    requires
        old(g).wf(),
        old(g).layers_listed(),
        node < old(g).nodes@.len(),
        l < old(g).layers@.len(),
        old(g).layers@[l as int]@.len() <= i32::MAX,
        old(g).nodes@[node as int].layer != Some(l),
    ensures
        final(g).wf(),
        final(g).ports == old(g).ports,
        final(g).edges == old(g).edges,
        final(g).layerless_nodes == old(g).layerless_nodes,
        final(g).layers@.len() == old(g).layers@.len(),
        final(g).layers@[l as int]@ == old(g).layers@[l as int]@.insert(
            clamp_index(index, old(g).layers@[l as int]@.len() as int),
            node,
        ),
        match old(g).nodes@[node as int].layer {
            Some(k) => exists|i: int|
                0 <= i < old(g).layers@[k as int]@.len() && old(g).layers@[k as int]@[i] == node
                    && final(g).layers@[k as int]@ == old(g).layers@[k as int]@.remove(i)
                    && forall|j: int| 0 <= j < old(g).layers@.len() && j != l && j != k ==> #[trigger] final(g).layers@[j]
                    == old(g).layers@[j],
            None => forall|j: int| 0 <= j < old(g).layers@.len() && j != l ==> #[trigger] final(g).layers@[j]
                == old(g).layers@[j],
        },
        final(g).nodes@.len() == old(g).nodes@.len(),
        final(g).nodes@[node as int].layer == Some(l),
        same_but_layer(final(g).nodes@[node as int], old(g).nodes@[node as int]),
        forall|m: int| 0 <= m < old(g).nodes@.len() && m != node ==> #[trigger] final(g).nodes@[m]
            == old(g).nodes@[m],
{
    let ghost g0 = *g;
    let len = g.layers[l].len();
    let clamped: usize = if index < 0 {
        0
    } else if index as usize > len {
        len
    } else {
        index as usize
    };
    match g.nodes[node].layer {
        Some(k) => {
            assert(k < g.layers@.len() && g.layers@[k as int]@.contains(node));
            let mut i: usize = 0;
            while i < g.layers[k].len() && g.layers[k][i] != node
                invariant
                    *g == g0,
                    k < g.layers@.len(),
                    g.layers@[k as int]@.contains(node),
                    i <= g.layers@[k as int]@.len(),
                    forall|j: int| 0 <= j < i ==> g.layers@[k as int]@[j] != node,
                decreases g.layers@[k as int]@.len() - i,
            {
                i += 1;
            }
            proof {
                if i >= g.layers@[k as int]@.len() {
                    let j = choose|j: int| 0 <= j < g.layers@[k as int]@.len() && g.layers@[k as int]@[j] == node;
                    assert(g.layers@[k as int]@[j] != node);
                }
            }
            let ghost g1 = *g;
            remove_from_layer(g, k, i, node);
            let ghost g2 = *g;
            assert(g2.layers@[l as int] == g0.layers@[l as int]);
            place_node_at_index(g, node, l, clamped);
            proof {
                assert(removed_from_layer(&g0, &g2, k as int, i as int, node as int));
                assert forall|j: int| 0 <= j < g0.layers@.len() && j != l && j != k implies #[trigger] g.layers@[j]
                    == g0.layers@[j] by {
                    assert(g2.layers@[j] == g0.layers@[j]);
                }
                assert(g.layers@[k as int] == g2.layers@[k as int]);
            }
        },
        None => {
            place_node_at_index(g, node, l, clamped);
        },
    }
}

} // verus!

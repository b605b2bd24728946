//! Hierarchical port constraints: when port sides are fixed, the external
//! port dummies of northern and southern ports leave the layering. Each edge
//! between such a dummy and a node of layer `i` is led instead to a new dummy
//! for the same port in the layer before (for an edge that enters the node)
//! or after (for one that leaves it) layer `i`.
use vstd::prelude::*;

use crate::breaking_point_inserter::{fresh_port, node_edges, node_edges_of};
use crate::breaking_point_processor::port_edges;
use crate::graph::{lemma_filter_facts, 
    Alignment, LEdge, LGraph, LNode, LPort, NodeType, Origin, PortConstraints, PortSide, copy_labels,
    copy_list, labels_view,
    insert_layer, layer_after_insert, layer_views, lemma_filter_agree, same_but_layer, set_layer,
};

verus! {

/// Replaces the external port dummies of northern and southern ports.
pub struct HierarchicalPortConstraintProcessor;

/// An external port dummy of a northern or southern port.
pub open spec fn is_north_south_dummy(n: LNode) -> bool {
    &&& n.node_type == NodeType::ExternalPort
    &&& (n.ext_port_side == Some(PortSide::North) || n.ext_port_side == Some(PortSide::South))
}

/// The port a node was made for, when its origin is a port.
pub open spec fn origin_port_key(n: LNode) -> Option<usize> {
    match n.origin {
        Origin::Port(p) => Some(p),
        _ => None,
    }
}

/// `c` is the new dummy that stands in for the external port dummy `o`
/// (node `orig`): it has all of `o`'s properties, but records `orig` as the
/// dummy it replaces, fixes its port positions and is centred; it is an
/// external port dummy with a western and an eastern port and no layer.
pub open spec fn replacement_dummy(c: LNode, o: LNode, orig: int, p0: int) -> bool {
    &&& c.node_type == NodeType::ExternalPort
    &&& c.ports@ == seq![p0 as usize, (p0 + 1) as usize]
    &&& c.layer is None
    &&& c.id == 0
    &&& c.port_constraints == Some(PortConstraints::FixedPos)
    &&& c.alignment == Some(Alignment::Center)
    &&& c.label_placement == o.label_placement
    &&& c.ext_port_replaced_dummy == Some(orig as usize)
    &&& c.layer_constraint == o.layer_constraint
    &&& c.in_layer_constraint == o.in_layer_constraint
    &&& c.edge_constraint == o.edge_constraint
    &&& c.origin == o.origin
    &&& c.in_layer_layout_unit == o.in_layer_layout_unit
    &&& c.in_layer_successor_constraints@ == o.in_layer_successor_constraints@
    &&& c.ext_port_side == o.ext_port_side
    &&& c.layer_id == o.layer_id
    &&& c.position_id == o.position_id
    &&& c.long_edge_source == o.long_edge_source
    &&& c.long_edge_target == o.long_edge_target
    &&& c.long_edge_has_label_dummies == o.long_edge_has_label_dummies
    &&& c.long_edge_before_label_dummy == o.long_edge_before_label_dummy
    &&& c.layer_split == o.layer_split
    &&& c.reset_on_long_edges == o.reset_on_long_edges
    &&& c.minimize_edge_length == o.minimize_edge_length
    &&& c.breaking_point_info == o.breaking_point_info
    &&& c.comment_box == o.comment_box
    &&& c.comment_conn_port == o.comment_conn_port
    &&& labels_view(c.represented_labels) == labels_view(o.represented_labels)
}

/// The first dummy of the slot that was made for port `key`.
pub open spec fn dummy_in_slot(g: &LGraph, slot: Seq<usize>, key: usize) -> Option<usize>
    decreases slot.len(),
{
    if slot.len() == 0 {
        None
    } else if origin_port_key(g.nodes@[slot[0] as int]) == Some(key) {
        Some(slot[0])
    } else {
        dummy_in_slot(g, slot.drop_first(), key)
    }
}

/// The node at the far end of edge `e` seen from a node that it enters
/// (`incoming`: its source) or leaves (its target).
pub open spec fn far_node(g: &LGraph, e: int, incoming: bool) -> Option<usize> {
    if incoming {
        g.source_node(e)
    } else {
        g.target_node(e)
    }
}

/// The edge with its far end (the source if `incoming`, else the target)
/// moved to port `p`.
pub open spec fn with_far_end(edge: LEdge, incoming: bool, p: usize) -> LEdge {
    if incoming {
        LEdge { source: p, target: edge.target, reversed: edge.reversed }
    } else {
        LEdge { source: edge.source, target: p, reversed: edge.reversed }
    }
}

/// The far end of edge `e` is a northern or southern external port dummy
/// that was made for a port.
pub open spec fn replaceable(g: &LGraph, e: int, incoming: bool) -> bool {
    &&& far_node(g, e, incoming) is Some
    &&& is_north_south_dummy(g.nodes@[far_node(g, e, incoming)->0 as int])
    &&& origin_port_key(g.nodes@[far_node(g, e, incoming)->0 as int]) is Some
}

/// The slots of new dummies as lists.
pub open spec fn slot_views(slots: Seq<Vec<usize>>) -> Seq<Seq<usize>> {
    slots.map_values(|v: Vec<usize>| v@)
}

/// `b` and its slots `sb` are `a` and `sa` after edge `e` had its turn from
/// a node that it enters (`incoming`) or leaves: when its far end is a
/// northern or southern external port dummy made for port `key`, that end
/// moves to the new dummy for `key` in the given slot (its eastern port for
/// an entering edge, its western port for a leaving one); the dummy is made
/// first, and appended to the slot, when the slot has none. Otherwise nothing
/// changes.
pub open spec fn edge_turn(
    a: &LGraph,
    sa: Seq<Seq<usize>>,
    b: &LGraph,
    sb: Seq<Seq<usize>>,
    slot: int,
    e: int,
    incoming: bool,
) -> bool {
    if replaceable(a, e, incoming) {
        let s = far_node(a, e, incoming)->0;
        let key = origin_port_key(a.nodes@[s as int])->0;
        let end: int = if incoming {
            1
        } else {
            0
        };
        match dummy_in_slot(a, sa[slot], key) {
            Some(d) => {
                &&& b.nodes == a.nodes
                &&& b.ports == a.ports
                &&& b.layers == a.layers
                &&& b.layerless_nodes == a.layerless_nodes
                &&& b.edges@ == a.edges@.update(
                    e,
                    with_far_end(a.edges@[e], incoming, a.nodes@[d as int].ports@[end]),
                )
                &&& sb == sa
            },
            None => {
                let n0 = a.nodes@.len() as int;
                let p0 = a.ports@.len() as int;
                &&& b.nodes@.len() == n0 + 1
                &&& forall|m: int| 0 <= m < n0 ==> #[trigger] b.nodes@[m] == a.nodes@[m]
                &&& replacement_dummy(b.nodes@[n0], a.nodes@[s as int], s as int, p0)
                &&& b.ports@.len() == p0 + 2
                &&& forall|p: int| 0 <= p < p0 ==> #[trigger] b.ports@[p] == a.ports@[p]
                &&& fresh_port(b.ports@[p0], n0, PortSide::West)
                &&& fresh_port(b.ports@[p0 + 1], n0, PortSide::East)
                &&& b.layers == a.layers
                &&& b.layerless_nodes == a.layerless_nodes
                &&& b.edges@ == a.edges@.update(e, with_far_end(a.edges@[e], incoming, (p0 + end) as usize))
                &&& sb == sa.update(slot, sa[slot].push(n0 as usize))
            },
        }
    } else {
        &&& *b == *a
        &&& sb == sa
    }
}

/// The dummy found in a slot is one of its dummies and was made for the
/// port.
pub proof fn lemma_dummy_in_slot(g: &LGraph, slot: Seq<usize>, key: usize)
    ensures
        dummy_in_slot(g, slot, key) matches Some(d) ==> slot.contains(d) && origin_port_key(
            g.nodes@[d as int],
        ) == Some(key),
    decreases slot.len(),
{
    if slot.len() > 0 && origin_port_key(g.nodes@[slot[0] as int]) != Some(key) {
        lemma_dummy_in_slot(g, slot.drop_first(), key);
        if let Some(d) = dummy_in_slot(g, slot.drop_first(), key) {
            let j = choose|j: int| 0 <= j < slot.drop_first().len() && slot.drop_first()[j] == d;
            assert(slot[j + 1] == d);
        }
    } else if slot.len() > 0 {
        assert(slot[0] == slot[0]);
    }
}

/// Every slot lists new dummies: northern or southern external port
/// dummies with two ports and no layer.
pub open spec fn slots_ok(g: &LGraph, slots: Seq<Seq<usize>>) -> bool {
    forall|k: int, j: int|
        0 <= k < slots.len() && 0 <= j < slots[k].len() ==> {
            &&& #[trigger] slots[k][j] < g.nodes@.len()
            &&& is_north_south_dummy(g.nodes@[slots[k][j] as int])
            &&& g.nodes@[slots[k][j] as int].ports@.len() == 2
            &&& g.nodes@[slots[k][j] as int].layer is None
        }
}

/// Node `m` is in one of the slots.
pub open spec fn in_some_slot(slots: Seq<Seq<usize>>, m: int) -> bool {
    exists|k: int, j: int| 0 <= k < slots.len() && 0 <= j < slots[k].len() && #[trigger] slots[k][j] == m
}

/// The slots hold distinct nodes, which are exactly the nodes from `base` on.
pub open spec fn slot_facts(base: int, g: &LGraph, slots: Seq<Seq<usize>>) -> bool {
    &&& forall|k1: int, j1: int, k2: int, j2: int|
        0 <= k1 < slots.len() && 0 <= j1 < slots[k1].len() && 0 <= k2 < slots.len() && 0 <= j2
            < slots[k2].len() && (k1 != k2 || j1 != j2) ==> #[trigger] slots[k1][j1] != #[trigger] slots[k2][j2]
    &&& forall|k: int, j: int| 0 <= k < slots.len() && 0 <= j < slots[k].len() ==> #[trigger] slots[k][j] >= base
    &&& forall|m: int| base <= m < g.nodes@.len() ==> #[trigger] in_some_slot(slots, m)
}

/// An edge's turn keeps the slot facts.
proof fn lemma_turn_keeps_slot_facts(
    a: &LGraph,
    sa: Seq<Seq<usize>>,
    b: &LGraph,
    sb: Seq<Seq<usize>>,
    slot: int,
    e: int,
    incoming: bool,
    base: int,
)
    requires
        slots_ok(a, sa),
        0 <= slot < sa.len(),
        base <= a.nodes@.len(),
        a.nodes@.len() + 1 <= usize::MAX,
        slot_facts(base, a, sa),
        edge_turn(a, sa, b, sb, slot, e, incoming),
    ensures
        slot_facts(base, b, sb),
{
    if replaceable(a, e, incoming) {
        let s = far_node(a, e, incoming)->0;
        let key = origin_port_key(a.nodes@[s as int])->0;
        if dummy_in_slot(a, sa[slot], key) is None {
            let n0 = a.nodes@.len() as usize;
            assert forall|k1: int, j1: int, k2: int, j2: int|
                0 <= k1 < sb.len() && 0 <= j1 < sb[k1].len() && 0 <= k2 < sb.len() && 0 <= j2 < sb[k2].len()
                    && (k1 != k2 || j1 != j2) implies #[trigger] sb[k1][j1] != #[trigger] sb[k2][j2] by {
                let new1 = k1 == slot && j1 == sa[slot].len();
                let new2 = k2 == slot && j2 == sa[slot].len();
                if !new1 {
                    assert(sb[k1][j1] == sa[k1][j1]);
                    assert(sa[k1][j1] < a.nodes@.len());
                } else {
                    assert(sb[k1][j1] == n0);
                }
                if !new2 {
                    assert(sb[k2][j2] == sa[k2][j2]);
                    assert(sa[k2][j2] < a.nodes@.len());
                } else {
                    assert(sb[k2][j2] == n0);
                }
            }
            assert forall|k: int, j: int| 0 <= k < sb.len() && 0 <= j < sb[k].len() implies #[trigger] sb[k][j]
                >= base by {
                if !(k == slot && j == sa[slot].len()) {
                    assert(sb[k][j] == sa[k][j]);
                } else {
                    assert(sb[k][j] == n0);
                }
            }
            assert forall|m: int| base <= m < b.nodes@.len() implies #[trigger] in_some_slot(sb, m) by {
                if m == n0 {
                    assert(sb[slot][sa[slot].len() as int] == n0);
                } else {
                    assert(in_some_slot(sa, m));
                    let (k, j) = choose|k: int, j: int|
                        0 <= k < sa.len() && 0 <= j < sa[k].len() && #[trigger] sa[k][j] == m;
                    assert(sb[k][j] == sa[k][j]);
                }
            }
        }
    }
}

/// The first dummy of the slot made for port `key`.
fn find_dummy(g: &LGraph, slot: &Vec<usize>, key: usize) -> (res: Option<usize>)
    requires
        forall|j: int| 0 <= j < slot@.len() ==> #[trigger] slot@[j] < g.nodes@.len(),
    ensures
        res == dummy_in_slot(g, slot@, key),
{
    let mut j: usize = 0;
    assert(slot@.skip(0) == slot@);
    while j < slot.len()
        invariant
            j <= slot@.len(),
            forall|i: int| 0 <= i < slot@.len() ==> #[trigger] slot@[i] < g.nodes@.len(),
            dummy_in_slot(g, slot@, key) == dummy_in_slot(g, slot@.skip(j as int), key),
        decreases slot@.len() - j,
    {
        let d = slot[j];
        assert(slot@.skip(j as int)[0] == d);
        match g.nodes[d].origin {
            Origin::Port(k) => {
                if k == key {
                    return Some(d);
                }
            },
            _ => {},
        }
        assert(slot@.skip(j as int).drop_first() == slot@.skip(j as int + 1));
        j += 1;
    }
    assert(slot@.skip(j as int).len() == 0);
    None
}

/// Appends the dummy that stands in for external port dummy `s`, with its
/// two ports, and returns it.
fn add_replacement(g: &mut LGraph, s: usize) -> (d: usize)
    requires
        old(g).wf(),
        old(g).layers_listed(),
        s < old(g).nodes@.len(),
        old(g).nodes@.len() + 1 <= usize::MAX,
        old(g).ports@.len() + 2 <= usize::MAX,
    ensures
        final(g).wf(),
        final(g).layers_listed(),
        d == old(g).nodes@.len(),
        final(g).nodes@.len() == d + 1,
        forall|m: int| 0 <= m < d ==> #[trigger] final(g).nodes@[m] == old(g).nodes@[m],
        replacement_dummy(final(g).nodes@[d as int], old(g).nodes@[s as int], s as int, old(g).ports@.len() as int),
        final(g).ports@.len() == old(g).ports@.len() + 2,
        forall|p: int| 0 <= p < old(g).ports@.len() ==> #[trigger] final(g).ports@[p] == old(g).ports@[p],
        fresh_port(final(g).ports@[old(g).ports@.len() as int], d as int, PortSide::West),
        fresh_port(final(g).ports@[old(g).ports@.len() + 1int], d as int, PortSide::East),
        final(g).edges == old(g).edges,
        final(g).layers == old(g).layers,
        final(g).layerless_nodes == old(g).layerless_nodes,
{
    let ghost g0 = *g;
    let d = g.nodes.len();
    let p0 = g.ports.len();
    let mut ip = LPort::new();
    ip.node = Some(d);
    ip.side = PortSide::West;
    g.ports.push(ip);
    let mut op = LPort::new();
    op.node = Some(d);
    op.side = PortSide::East;
    g.ports.push(op);
    let o = &g.nodes[s];
    let c = LNode {
        node_type: NodeType::ExternalPort,
        ports: vec![p0, p0 + 1],
        layer: None,
        id: 0,
        layer_constraint: o.layer_constraint,
        in_layer_constraint: o.in_layer_constraint,
        edge_constraint: o.edge_constraint,
        port_constraints: Some(PortConstraints::FixedPos),
        origin: o.origin,
        in_layer_layout_unit: o.in_layer_layout_unit,
        in_layer_successor_constraints: copy_list(&o.in_layer_successor_constraints),
        ext_port_side: o.ext_port_side,
        layer_id: o.layer_id,
        position_id: o.position_id,
        long_edge_source: o.long_edge_source,
        long_edge_target: o.long_edge_target,
        long_edge_has_label_dummies: o.long_edge_has_label_dummies,
        long_edge_before_label_dummy: o.long_edge_before_label_dummy,
        layer_split: o.layer_split,
        reset_on_long_edges: o.reset_on_long_edges,
        minimize_edge_length: o.minimize_edge_length,
        breaking_point_info: o.breaking_point_info,
        comment_box: o.comment_box,
        comment_conn_port: o.comment_conn_port,
        alignment: Some(Alignment::Center),
        ext_port_replaced_dummy: Some(s),
        represented_labels: copy_labels(&o.represented_labels),
        label_placement: o.label_placement,
    };
    g.nodes.push(c);
    proof {
        assert(g.nodes@[d as int].ports@ == seq![p0, (p0 + 1) as usize]);
        assert forall|x: int| 0 <= x < g.edges@.len() implies #[trigger] g.edges@[x].source < g.ports@.len()
            && g.edges@[x].target < g.ports@.len() by {
            assert(g.edges@[x] == g0.edges@[x]);
        }
        assert forall|p: int| 0 <= p < g.ports@.len() implies (#[trigger] g.ports@[p].node matches Some(n) ==> n
            < g.nodes@.len()) by {
            if p < p0 {
                assert(g.ports@[p] == g0.ports@[p]);
            }
        }
        assert forall|n: int, i: int| 0 <= n < g.nodes@.len() && 0 <= i < g.nodes@[n].ports@.len() implies {
            &&& #[trigger] g.nodes@[n].ports@[i] < g.ports@.len()
            &&& g.ports@[g.nodes@[n].ports@[i] as int].node == Some(n as usize)
        } by {
            if n < d {
                assert(g.nodes@[n] == g0.nodes@[n]);
                assert(g0.nodes@[n].ports@[i] < g0.ports@.len());
                assert(g.ports@[g0.nodes@[n].ports@[i] as int] == g0.ports@[g0.nodes@[n].ports@[i] as int]);
            }
        }
        assert forall|k: int, i: int| 0 <= k < g.layers@.len() && 0 <= i < g.layers@[k]@.len() implies {
            &&& #[trigger] g.layers@[k]@[i] < g.nodes@.len()
            &&& g.nodes@[g.layers@[k]@[i] as int].layer == Some(k as usize)
        } by {
            assert(g0.layers@[k]@[i] < g0.nodes@.len());
            assert(g.nodes@[g0.layers@[k]@[i] as int] == g0.nodes@[g0.layers@[k]@[i] as int]);
        }
        assert forall|k: int| 0 <= k < g.layerless_nodes@.len() implies #[trigger] g.layerless_nodes@[k]
            < g.nodes@.len() by {
            assert(g0.layerless_nodes@[k] < g0.nodes@.len());
        }
        assert forall|n: int| 0 <= n < g.nodes@.len() implies (#[trigger] g.nodes@[n].layer matches Some(k) ==> (k
            < g.layers@.len() && g.layers@[k as int]@.contains(n as usize))) by {
            if n < d {
                assert(g.nodes@[n] == g0.nodes@[n]);
            }
        }
    }
    d
}


/// Whether a node is an external port dummy of a northern or southern port.
fn north_south_dummy(n: &LNode) -> (res: bool)
    ensures
        res == is_north_south_dummy(*n),
{
    n.node_type == NodeType::ExternalPort && match n.ext_port_side {
        Some(PortSide::North) => true,
        Some(PortSide::South) => true,
        _ => false,
    }
}

/// Gives edge `e` its turn from a node that it enters (`incoming`) or
/// leaves (see `edge_turn`).
#[verifier::spinoff_prover]
fn turn_edge(g: &mut LGraph, slots: &mut Vec<Vec<usize>>, slot: usize, e: usize, incoming: bool)
    requires
        old(g).wf(),
        old(g).layers_listed(),
        slots_ok(old(g), slot_views(old(slots)@)),
        slot < old(slots)@.len(),
        e < old(g).edges@.len(),
        old(g).nodes@.len() + 1 <= usize::MAX,
        old(g).ports@.len() + 2 <= usize::MAX,
    ensures
        final(g).wf(),
        final(g).layers_listed(),
        slots_ok(final(g), slot_views(final(slots)@)),
        final(slots)@.len() == old(slots)@.len(),
        edge_turn(
            old(g),
            slot_views(old(slots)@),
            final(g),
            slot_views(final(slots)@),
            slot as int,
            e as int,
            incoming,
        ),
{
    let ghost g0 = *g;
    let ghost s0 = slot_views(slots@);
    assert(g.edges@[e as int].source < g.ports@.len());
    let p = if incoming {
        g.edges[e].source
    } else {
        g.edges[e].target
    };
    let s = match g.ports[p].node {
        Some(s) => {
            assert(g.ports@[p as int].node matches Some(n) ==> n < g.nodes@.len());
            s
        },
        None => {
            return;
        },
    };
    if !north_south_dummy(&g.nodes[s]) {
        return;
    }
    let key = match g.nodes[s].origin {
        Origin::Port(k) => k,
        _ => {
            return;
        },
    };
    assert(replaceable(&g0, e as int, incoming));
    proof {
        assert forall|j: int| 0 <= j < slots@[slot as int]@.len() implies #[trigger] slots@[slot as int]@[j]
            < g.nodes@.len() by {
            assert(s0[slot as int][j] == slots@[slot as int]@[j]);
        }
    }
    let found = find_dummy(g, &slots[slot], key);
    assert(s0[slot as int] == slots@[slot as int]@);
    let end: usize = if incoming {
        1
    } else {
        0
    };
    let ghost g1 = *g;
    let port = match found {
        Some(d) => {
            proof {
                lemma_dummy_in_slot(&g0, s0[slot as int], key);
                let j = choose|j: int| 0 <= j < s0[slot as int].len() && s0[slot as int][j] == d;
                assert(s0[slot as int][j] == d);
                assert(g.nodes@[d as int].ports@.len() == 2);
            }
            g.nodes[d].ports[end]
        },
        None => {
            let d = add_replacement(g, s);
            let mut list = copy_list(&slots[slot]);
            list.push(d);
            slots.set(slot, list);
            proof {
                let s1 = slot_views(slots@);
                assert(s1 =~= s0.update(slot as int, s0[slot as int].push(d)));
                assert forall|k: int, j: int| 0 <= k < s1.len() && 0 <= j < s1[k].len() implies {
                    &&& #[trigger] s1[k][j] < g.nodes@.len()
                    &&& is_north_south_dummy(g.nodes@[s1[k][j] as int])
                    &&& g.nodes@[s1[k][j] as int].ports@.len() == 2
                    &&& g.nodes@[s1[k][j] as int].layer is None
                } by {
                    if k == slot && j == s0[k].len() {
                        assert(s1[k][j] == d);
                    } else {
                        assert(s1[k][j] == s0[k][j]);
                        assert(g.nodes@[s0[k][j] as int] == g0.nodes@[s0[k][j] as int]);
                    }
                }
            }
            g.nodes[d].ports[end]
        },
    };
    assert(g.wf());
    let ghost g2 = *g;
    let source = g.edges[e].source;
    let target = g.edges[e].target;
    let reversed = g.edges[e].reversed;
    if incoming {
        g.edges.set(e, LEdge { source: port, target, reversed });
    } else {
        g.edges.set(e, LEdge { source, target: port, reversed });
    }
    proof {
        assert(g.edges@ =~= g0.edges@.update(e as int, with_far_end(g0.edges@[e as int], incoming, port)));
        assert(port < g.ports@.len());
        assert forall|x: int| 0 <= x < g.edges@.len() implies #[trigger] g.edges@[x].source < g.ports@.len()
            && g.edges@[x].target < g.ports@.len() by {
            assert(g2.edges@[x].source < g2.ports@.len() && g2.edges@[x].target < g2.ports@.len());
        }
    }
}


/// Port `p` is at the same end of the same edges in both graphs.
pub open spec fn same_ends_at(a: &LGraph, b: &LGraph, p: usize, forwards: bool) -> bool {
    forall|x: int|
        0 <= x < a.edges@.len() ==> (if forwards {
            (#[trigger] b.edges@[x]).source == p <==> a.edges@[x].source == p
        } else {
            b.edges@[x].target == p <==> a.edges@[x].target == p
        })
}

/// The edges at a list of ports are the same when each port is at the same
/// end of the same edges.
proof fn lemma_port_edges_agree(a: &LGraph, b: &LGraph, ps: Seq<usize>, forwards: bool)
    requires
        b.edges@.len() == a.edges@.len(),
        a.edges@.len() <= usize::MAX,
        forall|i: int| 0 <= i < ps.len() ==> same_ends_at(a, b, #[trigger] ps[i], forwards),
    ensures
        port_edges(b, ps, forwards) == port_edges(a, ps, forwards),
    decreases ps.len(),
{
    if ps.len() > 0 {
        let d = ps.drop_last();
        assert forall|i: int| 0 <= i < d.len() implies same_ends_at(a, b, #[trigger] d[i], forwards) by {
            assert(d[i] == ps[i]);
        }
        lemma_port_edges_agree(a, b, d, forwards);
        let q = ps.last();
        assert(same_ends_at(a, b, ps[ps.len() - 1], forwards));
        let base = Seq::new(a.edges@.len(), |x: int| x as usize);
        assert(Seq::new(b.edges@.len(), |x: int| x as usize) == base);
        if forwards {
            assert forall|i: int| 0 <= i < base.len() implies (|x: usize| b.edges@[x as int].source == q)(
                #[trigger] base[i],
            ) == (|x: usize| a.edges@[x as int].source == q)(base[i]) by {
                assert(base[i] as int == i);
                assert(b.edges@[i].source == q <==> a.edges@[i].source == q);
            }
            lemma_filter_agree(
                base,
                |x: usize| b.edges@[x as int].source == q,
                |x: usize| a.edges@[x as int].source == q,
            );
        } else {
            assert forall|i: int| 0 <= i < base.len() implies (|x: usize| b.edges@[x as int].target == q)(
                #[trigger] base[i],
            ) == (|x: usize| a.edges@[x as int].target == q)(base[i]) by {
                assert(base[i] as int == i);
                assert(b.edges@[i].target == q <==> a.edges@[i].target == q);
            }
            lemma_filter_agree(
                base,
                |x: usize| b.edges@[x as int].target == q,
                |x: usize| a.edges@[x as int].target == q,
            );
        }
    }
}

/// A turn of an edge keeps the edges of every node of the old graph that is
/// no northern or southern external port dummy.
pub proof fn lemma_turn_keeps_node_edges(
    a: &LGraph,
    sa: Seq<Seq<usize>>,
    b: &LGraph,
    sb: Seq<Seq<usize>>,
    slot: int,
    e: int,
    incoming: bool,
    m: usize,
    forwards: bool,
)
    requires
        a.wf(),
        slots_ok(a, sa),
        0 <= slot < sa.len(),
        0 <= e < a.edges@.len(),
        edge_turn(a, sa, b, sb, slot, e, incoming),
        m < a.nodes@.len(),
        !is_north_south_dummy(a.nodes@[m as int]),
        a.ports@.len() + 2 <= usize::MAX,
    ensures
        node_edges_of(b, m, forwards) == node_edges_of(a, m, forwards),
{
    if replaceable(a, e, incoming) {
        let s = far_node(a, e, incoming)->0;
        let key = origin_port_key(a.nodes@[s as int])->0;
        let end: int = if incoming {
            1
        } else {
            0
        };
        let old_port = if incoming {
            a.edges@[e].source
        } else {
            a.edges@[e].target
        };
        let new_port = if incoming {
            b.edges@[e].source
        } else {
            b.edges@[e].target
        };
        assert(a.edges@[e].source < a.ports@.len() && a.edges@[e].target < a.ports@.len());
        assert(a.ports@[old_port as int].node == Some(s));
        assert(b.nodes@[m as int] == a.nodes@[m as int]);
        assert(b.edges@.len() == a.edges@.len());
        match dummy_in_slot(a, sa[slot], key) {
            Some(d) => {
                lemma_dummy_in_slot(a, sa[slot], key);
                let j = choose|j: int| 0 <= j < sa[slot].len() && sa[slot][j] == d;
                assert(sa[slot][j] == d);
                assert(a.nodes@[d as int].ports@.len() == 2);
                assert(new_port == a.nodes@[d as int].ports@[end]);
                assert(a.ports@[new_port as int].node == Some(d));
            },
            None => {
                assert(new_port >= a.ports@.len());
            },
        }
        let ps = a.nodes@[m as int].ports@;
        assert forall|i: int| 0 <= i < ps.len() implies same_ends_at(a, b, #[trigger] ps[i], forwards) by {
            let q = ps[i];
            assert(a.nodes@[m as int].ports@[i] < a.ports@.len());
            assert(a.ports@[q as int].node == Some(m));
            assert(q != old_port);
            assert(q != new_port);
            assert forall|x: int| 0 <= x < a.edges@.len() implies (if forwards {
                (#[trigger] b.edges@[x]).source == q <==> a.edges@[x].source == q
            } else {
                b.edges@[x].target == q <==> a.edges@[x].target == q
            }) by {
                if x != e {
                    assert(b.edges@[x] == a.edges@[x]);
                }
            }
        }
        lemma_port_edges_agree(a, b, ps, forwards);
    }
}


/// The state of the pass over the layers: the graph, the new dummies of each
/// slot in the order they were made (slot `k` for the layer that comes
/// before layer `k - 1`, so the first and last slots stand for new outer
/// layers), and the replaced dummies in the order they were met.
pub struct PassState {
    pub graph: LGraph,
    pub slots: Seq<Seq<usize>>,
    pub replaced: Seq<usize>,
}

/// The pass state that a graph, slots and list of replaced dummies make up.
pub open spec fn pass_state(g: &LGraph, slots: Seq<Vec<usize>>, replaced: Seq<usize>) -> PassState {
    PassState { graph: *g, slots: slot_views(slots), replaced }
}

/// One edge's turn (see `edge_turn`); the replaced dummies stay.
pub open spec fn edge_step(a: PassState, b: PassState, slot: int, e: int, incoming: bool) -> bool {
    &&& edge_turn(&a.graph, a.slots, &b.graph, b.slots, slot, e, incoming)
    &&& b.replaced == a.replaced
}

/// The states after each of the edges in turn had its turn.
pub open spec fn edges_chain(chain: Seq<PassState>, slot: int, es: Seq<usize>, incoming: bool) -> bool {
    &&& chain.len() == es.len() + 1
    &&& forall|j: int|
        0 <= j < es.len() ==> #[trigger] edge_step(chain[j], chain[j + 1], slot, es[j] as int, incoming)
}

/// `b` is `a` after the edges had their turns in order.
pub open spec fn edges_done(a: PassState, b: PassState, slot: int, es: Seq<usize>, incoming: bool) -> bool {
    exists|chain: Seq<PassState>|
        #[trigger] edges_chain(chain, slot, es, incoming) && chain[0] == a && chain.last() == b
}

/// `b` is `a` after node `n` of layer `i` had its turn: a northern or
/// southern external port dummy joins the replaced dummies; any other node
/// has the edges entering it, listed when its turn comes, take their turns
/// with slot `i`, and then the edges leaving it, listed after that, with
/// slot `i + 2`.
pub open spec fn node_turn(a: PassState, b: PassState, i: int, n: usize) -> bool {
    if is_north_south_dummy(a.graph.nodes@[n as int]) {
        &&& b.graph == a.graph
        &&& b.slots == a.slots
        &&& b.replaced == a.replaced.push(n)
    } else {
        exists|m: PassState|
            #[trigger] edges_done(a, m, i, node_edges_of(&a.graph, n, false), true) && edges_done(
                m,
                b,
                i + 2,
                node_edges_of(&m.graph, n, true),
                false,
            )
    }
}

/// The edges of the list take their turns from the node (see `edge_turn`);
/// the edges of the old nodes that are no northern or southern dummies stay.
fn turn_edges(
    g: &mut LGraph,
    slots: &mut Vec<Vec<usize>>,
    replaced: &Vec<usize>,
    slot: usize,
    es: &Vec<usize>,
    incoming: bool,
)
    requires
        old(g).wf(),
        old(g).layers_listed(),
        slots_ok(old(g), slot_views(old(slots)@)),
        slot < old(slots)@.len(),
        forall|j: int| 0 <= j < es@.len() ==> #[trigger] es@[j] < old(g).edges@.len(),
        old(g).nodes@.len() + es@.len() + 1 <= usize::MAX,
        old(g).ports@.len() + 2 * es@.len() + 2 <= usize::MAX,
    ensures
        final(g).wf(),
        final(g).layers_listed(),
        slots_ok(final(g), slot_views(final(slots)@)),
        final(slots)@.len() == old(slots)@.len(),
        edges_done(
            pass_state(old(g), old(slots)@, replaced@),
            pass_state(final(g), final(slots)@, replaced@),
            slot as int,
            es@,
            incoming,
        ),
        old(g).nodes@.len() <= final(g).nodes@.len() <= old(g).nodes@.len() + es@.len(),
        final(g).ports@.len() - old(g).ports@.len() == 2 * (final(g).nodes@.len() - old(g).nodes@.len()),
        final(g).edges@.len() == old(g).edges@.len(),
        final(g).layers == old(g).layers,
        final(g).layerless_nodes == old(g).layerless_nodes,
        forall|m: int| 0 <= m < old(g).nodes@.len() ==> #[trigger] final(g).nodes@[m] == old(g).nodes@[m],
        forall|m: usize, f: bool|
            m < old(g).nodes@.len() && !is_north_south_dummy(old(g).nodes@[m as int]) ==> #[trigger] node_edges_of(
                final(g),
                m,
                f,
            ) == node_edges_of(old(g), m, f),
        forall|base: int|
            base <= old(g).nodes@.len() && #[trigger] slot_facts(base, old(g), slot_views(old(slots)@))
                ==> slot_facts(base, final(g), slot_views(final(slots)@)),
{
    let ghost g0 = *g;
    let ghost sl0 = slot_views(slots@);
    let ghost st0 = pass_state(g, slots@, replaced@);
    let ghost mut chain: Seq<PassState> = seq![st0];
    let mut j: usize = 0;
    while j < es.len()
        invariant
            g.wf(),
            g.layers_listed(),
            slots_ok(g, slot_views(slots@)),
            slots@.len() == old(slots)@.len(),
            slot < slots@.len(),
            g0.wf(),
            j <= es@.len(),
            forall|x: int| 0 <= x < es@.len() ==> #[trigger] es@[x] < g0.edges@.len(),
            g0.nodes@.len() + es@.len() + 1 <= usize::MAX,
            g0.ports@.len() + 2 * es@.len() + 2 <= usize::MAX,
            g0.nodes@.len() <= g.nodes@.len() <= g0.nodes@.len() + j,
            g.ports@.len() - g0.ports@.len() == 2 * (g.nodes@.len() - g0.nodes@.len()),
            g.edges@.len() == g0.edges@.len(),
            g.layers == g0.layers,
            g.layerless_nodes == g0.layerless_nodes,
            forall|m: int| 0 <= m < g0.nodes@.len() ==> #[trigger] g.nodes@[m] == g0.nodes@[m],
            forall|m: usize, f: bool|
                m < g0.nodes@.len() && !is_north_south_dummy(g0.nodes@[m as int]) ==> #[trigger] node_edges_of(
                    g,
                    m,
                    f,
                ) == node_edges_of(&g0, m, f),
            chain.len() == j + 1,
            chain[0] == st0,
            chain[j as int] == pass_state(g, slots@, replaced@),
            forall|k: int|
                0 <= k < j ==> #[trigger] edge_step(chain[k], chain[k + 1], slot as int, es@[k] as int, incoming),
            forall|base: int|
                base <= g0.nodes@.len() && #[trigger] slot_facts(base, &g0, sl0) ==> slot_facts(
                    base,
                    g,
                    slot_views(slots@),
                ),
        decreases es@.len() - j,
    {
        let ghost gb = *g;
        let ghost sb = slot_views(slots@);
        turn_edge(g, slots, slot, es[j], incoming);
        proof {
            assert forall|base: int| base <= g0.nodes@.len() && #[trigger] slot_facts(base, &g0, sl0) implies slot_facts(
                base,
                g,
                slot_views(slots@),
            ) by {
                lemma_turn_keeps_slot_facts(&gb, sb, g, slot_views(slots@), slot as int, es@[j as int] as int, incoming, base);
            }
            assert forall|m: usize, f: bool|
                m < g0.nodes@.len() && !is_north_south_dummy(g0.nodes@[m as int]) implies #[trigger] node_edges_of(
                    g,
                    m,
                    f,
                ) == node_edges_of(&g0, m, f) by {
                assert(gb.nodes@[m as int] == g0.nodes@[m as int]);
                lemma_turn_keeps_node_edges(&gb, sb, g, slot_views(slots@), slot as int, es@[j as int] as int, incoming, m, f);
                assert(node_edges_of(&gb, m, f) == node_edges_of(&g0, m, f));
            }
            assert forall|m: int| 0 <= m < g0.nodes@.len() implies #[trigger] g.nodes@[m] == g0.nodes@[m] by {
                assert(gb.nodes@[m] == g0.nodes@[m]);
            }
            let old_chain = chain;
            chain = chain.push(pass_state(g, slots@, replaced@));
            assert forall|k: int| 0 <= k < j + 1 implies #[trigger] edge_step(
                chain[k],
                chain[k + 1],
                slot as int,
                es@[k] as int,
                incoming,
            ) by {
                if k < j {
                    assert(chain[k] == old_chain[k]);
                    assert(chain[k + 1] == old_chain[k + 1]);
                }
            }
        }
        j += 1;
    }
    proof {
        assert(edges_chain(chain, slot as int, es@, incoming));
    }
}


/// The number of edge turns that node `n` takes when its turn comes.
pub open spec fn node_visits(g: &LGraph, n: usize) -> nat {
    if is_north_south_dummy(g.nodes@[n as int]) {
        0
    } else {
        node_edges_of(g, n, false).len() + node_edges_of(g, n, true).len()
    }
}

/// Gives node `n` of layer `i` its turn (see `node_turn`).
fn turn_node(g: &mut LGraph, slots: &mut Vec<Vec<usize>>, replaced: &mut Vec<usize>, i: usize, n: usize)
    requires
        old(g).wf(),
        old(g).layers_listed(),
        slots_ok(old(g), slot_views(old(slots)@)),
        i + 2 < old(slots)@.len(),
        n < old(g).nodes@.len(),
        old(g).nodes@.len() + node_visits(old(g), n) + 1 <= usize::MAX,
        old(g).ports@.len() + 2 * node_visits(old(g), n) + 2 <= usize::MAX,
    ensures
        final(g).wf(),
        final(g).layers_listed(),
        slots_ok(final(g), slot_views(final(slots)@)),
        final(slots)@.len() == old(slots)@.len(),
        node_turn(
            pass_state(old(g), old(slots)@, old(replaced)@),
            pass_state(final(g), final(slots)@, final(replaced)@),
            i as int,
            n,
        ),
        old(g).nodes@.len() <= final(g).nodes@.len() <= old(g).nodes@.len() + node_visits(old(g), n),
        final(g).ports@.len() - old(g).ports@.len() == 2 * (final(g).nodes@.len() - old(g).nodes@.len()),
        final(g).edges@.len() == old(g).edges@.len(),
        final(g).layers == old(g).layers,
        final(g).layerless_nodes == old(g).layerless_nodes,
        forall|m: int| 0 <= m < old(g).nodes@.len() ==> #[trigger] final(g).nodes@[m] == old(g).nodes@[m],
        forall|m: usize, f: bool|
            m < old(g).nodes@.len() && !is_north_south_dummy(old(g).nodes@[m as int]) ==> #[trigger] node_edges_of(
                final(g),
                m,
                f,
            ) == node_edges_of(old(g), m, f),
        forall|base: int|
            base <= old(g).nodes@.len() && #[trigger] slot_facts(base, old(g), slot_views(old(slots)@))
                ==> slot_facts(base, final(g), slot_views(final(slots)@)),
        final(replaced)@ == if is_north_south_dummy(old(g).nodes@[n as int]) {
            old(replaced)@.push(n)
        } else {
            old(replaced)@
        },
{
    let ghost g0 = *g;
    if north_south_dummy(&g.nodes[n]) {
        replaced.push(n);
        return;
    }
    let slot_count = slots.len();
    assert(i + 2 < slot_count);
    let ins = node_edges(g, n, false);
    turn_edges(g, slots, replaced, i, &ins, true);
    let ghost mid = pass_state(g, slots@, replaced@);
    let outs = node_edges(g, n, true);
    assert(node_edges_of(g, n, true) == node_edges_of(&g0, n, true));
    turn_edges(g, slots, replaced, i + 2, &outs, false);
    proof {
        assert(node_edges_of(&mid.graph, n, true) == outs@);
        assert(edges_done(pass_state(&g0, old(slots)@, old(replaced)@), mid, i as int, node_edges_of(&g0, n, false), true));
    }
}


/// The states after each node of the list in turn had its turn in layer `i`.
pub open spec fn nodes_chain(chain: Seq<PassState>, i: int, nodes: Seq<usize>) -> bool {
    &&& chain.len() == nodes.len() + 1
    &&& forall|j: int| 0 <= j < nodes.len() ==> #[trigger] node_turn(chain[j], chain[j + 1], i, nodes[j])
}

/// `b` is `a` after the nodes of layer `i` had their turns in order.
pub open spec fn layer_turn(a: PassState, b: PassState, i: int) -> bool {
    exists|chain: Seq<PassState>|
        #[trigger] nodes_chain(chain, i, a.graph.layers@[i]@) && chain[0] == a && chain.last() == b
}

/// The states after each layer in turn had its turn.
pub open spec fn layers_chain(chain: Seq<PassState>) -> bool {
    forall|l: int| 0 <= l < chain.len() - 1 ==> #[trigger] layer_turn(chain[l], chain[l + 1], l)
}

/// The state before the pass: the graph, empty slots for the layers and the
/// two new outer layers, and no replaced dummies.
pub open spec fn pass_start(g: &LGraph) -> PassState {
    PassState {
        graph: *g,
        slots: Seq::new((g.layers@.len() + 2) as nat, |k: int| Seq::<usize>::empty()),
        replaced: Seq::empty(),
    }
}

/// `b` is `a` after every layer in turn had its turn.
pub open spec fn pass_done(a: PassState, b: PassState) -> bool {
    exists|chain: Seq<PassState>|
        #[trigger] layers_chain(chain) && chain.len() == a.graph.layers@.len() + 1 && chain[0] == a
            && chain.last() == b
}

/// The edge turns of the nodes of the list.
pub open spec fn visits_of(g: &LGraph, nodes: Seq<usize>) -> nat
    decreases nodes.len(),
{
    if nodes.len() == 0 {
        0
    } else {
        visits_of(g, nodes.drop_last()) + node_visits(g, nodes.last())
    }
}

/// The edge turns of the nodes of the first `k` layers.
pub open spec fn visits_before(g: &LGraph, k: int) -> nat
    decreases k,
{
    if k <= 0 {
        0
    } else {
        visits_before(g, k - 1) + visits_of(g, g.layers@[k - 1]@)
    }
}

/// A prefix of a list takes no more turns than the list.
proof fn lemma_visits_of_prefix(g: &LGraph, nodes: Seq<usize>, i: int)
    requires
        0 <= i <= nodes.len(),
    ensures
        visits_of(g, nodes.take(i)) <= visits_of(g, nodes),
    decreases nodes.len() - i,
{
    if i < nodes.len() {
        lemma_visits_of_prefix(g, nodes, i + 1);
        assert(nodes.take(i + 1).drop_last() == nodes.take(i));
    } else {
        assert(nodes.take(i) == nodes);
    }
}

/// The first layers take no more turns than more layers.
proof fn lemma_visits_before_grows(g: &LGraph, k1: int, k2: int)
    requires
        0 <= k1 <= k2,
    ensures
        visits_before(g, k1) <= visits_before(g, k2),
    decreases k2 - k1,
{
    if k1 < k2 {
        lemma_visits_before_grows(g, k1, k2 - 1);
    }
}

/// What the pass leaves for the placement of the new dummies: the slots
/// hold distinct new dummies, exactly the nodes added to the graph, and the
/// replaced dummies are distinct nodes of the old graph.
pub open spec fn pass_facts(g0: &LGraph, p: PassState) -> bool {
    &&& slots_ok(&p.graph, p.slots)
    &&& p.slots.len() == g0.layers@.len() + 2
    &&& slot_facts(g0.nodes@.len() as int, &p.graph, p.slots)
    &&& p.replaced.no_duplicates()
    &&& forall|j: int| 0 <= j < p.replaced.len() ==> #[trigger] p.replaced[j] < g0.nodes@.len()
    &&& p.replaced == north_south_in_layers(g0)
    &&& p.graph.nodes@.len() >= g0.nodes@.len()
    &&& forall|m: int| 0 <= m < g0.nodes@.len() ==> #[trigger] p.graph.nodes@[m] == g0.nodes@[m]
}


/// The nodes of the first `i` layers, layer by layer.
pub open spec fn layer_nodes_before(g: &LGraph, i: int) -> Seq<usize>
    decreases i,
{
    if i <= 0 {
        Seq::empty()
    } else {
        layer_nodes_before(g, i - 1) + g.layers@[i - 1]@
    }
}

/// The northern and southern external port dummies of the layers, layer by
/// layer.
pub open spec fn north_south_in_layers(g: &LGraph) -> Seq<usize> {
    layer_nodes_before(g, g.layers@.len() as int).filter(|n: usize| is_north_south_dummy(g.nodes@[n as int]))
}

/// A replaced dummy was met in a layer before layer `i`, or among the first
/// nodes of the list.
pub open spec fn met_before(g0: &LGraph, r: usize, i: int, firsts: Seq<usize>) -> bool {
    ||| (g0.nodes@[r as int].layer matches Some(x) && x < i)
    ||| firsts.contains(r)
}

/// Lets each layer in turn have its turn, its nodes in their order (see
/// `pass_done`); returns the slots and the replaced dummies.
fn run_pass(g: &mut LGraph) -> (res: (Vec<Vec<usize>>, Vec<usize>))
    requires
        old(g).wf(),
        old(g).layers_listed(),
        old(g).layers@.len() + 2 <= usize::MAX,
        old(g).nodes@.len() + visits_before(old(g), old(g).layers@.len() as int) + 1 <= usize::MAX,
        old(g).ports@.len() + 2 * visits_before(old(g), old(g).layers@.len() as int) + 2 <= usize::MAX,
    ensures
        final(g).wf(),
        final(g).layers_listed(),
        pass_done(pass_start(old(g)), pass_state(final(g), res.0@, res.1@)),
        pass_facts(old(g), pass_state(final(g), res.0@, res.1@)),
        final(g).layers == old(g).layers,
        final(g).layerless_nodes == old(g).layerless_nodes,
        final(g).nodes@.len() >= old(g).nodes@.len(),
        forall|m: int| 0 <= m < old(g).nodes@.len() ==> #[trigger] final(g).nodes@[m] == old(g).nodes@[m],
{
    let ghost g0 = *g;
    let ghost n0 = g0.nodes@.len() as int;
    let ghost total = visits_before(&g0, g0.layers@.len() as int);
    let ghost nsp = |n: usize| is_north_south_dummy(g0.nodes@[n as int]);
    let nl = g.layers.len();
    let mut slots: Vec<Vec<usize>> = Vec::new();
    let mut k: usize = 0;
    while k < nl + 2
        invariant
            k <= nl + 2,
            nl + 2 <= usize::MAX,
            slots@.len() == k,
            forall|x: int| 0 <= x < k ==> #[trigger] slots@[x]@.len() == 0,
        decreases nl + 2 - k,
    {
        slots.push(Vec::new());
        k += 1;
    }
    let mut replaced: Vec<usize> = Vec::new();
    proof {
        assert(layer_nodes_before(&g0, 0).filter(nsp) =~= Seq::<usize>::empty()) by {
            reveal_with_fuel(Seq::filter, 1);
        }
        assert forall|x: int| 0 <= x < nl + 2 implies #[trigger] slot_views(slots@)[x] == Seq::<usize>::empty() by {
            assert(slots@[x]@.len() == 0);
            assert(slots@[x]@ =~= Seq::<usize>::empty());
        }
        assert(slot_views(slots@) =~= pass_start(&g0).slots);
        assert(pass_state(g, slots@, replaced@) == pass_start(&g0));
    }
    let ghost mut chain: Seq<PassState> = seq![pass_start(&g0)];
    let mut i: usize = 0;
    while i < nl
        invariant
            g.wf(),
            g.layers_listed(),
            g0.wf(),
            n0 == g0.nodes@.len(),
            nl == g0.layers@.len(),
            nl + 2 <= usize::MAX,
            total == visits_before(&g0, nl as int),
            g0.nodes@.len() + total + 1 <= usize::MAX,
            g0.ports@.len() + 2 * total + 2 <= usize::MAX,
            i <= nl,
            slots@.len() == nl + 2,
            slots_ok(g, slot_views(slots@)),
            slot_facts(n0, g, slot_views(slots@)),
            g.layers == g0.layers,
            g.layerless_nodes == g0.layerless_nodes,
            g.edges@.len() == g0.edges@.len(),
            g0.nodes@.len() <= g.nodes@.len() <= g0.nodes@.len() + visits_before(&g0, i as int),
            g.ports@.len() - g0.ports@.len() == 2 * (g.nodes@.len() - g0.nodes@.len()),
            forall|m: int| 0 <= m < g0.nodes@.len() ==> #[trigger] g.nodes@[m] == g0.nodes@[m],
            forall|m: usize, f: bool|
                m < g0.nodes@.len() && !is_north_south_dummy(g0.nodes@[m as int]) ==> #[trigger] node_edges_of(
                    g,
                    m,
                    f,
                ) == node_edges_of(&g0, m, f),
            replaced@.no_duplicates(),
            forall|r: int|
                0 <= r < replaced@.len() ==> #[trigger] replaced@[r] < g0.nodes@.len() && met_before(
                    &g0,
                    replaced@[r],
                    i as int,
                    Seq::empty(),
                ),
            nsp == (|n: usize| is_north_south_dummy(g0.nodes@[n as int])),
            replaced@ == layer_nodes_before(&g0, i as int).filter(nsp),
            chain.len() == i + 1,
            chain[0] == pass_start(&g0),
            chain[i as int] == pass_state(g, slots@, replaced@),
            forall|l: int| 0 <= l < i ==> #[trigger] layer_turn(chain[l], chain[l + 1], l),
        decreases nl - i,
    {
        let nodes = copy_list(&g.layers[i]);
        let ghost gl = pass_state(g, slots@, replaced@);
        let ghost mut ichain: Seq<PassState> = seq![gl];
        proof {
            lemma_visits_before_grows(&g0, i as int + 1, nl as int);
            assert forall|r: int| 0 <= r < replaced@.len() implies #[trigger] replaced@[r] < g0.nodes@.len()
                && met_before(&g0, replaced@[r], i as int, nodes@.take(0)) by {
                assert(met_before(&g0, replaced@[r], i as int, Seq::empty()));
            }
        }
        let mut j: usize = 0;
        while j < nodes.len()
            invariant
                g.wf(),
                g.layers_listed(),
                g0.wf(),
                n0 == g0.nodes@.len(),
                nl == g0.layers@.len(),
                i < nl,
                nodes@ == g0.layers@[i as int]@,
                visits_before(&g0, i as int + 1) <= total,
                g0.nodes@.len() + total + 1 <= usize::MAX,
                g0.ports@.len() + 2 * total + 2 <= usize::MAX,
                j <= nodes@.len(),
                slots@.len() == nl + 2,
                slots_ok(g, slot_views(slots@)),
                slot_facts(n0, g, slot_views(slots@)),
                g.layers == g0.layers,
                g.layerless_nodes == g0.layerless_nodes,
                g.edges@.len() == g0.edges@.len(),
                g0.nodes@.len() <= g.nodes@.len() <= g0.nodes@.len() + visits_before(&g0, i as int) + visits_of(
                    &g0,
                    nodes@.take(j as int),
                ),
                g.ports@.len() - g0.ports@.len() == 2 * (g.nodes@.len() - g0.nodes@.len()),
                forall|m: int| 0 <= m < g0.nodes@.len() ==> #[trigger] g.nodes@[m] == g0.nodes@[m],
                forall|m: usize, f: bool|
                    m < g0.nodes@.len() && !is_north_south_dummy(g0.nodes@[m as int]) ==> #[trigger] node_edges_of(
                        g,
                        m,
                        f,
                    ) == node_edges_of(&g0, m, f),
                replaced@.no_duplicates(),
                forall|r: int|
                    0 <= r < replaced@.len() ==> #[trigger] replaced@[r] < g0.nodes@.len() && met_before(
                        &g0,
                        replaced@[r],
                        i as int,
                        nodes@.take(j as int),
                    ),
                nsp == (|n: usize| is_north_south_dummy(g0.nodes@[n as int])),
                replaced@ == (layer_nodes_before(&g0, i as int) + nodes@.take(j as int)).filter(nsp),
                ichain.len() == j + 1,
                ichain[0] == gl,
                ichain[j as int] == pass_state(g, slots@, replaced@),
                forall|x: int| 0 <= x < j ==> #[trigger] node_turn(ichain[x], ichain[x + 1], i as int, nodes@[x]),
            decreases nodes@.len() - j,
        {
            let n = nodes[j];
            let ghost gb = *g;
            let ghost before = pass_state(g, slots@, replaced@);
            let ghost rb = replaced@;
            proof {
                assert(g0.layers@[i as int]@[j as int] < g0.nodes@.len());
                assert(g0.nodes@[n as int].layer == Some(i));
                assert(nodes@.take(j as int + 1).drop_last() == nodes@.take(j as int));
                lemma_visits_of_prefix(&g0, nodes@, j as int + 1);
                assert(node_visits(g, n) == node_visits(&g0, n)) by {
                    assert(g.nodes@[n as int] == g0.nodes@[n as int]);
                    if !is_north_south_dummy(g0.nodes@[n as int]) {
                        assert(node_edges_of(g, n, true) == node_edges_of(&g0, n, true));
                        assert(node_edges_of(g, n, false) == node_edges_of(&g0, n, false));
                    }
                }
            }
            turn_node(g, &mut slots, &mut replaced, i, n);
            proof {
                assert(slot_facts(n0, &gb, before.slots));
                assert forall|m: usize, f: bool|
                    m < g0.nodes@.len() && !is_north_south_dummy(g0.nodes@[m as int]) implies #[trigger] node_edges_of(
                        g,
                        m,
                        f,
                    ) == node_edges_of(&g0, m, f) by {
                    assert(gb.nodes@[m as int] == g0.nodes@[m as int]);
                    assert(node_edges_of(g, m, f) == node_edges_of(&gb, m, f));
                }
                assert forall|m: int| 0 <= m < g0.nodes@.len() implies #[trigger] g.nodes@[m] == g0.nodes@[m] by {
                    assert(gb.nodes@[m] == g0.nodes@[m]);
                }
                assert(gb.nodes@[n as int] == g0.nodes@[n as int]);
                assert(nodes@.take(j as int + 1) == nodes@.take(j as int).push(n));
                assert(replaced@ == (layer_nodes_before(&g0, i as int) + nodes@.take(j as int + 1)).filter(nsp)) by {
                    let a = layer_nodes_before(&g0, i as int) + nodes@.take(j as int);
                    assert(layer_nodes_before(&g0, i as int) + nodes@.take(j as int + 1) == a.push(n));
                    reveal_with_fuel(Seq::filter, 1);
                    assert(a.push(n).drop_last() == a);
                }
                assert forall|r: int| 0 <= r < replaced@.len() implies #[trigger] replaced@[r] < g0.nodes@.len()
                    && met_before(&g0, replaced@[r], i as int, nodes@.take(j as int + 1)) by {
                    if r < rb.len() {
                        assert(replaced@[r] == rb[r]);
                        assert(met_before(&g0, rb[r], i as int, nodes@.take(j as int)));
                        if nodes@.take(j as int).contains(rb[r]) {
                            let x = choose|x: int| 0 <= x < j && nodes@.take(j as int)[x] == rb[r];
                            assert(nodes@.take(j as int + 1)[x] == rb[r]);
                        }
                    } else {
                        assert(replaced@[r] == n);
                        assert(nodes@.take(j as int + 1)[j as int] == n);
                    }
                }
                if is_north_south_dummy(g0.nodes@[n as int]) {
                    assert forall|r: int| 0 <= r < rb.len() implies rb[r] != n by {
                        assert(met_before(&g0, rb[r], i as int, nodes@.take(j as int)));
                        if nodes@.take(j as int).contains(rb[r]) && rb[r] == n {
                            let x = choose|x: int| 0 <= x < j && nodes@.take(j as int)[x] == rb[r];
                            assert(g0.layers@[i as int]@.no_duplicates());
                            assert(nodes@[x] == nodes@[j as int]);
                        }
                    }
                    assert(replaced@ == rb.push(n));
                    assert(replaced@.no_duplicates()) by {
                        assert forall|x: int, y: int| 0 <= x < y < replaced@.len() implies replaced@[x]
                            != replaced@[y] by {
                            if y < rb.len() {
                                assert(rb.no_duplicates());
                            }
                        }
                    }
                }
                let old_ichain = ichain;
                ichain = ichain.push(pass_state(g, slots@, replaced@));
                assert forall|x: int| 0 <= x < j + 1 implies #[trigger] node_turn(
                    ichain[x],
                    ichain[x + 1],
                    i as int,
                    nodes@[x],
                ) by {
                    if x < j {
                        assert(ichain[x] == old_ichain[x]);
                        assert(ichain[x + 1] == old_ichain[x + 1]);
                    } else {
                        assert(ichain[x] == before);
                    }
                }
            }
            j += 1;
        }
        proof {
            assert(nodes@.take(nodes@.len() as int) == nodes@);
            assert(layer_nodes_before(&g0, i as int + 1) == layer_nodes_before(&g0, i as int) + nodes@);
            assert(nodes_chain(ichain, i as int, gl.graph.layers@[i as int]@));
            assert(layer_turn(gl, pass_state(g, slots@, replaced@), i as int));
            assert forall|r: int| 0 <= r < replaced@.len() implies #[trigger] replaced@[r] < g0.nodes@.len()
                && met_before(&g0, replaced@[r], i as int + 1, Seq::empty()) by {
                assert(met_before(&g0, replaced@[r], i as int, nodes@));
                if nodes@.contains(replaced@[r]) {
                    let x = choose|x: int| 0 <= x < nodes@.len() && nodes@[x] == replaced@[r];
                    assert(g0.layers@[i as int]@[x] == replaced@[r]);
                }
            }
            let old_chain = chain;
            chain = chain.push(pass_state(g, slots@, replaced@));
            assert forall|l: int| 0 <= l < i + 1 implies #[trigger] layer_turn(chain[l], chain[l + 1], l) by {
                if l < i {
                    assert(chain[l] == old_chain[l]);
                    assert(chain[l + 1] == old_chain[l + 1]);
                } else {
                    assert(chain[l] == gl);
                }
            }
        }
        i += 1;
    }
    proof {
        assert(layers_chain(chain));
    }
    (slots, replaced)
}


/// The slots hold distinct nodes.
pub open spec fn slots_distinct(slots: Seq<Seq<usize>>) -> bool {
    forall|k1: int, j1: int, k2: int, j2: int|
        0 <= k1 < slots.len() && 0 <= j1 < slots[k1].len() && 0 <= k2 < slots.len() && 0 <= j2
            < slots[k2].len() && (k1 != k2 || j1 != j2) ==> #[trigger] slots[k1][j1] != #[trigger] slots[k2][j2]
}

/// One more layer in front when the first slot holds dummies.
pub open spec fn front_shift(slots: Seq<Seq<usize>>) -> int {
    if slots[0].len() > 0 {
        1
    } else {
        0
    }
}

/// One more layer at the end when the last slot holds dummies.
pub open spec fn back_shift(slots: Seq<Seq<usize>>) -> int {
    if slots[slots.len() - 1].len() > 0 {
        1
    } else {
        0
    }
}

/// The old nodes of the layer that slot `k` stands for (none for the two new
/// outer layers).
pub open spec fn base_part(base: Seq<Seq<usize>>, k: int) -> Seq<usize> {
    if 1 <= k <= base.len() {
        base[k - 1]
    } else {
        Seq::empty()
    }
}

/// The layers while the dummies join them: the dummies of the first `k`
/// slots and the first `j` of slot `k` follow the old nodes of their layers.
pub open spec fn partly_joined(base: Seq<Seq<usize>>, slots: Seq<Seq<usize>>, k: int, j: int) -> Seq<
    Seq<usize>,
> {
    let f = front_shift(slots);
    Seq::new(
        (base.len() + f + back_shift(slots)) as nat,
        |x: int|
            {
                let kk = x + 1 - f;
                base_part(base, kk) + if kk < k {
                    slots[kk]
                } else if kk == k {
                    slots[kk].take(j)
                } else {
                    Seq::empty()
                }
            },
    )
}

/// The layers after the dummies of all slots joined them: the first slot
/// makes a new first layer and the last slot a new last layer, when they
/// hold dummies; the dummies of any other slot follow the old nodes of the
/// layer it stands for.
pub open spec fn joined_layers(base: Seq<Seq<usize>>, slots: Seq<Seq<usize>>) -> Seq<Seq<usize>> {
    partly_joined(base, slots, slots.len() as int, 0)
}

/// A layer moved on by `f` new first layers.
pub open spec fn shifted(layer: Option<usize>, f: int) -> Option<usize> {
    match layer {
        Some(x) => Some((x + f) as usize),
        None => None,
    }
}

/// Lets the dummies of each slot join their layers (see `joined_layers`).
fn place_dummies(g: &mut LGraph, slots: &Vec<Vec<usize>>)
    requires
        old(g).wf(),
        old(g).layers_listed(),
        slots@.len() == old(g).layers@.len() + 2,
        old(g).layers@.len() + 2 <= usize::MAX,
        slots_ok(old(g), slot_views(slots@)),
        slots_distinct(slot_views(slots@)),
    ensures
        final(g).wf(),
        final(g).layers_listed(),
        final(g).ports == old(g).ports,
        final(g).edges == old(g).edges,
        final(g).layerless_nodes == old(g).layerless_nodes,
        final(g).nodes@.len() == old(g).nodes@.len(),
        layer_views(final(g)) == joined_layers(layer_views(old(g)), slot_views(slots@)),
        forall|m: int| 0 <= m < old(g).nodes@.len() ==> same_but_layer(#[trigger] final(g).nodes@[m], old(g).nodes@[m]),
        forall|k: int, j: int|
            0 <= k < slots@.len() && 0 <= j < slot_views(slots@)[k].len() ==> #[trigger] final(g).nodes@[slot_views(
                slots@,
            )[k][j] as int].layer == Some((k - 1 + front_shift(slot_views(slots@))) as usize),
        forall|m: int|
            0 <= m < old(g).nodes@.len() && !in_some_slot(slot_views(slots@), m) ==> #[trigger] final(g).nodes@[m].layer
                == shifted(old(g).nodes@[m].layer, front_shift(slot_views(slots@))),
{
    let ghost g0 = *g;
    let ghost sv = slot_views(slots@);
    let ghost base = layer_views(&g0);
    let nl = g.layers.len();
    let front: usize = if slots[0].len() > 0 {
        1
    } else {
        0
    };
    assert(sv[0] == slots@[0]@);
    assert(sv[nl + 1] == slots@[nl + 1]@);
    if front == 1 {
        insert_layer(g, 0);
    }
    let ghost g1 = *g;
    if slots[nl + 1].len() > 0 {
        let at = g.layers.len();
        insert_layer(g, at);
        proof {
            assert forall|m: int| 0 <= m < g.nodes@.len() implies #[trigger] g.nodes@[m].layer == g1.nodes@[m].layer by {
                if let Some(x) = g1.nodes@[m].layer {
                    assert(x < g1.layers@.len());
                }
            }
        }
    }
    proof {
        assert(layer_views(g) =~= partly_joined(base, sv, 0, 0)) by {
            let target = partly_joined(base, sv, 0, 0);
            assert forall|x: int| 0 <= x < target.len() implies #[trigger] layer_views(g)[x] == target[x] by {
                let kk = x + 1 - front;
                assert(sv[kk].take(0) =~= Seq::<usize>::empty());
                if 1 <= kk <= nl {
                    assert(base_part(base, kk) + Seq::<usize>::empty() =~= base[kk - 1]);
                } else {
                    assert(base_part(base, kk) + Seq::<usize>::empty() =~= Seq::<usize>::empty());
                }
            }
        }
    }
    let mut k: usize = 0;
    while k < nl + 2
        invariant
            g.wf(),
            g.layers_listed(),
            g0.wf(),
            nl == g0.layers@.len(),
            nl + 2 <= usize::MAX,
            slots@.len() == nl + 2,
            sv == slot_views(slots@),
            base == layer_views(&g0),
            front == front_shift(sv),
            slots_ok(&g0, sv),
            slots_distinct(sv),
            k <= nl + 2,
            g.ports == g0.ports,
            g.edges == g0.edges,
            g.layerless_nodes == g0.layerless_nodes,
            g.nodes@.len() == g0.nodes@.len(),
            layer_views(g) == partly_joined(base, sv, k as int, 0),
            forall|m: int| 0 <= m < g0.nodes@.len() ==> same_but_layer(#[trigger] g.nodes@[m], g0.nodes@[m]),
            forall|kk: int, j: int|
                0 <= kk < sv.len() && 0 <= j < sv[kk].len() ==> #[trigger] g.nodes@[sv[kk][j] as int].layer == if kk < k {
                    Some((kk - 1 + front) as usize)
                } else {
                    None
                },
            forall|m: int|
                0 <= m < g0.nodes@.len() && !in_some_slot(sv, m) ==> #[trigger] g.nodes@[m].layer == shifted(
                    g0.nodes@[m].layer,
                    front as int,
                ),
        decreases nl + 2 - k,
    {
        assert(sv[k as int] == slots@[k as int]@);
        let count = slots[k].len();
        let mut j: usize = 0;
        while j < count
            invariant
                g.wf(),
                g.layers_listed(),
                g0.wf(),
                nl == g0.layers@.len(),
                nl + 2 <= usize::MAX,
                slots@.len() == nl + 2,
                sv == slot_views(slots@),
                base == layer_views(&g0),
                front == front_shift(sv),
                slots_ok(&g0, sv),
                slots_distinct(sv),
                k < nl + 2,
                count == sv[k as int].len(),
                j <= count,
                g.ports == g0.ports,
                g.edges == g0.edges,
                g.layerless_nodes == g0.layerless_nodes,
                g.nodes@.len() == g0.nodes@.len(),
                layer_views(g) == partly_joined(base, sv, k as int, j as int),
                forall|m: int| 0 <= m < g0.nodes@.len() ==> same_but_layer(#[trigger] g.nodes@[m], g0.nodes@[m]),
                forall|kk: int, jj: int|
                    0 <= kk < sv.len() && 0 <= jj < sv[kk].len() ==> #[trigger] g.nodes@[sv[kk][jj] as int].layer
                        == if kk < k || (kk == k && jj < j) {
                        Some((kk - 1 + front) as usize)
                    } else {
                        None
                    },
                forall|m: int|
                    0 <= m < g0.nodes@.len() && !in_some_slot(sv, m) ==> #[trigger] g.nodes@[m].layer == shifted(
                        g0.nodes@[m].layer,
                        front as int,
                    ),
            decreases count - j,
        {
            let d = slots[k][j];
            assert(sv[k as int][j as int] == d);
            assert(d < g0.nodes@.len());
            let ghost gb = *g;
            let ghost before = layer_views(g);
            let t: usize = k + front - 1;
            assert(t < g.layers@.len()) by {
                assert(layer_views(g).len() == g.layers@.len());
            }
            assert(g.nodes@[d as int].layer is None);
            set_layer(g, d, t);
            proof {
                let target = partly_joined(base, sv, k as int, j as int + 1);
                assert(layer_views(g) =~= target) by {
                    assert forall|x: int| 0 <= x < target.len() implies #[trigger] layer_views(g)[x] == target[x] by {
                        if x == t {
                            assert(sv[k as int].take(j as int + 1) == sv[k as int].take(j as int).push(d));
                        }
                    }
                }
                assert forall|m: int| 0 <= m < g0.nodes@.len() implies same_but_layer(#[trigger] g.nodes@[m], g0.nodes@[m]) by {
                    assert(same_but_layer(gb.nodes@[m], g0.nodes@[m]));
                }
                assert forall|kk: int, jj: int| 0 <= kk < sv.len() && 0 <= jj < sv[kk].len() implies #[trigger] g.nodes@[sv[kk][jj] as int].layer
                    == if kk < k || (kk == k && jj < j + 1) {
                    Some((kk - 1 + front) as usize)
                } else {
                    None
                } by {
                    if sv[kk][jj] != d {
                        assert(g.nodes@[sv[kk][jj] as int] == gb.nodes@[sv[kk][jj] as int]);
                    } else {
                        assert(kk == k && jj == j);
                    }
                }
                assert forall|m: int| 0 <= m < g0.nodes@.len() && !in_some_slot(sv, m) implies #[trigger] g.nodes@[m].layer
                    == shifted(g0.nodes@[m].layer, front as int) by {
                    if m == d {
                        assert(sv[k as int][j as int] == d);
                    }
                    assert(g.nodes@[m] == gb.nodes@[m]);
                }
            }
            j += 1;
        }
        proof {
            let target = partly_joined(base, sv, k as int + 1, 0);
            assert(layer_views(g) =~= target) by {
                assert forall|x: int| 0 <= x < target.len() implies #[trigger] layer_views(g)[x] == target[x] by {
                    let kk = x + 1 - front;
                    if kk == k {
                        assert(sv[kk].take(count as int) == sv[kk]);
                    }
                    if kk == k + 1 {
                        assert(sv[kk].take(0) =~= Seq::<usize>::empty());
                    }
                }
            }
        }
        k += 1;
    }
}


/// The layers without the given nodes.
pub open spec fn without_nodes(ls: Seq<Seq<usize>>, gone: Seq<usize>) -> Seq<Seq<usize>> {
    ls.map_values(|l: Seq<usize>| l.filter(|x: usize| !gone.contains(x)))
}

/// The list without the marked nodes.
fn unmarked(list: &Vec<usize>, marked: &Vec<bool>, gone: Ghost<Seq<usize>>) -> (res: Vec<usize>)
    requires
        list@.no_duplicates(),
        forall|i: int| 0 <= i < list@.len() ==> #[trigger] list@[i] < marked@.len(),
        forall|x: int| 0 <= x < marked@.len() ==> #[trigger] marked@[x] == gone@.contains(x as usize),
    ensures
        res@ == list@.filter(|x: usize| !gone@.contains(x)),
        res@.no_duplicates(),
{
    let ghost pred = |x: usize| !gone@.contains(x);
    let mut res: Vec<usize> = Vec::new();
    let mut i: usize = 0;
    while i < list.len()
        invariant
            i <= list@.len(),
            list@.no_duplicates(),
            forall|i: int| 0 <= i < list@.len() ==> #[trigger] list@[i] < marked@.len(),
            forall|x: int| 0 <= x < marked@.len() ==> #[trigger] marked@[x] == gone@.contains(x as usize),
            pred == (|x: usize| !gone@.contains(x)),
            res@ == list@.take(i as int).filter(pred),
            res@.no_duplicates(),
        decreases list@.len() - i,
    {
        let x = list[i];
        proof {
            reveal_with_fuel(Seq::filter, 1);
            assert(list@.take(i as int + 1).drop_last() == list@.take(i as int));
            assert(list@.take(i as int + 1).last() == x);
        }
        if !marked[x] {
            proof {
                if res@.contains(x) {
                    list@.take(i as int).lemma_filter_contains_rev(pred, x);
                    let y = choose|y: int| 0 <= y < i && list@.take(i as int)[y] == x;
                    assert(list@[y] == list@[i as int]);
                }
            }
            let ghost before = res@;
            res.push(x);
            proof {
                assert forall|a: int, b: int| 0 <= a < b < res@.len() implies res@[a] != res@[b] by {
                    assert(res@[a] == before[a]);
                    if b == res@.len() - 1 {
                        assert(res@[b] == x);
                        if before[a] == x {
                            assert(before.contains(x));
                        }
                    } else {
                        assert(res@[b] == before[b]);
                    }
                }
            }
        }
        i += 1;
    }
    assert(list@.take(list@.len() as int) == list@);
    res
}

/// Takes the given nodes out of their layers; they record no layer any more.
fn release_nodes(g: &mut LGraph, gone: &Vec<usize>)
    requires
        old(g).wf(),
        old(g).layers_listed(),
        forall|j: int| 0 <= j < gone@.len() ==> #[trigger] gone@[j] < old(g).nodes@.len(),
    ensures
        final(g).wf(),
        final(g).layers_listed(),
        final(g).ports == old(g).ports,
        final(g).edges == old(g).edges,
        final(g).layerless_nodes == old(g).layerless_nodes,
        final(g).nodes@.len() == old(g).nodes@.len(),
        layer_views(final(g)) == without_nodes(layer_views(old(g)), gone@),
        forall|m: int|
            0 <= m < old(g).nodes@.len() ==> same_but_layer(#[trigger] final(g).nodes@[m], old(g).nodes@[m])
                && final(g).nodes@[m].layer == if gone@.contains(m as usize) {
                None
            } else {
                old(g).nodes@[m].layer
            },
{
    let ghost g0 = *g;
    let ghost pred = |x: usize| !gone@.contains(x);
    let n = g.nodes.len();
    let mut marked: Vec<bool> = Vec::new();
    while marked.len() < n
        invariant
            marked@.len() <= n,
            forall|x: int| 0 <= x < marked@.len() ==> !#[trigger] marked@[x],
        decreases n - marked@.len(),
    {
        marked.push(false);
    }
    let mut r: usize = 0;
    while r < gone.len()
        invariant
            r <= gone@.len(),
            marked@.len() == n,
            n == g0.nodes@.len(),
            forall|j: int| 0 <= j < gone@.len() ==> #[trigger] gone@[j] < n,
            forall|x: int| 0 <= x < n ==> #[trigger] marked@[x] == gone@.take(r as int).contains(x as usize),
        decreases gone@.len() - r,
    {
        let x = gone[r];
        marked.set(x, true);
        proof {
            assert(gone@.take(r as int + 1) == gone@.take(r as int).push(x));
            assert forall|y: int| 0 <= y < n implies #[trigger] marked@[y] == gone@.take(r as int + 1).contains(y as usize) by {
                if y as usize == x {
                    assert(gone@.take(r as int + 1)[r as int] == x);
                } else {
                    if gone@.take(r as int + 1).contains(y as usize) {
                        let z = choose|z: int| 0 <= z < r + 1 && #[trigger] gone@.take(r as int + 1)[z] == y as usize;
                        assert(gone@.take(r as int)[z] == y as usize);
                    }
                    if gone@.take(r as int).contains(y as usize) {
                        let z = choose|z: int| 0 <= z < r && #[trigger] gone@.take(r as int)[z] == y as usize;
                        assert(gone@.take(r as int + 1)[z] == y as usize);
                    }
                }
            }
        }
        r += 1;
    }
    assert(gone@.take(gone@.len() as int) == gone@);
    let nl = g.layers.len();
    let mut l: usize = 0;
    while l < nl
        invariant
            l <= nl,
            nl == g0.layers@.len(),
            g0.wf(),
            marked@.len() == g0.nodes@.len(),
            forall|x: int| 0 <= x < marked@.len() ==> #[trigger] marked@[x] == gone@.contains(x as usize),
            pred == (|x: usize| !gone@.contains(x)),
            g.nodes == g0.nodes,
            g.ports == g0.ports,
            g.edges == g0.edges,
            g.layerless_nodes == g0.layerless_nodes,
            g.layers@.len() == nl,
            forall|k: int| 0 <= k < l ==> #[trigger] g.layers@[k]@ == g0.layers@[k]@.filter(pred),
            forall|k: int| 0 <= k < l ==> (#[trigger] g.layers@[k])@.no_duplicates(),
            forall|k: int| l <= k < nl ==> #[trigger] g.layers@[k] == g0.layers@[k],
        decreases nl - l,
    {
        proof {
            assert forall|i: int| 0 <= i < g.layers@[l as int]@.len() implies #[trigger] g.layers@[l as int]@[i]
                < marked@.len() by {
                assert(g0.layers@[l as int]@[i] < g0.nodes@.len());
            }
            assert(g0.layers@[l as int]@.no_duplicates());
        }
        let list = unmarked(&g.layers[l], &marked, Ghost(gone@));
        g.layers.set(l, list);
        l += 1;
    }
    let ghost g1 = *g;
    let mut r: usize = 0;
    while r < gone.len()
        invariant
            r <= gone@.len(),
            g0.wf(),
            g0.nodes@.len() <= usize::MAX,
            g.nodes@.len() == g0.nodes@.len(),
            g.ports == g1.ports,
            g.edges == g1.edges,
            g.layers == g1.layers,
            g.layerless_nodes == g1.layerless_nodes,
            forall|j: int| 0 <= j < gone@.len() ==> #[trigger] gone@[j] < g0.nodes@.len(),
            forall|m: int|
                0 <= m < g0.nodes@.len() ==> same_but_layer(#[trigger] g.nodes@[m], g0.nodes@[m])
                    && g.nodes@[m].layer == if gone@.take(r as int).contains(m as usize) {
                    None
                } else {
                    g0.nodes@[m].layer
                },
        decreases gone@.len() - r,
    {
        let x = gone[r];
        let ghost gb = *g;
        g.nodes[x].layer = None;
        proof {
            assert(gone@.take(r as int + 1) == gone@.take(r as int).push(x));
            assert forall|m: int| 0 <= m < g0.nodes@.len() implies same_but_layer(#[trigger] g.nodes@[m], g0.nodes@[m])
                && g.nodes@[m].layer == if gone@.take(r as int + 1).contains(m as usize) {
                None
            } else {
                g0.nodes@[m].layer
            } by {
                assert(same_but_layer(gb.nodes@[m], g0.nodes@[m]));
                if m == x {
                    assert(gone@.take(r as int + 1)[r as int] == x);
                } else {
                    assert(g.nodes@[m] == gb.nodes@[m]);
                    if gone@.take(r as int + 1).contains(m as usize) {
                        let z = choose|z: int| 0 <= z < r + 1 && #[trigger] gone@.take(r as int + 1)[z] == m as usize;
                        assert(gone@.take(r as int)[z] == m as usize);
                    }
                    if gone@.take(r as int).contains(m as usize) {
                        let z = choose|z: int| 0 <= z < r && #[trigger] gone@.take(r as int)[z] == m as usize;
                        assert(gone@.take(r as int + 1)[z] == m as usize);
                    }
                }
            }
        }
        r += 1;
    }
    proof {
        assert(layer_views(g) =~= without_nodes(layer_views(&g0), gone@)) by {
            assert forall|k: int| 0 <= k < nl implies #[trigger] layer_views(g)[k] == without_nodes(layer_views(&g0), gone@)[k] by {
                assert(g1.layers@[k]@ == g0.layers@[k]@.filter(pred));
            }
        }
        assert forall|k: int, i: int| 0 <= k < g.layers@.len() && 0 <= i < g.layers@[k]@.len() implies {
            &&& #[trigger] g.layers@[k]@[i] < g.nodes@.len()
            &&& g.nodes@[g.layers@[k]@[i] as int].layer == Some(k as usize)
        } by {
            let ol = g0.layers@[k]@;
            let x = g.layers@[k]@[i];
            assert(g.layers@[k]@ == ol.filter(pred));
            lemma_filter_facts(ol, pred);
            assert(ol.filter(pred).contains(x));
            ol.lemma_filter_contains_rev(pred, x);
            let y = choose|y: int| 0 <= y < ol.len() && ol[y] == x;
            assert(ol[y] < g0.nodes@.len());
            assert(pred(ol.filter(pred)[i]));
        }
        assert forall|k: int| 0 <= k < g.layers@.len() implies #[trigger] g.layers@[k]@.no_duplicates() by {
            assert(g1.layers@[k]@.no_duplicates());
        }
        assert forall|m: int| 0 <= m < g.nodes@.len() implies (#[trigger] g.nodes@[m].layer matches Some(k) ==> (k
            < g.layers@.len() && g.layers@[k as int]@.contains(m as usize))) by {
            if let Some(k) = g.nodes@[m].layer {
                assert(!gone@.contains(m as usize));
                assert(g0.nodes@[m].layer == Some(k));
                let ol = g0.layers@[k as int]@;
                assert(ol.contains(m as usize));
                let y = choose|y: int| 0 <= y < ol.len() && ol[y] == m as usize;
                ol.lemma_filter_contains(pred, y);
                assert(g1.layers@[k as int]@ == ol.filter(pred));
            }
        }
        assert forall|n: int, i: int| 0 <= n < g.nodes@.len() && 0 <= i < g.nodes@[n].ports@.len() implies {
            &&& #[trigger] g.nodes@[n].ports@[i] < g.ports@.len()
            &&& g.ports@[g.nodes@[n].ports@[i] as int].node == Some(n as usize)
        } by {
            assert(same_but_layer(g.nodes@[n], g0.nodes@[n]));
        }
    }
}


/// `g` is the graph after the pass that ended in `p`, when the new dummies
/// joined their layers (see `joined_layers`) and the replaced dummies left
/// theirs: a new dummy records the layer of its slot, a replaced dummy none,
/// and any other old node its old layer, moved on by a new first layer.
pub open spec fn placed(g0: &LGraph, p: PassState, g: &LGraph) -> bool {
    &&& g.ports == p.graph.ports
    &&& g.edges == p.graph.edges
    &&& g.layerless_nodes == p.graph.layerless_nodes
    &&& g.nodes@.len() == p.graph.nodes@.len()
    &&& layer_views(g) == without_nodes(joined_layers(layer_views(g0), p.slots), p.replaced)
    &&& forall|m: int| 0 <= m < g.nodes@.len() ==> same_but_layer(#[trigger] g.nodes@[m], p.graph.nodes@[m])
    &&& forall|k: int, j: int|
        0 <= k < p.slots.len() && 0 <= j < p.slots[k].len() ==> #[trigger] g.nodes@[p.slots[k][j] as int].layer
            == Some((k - 1 + front_shift(p.slots)) as usize)
    &&& forall|m: int|
        0 <= m < g0.nodes@.len() ==> #[trigger] g.nodes@[m].layer == if p.replaced.contains(m as usize) {
            None
        } else {
            shifted(g0.nodes@[m].layer, front_shift(p.slots))
        }
}

impl HierarchicalPortConstraintProcessor {
    /// With fixed port sides (the graph's port constraints) and at least one
    /// layer: every layer in turn, and in it every node in turn, has its turn
    /// (see `pass_done`): the northern and southern external port dummies
    /// are set aside, and the edges between such a dummy and a node are led
    /// to new dummies for the same port in the layer before (edges entering
    /// the node) or after (edges leaving it); then the new dummies join their
    /// layers, with a new first or last layer where needed, and the dummies
    /// set aside leave theirs (see `placed`). Returns the dummies set aside,
    /// in the order they were met. Otherwise the graph stays as it is and
    /// the result is `None`.
    pub fn process_northern_and_southern_port_dummies(
        &self,
        g: &mut LGraph,
        port_constraints: PortConstraints,
    ) -> (res: Option<Vec<usize>>)
        requires
            old(g).wf(),
            old(g).layers_listed(),
            old(g).layers@.len() + 2 <= usize::MAX,
            old(g).nodes@.len() + visits_before(old(g), old(g).layers@.len() as int) + 1 <= usize::MAX,
            old(g).ports@.len() + 2 * visits_before(old(g), old(g).layers@.len() as int) + 2 <= usize::MAX,
        ensures
            final(g).wf(),
            final(g).layers_listed(),
            !port_constraints.spec_is_side_fixed() || old(g).layers@.len() == 0 ==> res is None && *final(g)
                == *old(g),
            port_constraints.spec_is_side_fixed() && old(g).layers@.len() > 0 ==> res is Some && exists|
                p: PassState,
            |
                #[trigger] pass_done(pass_start(old(g)), p) && pass_facts(old(g), p) && placed(old(g), p, final(g))
                    && res->0@ == p.replaced,
    {
        if !port_constraints.is_side_fixed() {
            return None;
        }
        if g.layers.len() == 0 {
            return None;
        }
        let ghost g0 = *g;
        let (slots, replaced) = run_pass(g);
        let ghost gp = *g;
        let ghost p = pass_state(&gp, slots@, replaced@);
        proof {
            assert(slot_views(slots@).len() == slots@.len());
        }
        place_dummies(g, &slots);
        let ghost g2 = *g;
        proof {
            assert forall|j: int| 0 <= j < replaced@.len() implies #[trigger] replaced@[j] < g.nodes@.len() by {
                assert(p.replaced[j] < g0.nodes@.len());
            }
        }
        release_nodes(g, &replaced);
        proof {
            let sv = p.slots;
            assert(layer_views(&gp) == layer_views(&g0));
            assert forall|m: int| 0 <= m < g.nodes@.len() implies same_but_layer(#[trigger] g.nodes@[m], p.graph.nodes@[m]) by {
                assert(same_but_layer(g2.nodes@[m], gp.nodes@[m]));
            }
            assert forall|k: int, j: int| 0 <= k < sv.len() && 0 <= j < sv[k].len() implies #[trigger] g.nodes@[sv[k][j] as int].layer
                == Some((k - 1 + front_shift(sv)) as usize) by {
                let d = sv[k][j];
                assert(d >= g0.nodes@.len());
                assert(d < gp.nodes@.len());
                if replaced@.contains(d) {
                    let r = choose|r: int| 0 <= r < replaced@.len() && replaced@[r] == d;
                    assert(p.replaced[r] < g0.nodes@.len());
                }
                assert(g2.nodes@[d as int].layer == Some((k - 1 + front_shift(sv)) as usize));
            }
            assert forall|m: int| 0 <= m < g0.nodes@.len() implies #[trigger] g.nodes@[m].layer == if p.replaced.contains(
                m as usize,
            ) {
                None
            } else {
                shifted(g0.nodes@[m].layer, front_shift(p.slots))
            } by {
                if !p.replaced.contains(m as usize) {
                    if in_some_slot(sv, m) {
                        let (k, j) = choose|k: int, j: int| 0 <= k < sv.len() && 0 <= j < sv[k].len() && #[trigger] sv[k][j] == m;
                        assert(sv[k][j] >= g0.nodes@.len());
                    }
                    assert(gp.nodes@[m] == g0.nodes@[m]);
                    assert(g2.nodes@[m].layer == shifted(gp.nodes@[m].layer, front_shift(sv)));
                }
            }
            assert(placed(&g0, p, g));
        }
        Some(replaced)
    }
}


/// An external port dummy of an eastern or western port.
pub open spec fn is_east_west(n: LNode) -> bool {
    n.ext_port_side == Some(PortSide::East) || n.ext_port_side == Some(PortSide::West)
}

/// The length of the run of external port dummies that starts the list.
pub open spec fn external_run(g: &LGraph, s: Seq<usize>) -> nat
    decreases s.len(),
{
    if s.len() == 0 || g.nodes@[s[0] as int].node_type != NodeType::ExternalPort {
        0
    } else {
        1 + external_run(g, s.drop_first())
    }
}

/// The eastern and western external port dummies of the run of external port
/// dummies that starts the list, in its order.
pub open spec fn side_dummy_chain(g: &LGraph, s: Seq<usize>) -> Seq<usize> {
    s.take(external_run(g, s) as int).filter(|n: usize| is_east_west(g.nodes@[n as int]))
}

/// The node that follows `n` in the chain, if any.
pub open spec fn chain_successor(chain: Seq<usize>, n: usize) -> Option<usize> {
    if chain.contains(n) && chain.index_of(n) + 1 < chain.len() {
        Some(chain[chain.index_of(n) + 1])
    } else {
        None
    }
}

/// Two nodes agree on everything but their in-layer successor constraints.
pub open spec fn same_but_successors(a: LNode, b: LNode) -> bool {
    &&& a.node_type == b.node_type
    &&& a.ports == b.ports
    &&& a.layer == b.layer
    &&& a.id == b.id
    &&& a.layer_constraint == b.layer_constraint
    &&& a.in_layer_constraint == b.in_layer_constraint
    &&& a.edge_constraint == b.edge_constraint
    &&& a.port_constraints == b.port_constraints
    &&& a.origin == b.origin
    &&& a.in_layer_layout_unit == b.in_layer_layout_unit
    &&& a.ext_port_side == b.ext_port_side
    &&& a.layer_id == b.layer_id
    &&& a.position_id == b.position_id
    &&& a.long_edge_source == b.long_edge_source
    &&& a.long_edge_target == b.long_edge_target
    &&& a.long_edge_has_label_dummies == b.long_edge_has_label_dummies
    &&& a.long_edge_before_label_dummy == b.long_edge_before_label_dummy
    &&& a.layer_split == b.layer_split
    &&& a.reset_on_long_edges == b.reset_on_long_edges
    &&& a.minimize_edge_length == b.minimize_edge_length
    &&& a.breaking_point_info == b.breaking_point_info
    &&& a.comment_box == b.comment_box
    &&& a.comment_conn_port == b.comment_conn_port
    &&& a.alignment == b.alignment
    &&& a.label_placement == b.label_placement
    &&& a.ext_port_replaced_dummy == b.ext_port_replaced_dummy
    &&& a.represented_labels == b.represented_labels
}

/// Walks the sorted nodes of a layer up to the first one that is no
/// external port dummy; each eastern or western external port dummy on the
/// way gets the next one as an in-layer successor constraint (see
/// `side_dummy_chain`).
pub fn chain_side_dummies(g: &mut LGraph, sorted: &Vec<usize>)
    requires
        sorted@.no_duplicates(),
        forall|i: int| 0 <= i < sorted@.len() ==> #[trigger] sorted@[i] < old(g).nodes@.len(),
    ensures
        final(g).ports == old(g).ports,
        final(g).edges == old(g).edges,
        final(g).layers == old(g).layers,
        final(g).layerless_nodes == old(g).layerless_nodes,
        final(g).nodes@.len() == old(g).nodes@.len(),
        forall|m: int|
            0 <= m < old(g).nodes@.len() ==> same_but_successors(#[trigger] final(g).nodes@[m], old(g).nodes@[m])
                && final(g).nodes@[m].in_layer_successor_constraints@ == match chain_successor(
                side_dummy_chain(old(g), sorted@),
                m as usize,
            ) {
                Some(x) => old(g).nodes@[m].in_layer_successor_constraints@.push(x),
                None => old(g).nodes@[m].in_layer_successor_constraints@,
            },
{
    let ghost g0 = *g;
    let ghost pred = |n: usize| is_east_west(g0.nodes@[n as int]);
    let mut last: Option<usize> = None;
    let mut i: usize = 0;
    let node_count = g.nodes.len();
    assert(sorted@.skip(0) == sorted@);
    while i < sorted.len() && g.nodes[sorted[i]].node_type == NodeType::ExternalPort
        invariant
            node_count == g0.nodes@.len(),
            i <= sorted@.len(),
            sorted@.no_duplicates(),
            forall|k: int| 0 <= k < sorted@.len() ==> #[trigger] sorted@[k] < g0.nodes@.len(),
            pred == (|n: usize| is_east_west(g0.nodes@[n as int])),
            external_run(&g0, sorted@) == i + external_run(&g0, sorted@.skip(i as int)),
            g.ports == g0.ports,
            g.edges == g0.edges,
            g.layers == g0.layers,
            g.layerless_nodes == g0.layerless_nodes,
            g.nodes@.len() == g0.nodes@.len(),
            forall|k: int| 0 <= k < i ==> g0.nodes@[#[trigger] sorted@[k] as int].node_type == NodeType::ExternalPort,
            sorted@.take(i as int).filter(pred).no_duplicates(),
            last == (if sorted@.take(i as int).filter(pred).len() == 0 {
                None
            } else {
                Some(sorted@.take(i as int).filter(pred).last())
            }),
            forall|m: int|
                0 <= m < g0.nodes@.len() ==> same_but_successors(#[trigger] g.nodes@[m], g0.nodes@[m])
                    && g.nodes@[m].in_layer_successor_constraints@ == match chain_successor(
                    sorted@.take(i as int).filter(pred),
                    m as usize,
                ) {
                    Some(x) => g0.nodes@[m].in_layer_successor_constraints@.push(x),
                    None => g0.nodes@[m].in_layer_successor_constraints@,
                },
        decreases sorted@.len() - i,
    {
        let n = sorted[i];
        proof {
            assert(g.nodes@[n as int].node_type == g0.nodes@[n as int].node_type);
            assert(sorted@.skip(i as int)[0] == n);
            assert(sorted@.skip(i as int).drop_first() == sorted@.skip(i as int + 1));
            reveal_with_fuel(Seq::filter, 1);
            assert(sorted@.take(i as int + 1).drop_last() == sorted@.take(i as int));
            assert(sorted@.take(i as int + 1).last() == n);
        }
        let side = match g.nodes[n].ext_port_side {
            Some(PortSide::East) => true,
            Some(PortSide::West) => true,
            _ => false,
        };
        if side {
            let ghost c0 = sorted@.take(i as int).filter(pred);
            let ghost c1 = sorted@.take(i as int + 1).filter(pred);
            proof {
                assert(c1 == c0.push(n));
                if c0.contains(n) {
                    sorted@.take(i as int).lemma_filter_contains_rev(pred, n);
                    let y = choose|y: int| 0 <= y < i && sorted@.take(i as int)[y] == n;
                    assert(sorted@[y] == sorted@[i as int]);
                }
                assert(c1.no_duplicates()) by {
                    assert forall|a: int, b: int| 0 <= a < b < c1.len() implies c1[a] != c1[b] by {
                        if b == c1.len() - 1 {
                            assert(c1[a] == c0[a]);
                            if c0[a] == n {
                                assert(c0.contains(n));
                            }
                        } else {
                            assert(c1[a] == c0[a] && c1[b] == c0[b]);
                        }
                    }
                }
            }
            match last {
                Some(prev) => {
                    let ghost gb = *g;
                    proof {
                        assert(c0.contains(prev));
                        sorted@.take(i as int).lemma_filter_contains_rev(pred, prev);
                        let y = choose|y: int| 0 <= y < i && sorted@.take(i as int)[y] == prev;
                        assert(prev < g0.nodes@.len());
                    }
                    let mut list = copy_list(&g.nodes[prev].in_layer_successor_constraints);
                    list.push(n);
                    g.nodes[prev].in_layer_successor_constraints = list;
                    proof {
                        assert forall|m: int| 0 <= m < g0.nodes@.len() implies same_but_successors(
                            #[trigger] g.nodes@[m],
                            g0.nodes@[m],
                        ) && g.nodes@[m].in_layer_successor_constraints@ == match chain_successor(c1, m as usize) {
                            Some(x) => g0.nodes@[m].in_layer_successor_constraints@.push(x),
                            None => g0.nodes@[m].in_layer_successor_constraints@,
                        } by {
                            assert(same_but_successors(gb.nodes@[m], g0.nodes@[m]));
                            lemma_chain_successor_push(c0, n, m as usize);
                            if m != prev {
                                assert(g.nodes@[m] == gb.nodes@[m]);
                            } else {
                                lemma_index_of_first(c0, prev, c0.len() - 1);
                                assert(chain_successor(c0, prev) is None);
                            }
                        }
                    }
                },
                None => {
                    proof {
                        assert forall|m: int| 0 <= m < g0.nodes@.len() implies same_but_successors(
                            #[trigger] g.nodes@[m],
                            g0.nodes@[m],
                        ) && g.nodes@[m].in_layer_successor_constraints@ == match chain_successor(c1, m as usize) {
                            Some(x) => g0.nodes@[m].in_layer_successor_constraints@.push(x),
                            None => g0.nodes@[m].in_layer_successor_constraints@,
                        } by {
                            lemma_chain_successor_push(c0, n, m as usize);
                        }
                    }
                },
            }
            last = Some(n);
        } else {
            proof {
                assert(sorted@.take(i as int + 1).filter(pred) == sorted@.take(i as int).filter(pred));
            }
        }
        i += 1;
    }
    proof {
        if i < sorted@.len() {
            assert(sorted@.skip(i as int)[0] == sorted@[i as int]);
        } else {
            assert(sorted@.skip(i as int).len() == 0);
        }
        assert(external_run(&g0, sorted@) == i);
    }
}

/// Appending a node that the chain does not hold gives the old last node
/// that node as its successor, and changes no other successor.
proof fn lemma_chain_successor_push(c: Seq<usize>, n: usize, m: usize)
    requires
        c.no_duplicates(),
        !c.contains(n),
    ensures
        chain_successor(c.push(n), m) == if c.len() > 0 && m == c.last() {
            Some(n)
        } else {
            chain_successor(c, m)
        },
{
    let d = c.push(n);
    if c.contains(m) {
        let i = c.index_of(m);
        assert(d[i] == m);
        assert(d.contains(m));
        lemma_index_of_first(d, m, i);
        assert(d.index_of(m) == i);
        if i + 1 < c.len() {
            assert(d[i + 1] == c[i + 1]);
        }
        if m == c.last() {
            lemma_index_of_first(c, m, c.len() - 1);
        }
    } else if m == n {
        assert(d[c.len() as int] == n);
        assert(d.contains(n));
        lemma_index_of_first(d, n, c.len() as int);
    } else {
        if d.contains(m) {
            let j = choose|j: int| 0 <= j < d.len() && d[j] == m;
            if j < c.len() {
                assert(c[j] == m);
            }
        }
    }
}

/// In a list whose items are distinct, the index of an item is where it is.
proof fn lemma_index_of_first(s: Seq<usize>, x: usize, i: int)
    requires
        0 <= i < s.len(),
        s[i] == x,
        forall|a: int, b: int| 0 <= a < b < s.len() ==> s[a] != s[b] || s[a] != x,
    ensures
        s.index_of(x) == i,
{
    assert(s.contains(x));
    let j = s.index_of(x);
    assert(0 <= j < s.len() && s[j] == x);
}


/// The nodes of a layer are among the nodes of the layers up to it.
pub proof fn lemma_layer_in_layer_nodes(g: &LGraph, i: int, k: int, j: int)
    requires
        0 <= k < i <= g.layers@.len(),
        0 <= j < g.layers@[k]@.len(),
    ensures
        layer_nodes_before(g, i).contains(g.layers@[k]@[j]),
    decreases i,
{
    let before = layer_nodes_before(g, i - 1);
    assert(layer_nodes_before(g, i) == before + g.layers@[i - 1]@);
    if k == i - 1 {
        assert(layer_nodes_before(g, i)[before.len() + j] == g.layers@[k]@[j]);
    } else {
        lemma_layer_in_layer_nodes(g, i - 1, k, j);
        let x = choose|x: int| 0 <= x < before.len() && before[x] == g.layers@[k]@[j];
        assert(layer_nodes_before(g, i)[x] == g.layers@[k]@[j]);
    }
}

/// After the processor, the layers hold no northern or southern external
/// port dummy of the old graph: every node in a layer is an old node that is
/// no such dummy, or one of the new dummies; and the dummies set aside are
/// in no layer and record none.
pub proof fn lemma_no_old_north_south_dummy_left(g0: &LGraph, p: PassState, g: &LGraph)
    requires
        g0.wf(),
        pass_facts(g0, p),
        placed(g0, p, g),
    ensures
        forall|l: int, i: int|
            0 <= l < g.layers@.len() && 0 <= i < g.layers@[l]@.len() ==> {
                let x = #[trigger] g.layers@[l]@[i];
                (x < g0.nodes@.len() && !is_north_south_dummy(g0.nodes@[x as int])) || (x >= g0.nodes@.len()
                    && in_some_slot(p.slots, x as int))
            },
        forall|r: int| 0 <= r < p.replaced.len() ==> #[trigger] g.nodes@[p.replaced[r] as int].layer is None,
{
    let base = layer_views(g0);
    let joined = joined_layers(base, p.slots);
    let keep = |x: usize| !p.replaced.contains(x);
    let nsp = |n: usize| is_north_south_dummy(g0.nodes@[n as int]);
    assert forall|l: int, i: int| 0 <= l < g.layers@.len() && 0 <= i < g.layers@[l]@.len() implies {
        let x = #[trigger] g.layers@[l]@[i];
        (x < g0.nodes@.len() && !is_north_south_dummy(g0.nodes@[x as int])) || (x >= g0.nodes@.len()
            && in_some_slot(p.slots, x as int))
    } by {
        let x = g.layers@[l]@[i];
        assert(layer_views(g)[l] == g.layers@[l]@);
        assert(layer_views(g).len() == joined.len());
        let jl = joined[l];
        assert(without_nodes(joined, p.replaced)[l] == jl.filter(keep));
        assert(g.layers@[l]@ == jl.filter(keep));
        assert(g.layers@[l]@.contains(x));
        jl.lemma_filter_contains_rev(keep, x);
        lemma_filter_facts(jl, keep);
        assert(keep(x));
        let f = front_shift(p.slots);
        let kk = l + 1 - f;
        let bp = base_part(base, kk);
        let y = choose|y: int| 0 <= y < jl.len() && jl[y] == x;
        if y < bp.len() {
            assert(1 <= kk <= base.len());
            assert(base[kk - 1] == g0.layers@[kk - 1]@);
            assert(g0.layers@[kk - 1]@[y] == x);
            assert(x < g0.nodes@.len());
            if nsp(x) {
                lemma_layer_in_layer_nodes(g0, g0.layers@.len() as int, kk - 1, y);
                let all = layer_nodes_before(g0, g0.layers@.len() as int);
                let z = choose|z: int| 0 <= z < all.len() && all[z] == x;
                all.lemma_filter_contains(nsp, z);
                assert(p.replaced.contains(x));
            }
        } else {
            let t = y - bp.len();
            assert(kk < p.slots.len());
            assert(jl == bp + p.slots[kk]);
            assert(p.slots[kk][t] == x);
            assert(in_some_slot(p.slots, x as int));
        }
    }
    assert forall|r: int| 0 <= r < p.replaced.len() implies #[trigger] g.nodes@[p.replaced[r] as int].layer is None by {
        assert(p.replaced[r] < g0.nodes@.len());
        assert(p.replaced.contains(p.replaced[r]));
    }
}

} // verus!

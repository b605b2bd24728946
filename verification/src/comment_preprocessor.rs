//! Comment preprocessing: each comment box attached by a single edge to a
//! node is handed to that node, above or below it, and leaves the layerless
//! nodes; edges of other comment boxes that run against the flow are turned
//! around, and the port dummy of a comment's hierarchical port leaves its
//! layer.
use vstd::prelude::*;

use crate::graph::same_but_layer;
use crate::edge_and_layer_constraint_edge_reverser::{flip, reverse_edge, same_but_edges};
use crate::graph::{LEdge, LGraph, LNode, LPort, PortSide, copy_list, degree, labels_view, lemma_remove_unique, port_degree};
use crate::comment_postprocessor::{port_released, release_port};
use crate::hierarchical_port_orthogonal_edge_router::loose_port;
use crate::hyperedge_dummy_merger::{remove_from_layer, removed_from_layer};

verus! {

/// Turns comment boxes into annotations of the nodes they are attached to.
pub struct CommentPreprocessor;

/// Port `p` has an edge leaving it.
pub open spec fn has_outgoing(g: &LGraph, p: usize) -> bool {
    g.outgoing_of(p as int).len() > 0
}

/// Port `p` has an edge entering it.
pub open spec fn has_incoming(g: &LGraph, p: usize) -> bool {
    g.incoming_of(p as int).len() > 0
}

/// The edges at the given ports that run against the flow, port by port:
/// leaving edges whose target port has leaving edges itself, then entering
/// edges whose source port has entering edges itself.
pub open spec fn odd_edges(g: &LGraph, ports: Seq<usize>) -> Seq<usize>
    decreases ports.len(),
{
    if ports.len() == 0 {
        Seq::empty()
    } else {
        let p = ports.last() as int;
        odd_edges(g, ports.drop_last()) + g.outgoing_of(p).filter(
            |e: usize| has_outgoing(g, g.edges@[e as int].target),
        ) + g.incoming_of(p).filter(|e: usize| has_incoming(g, g.edges@[e as int].source))
    }
}

/// How often the list names the edge.
pub open spec fn times(list: Seq<usize>, e: usize) -> nat {
    list.to_multiset().count(e)
}

/// Each edge of the list is turned around once per mention: an edge named
/// an odd number of times ends up reversed.
pub open spec fn flipped_by(old: &LGraph, new: &LGraph, list: Seq<usize>) -> bool {
    &&& new.edges@.len() == old.edges@.len()
    &&& forall|e: int|
        0 <= e < old.edges@.len() ==> #[trigger] new.edges@[e] == if times(list, e as usize) % 2 == 1 {
            flip(old.edges@[e])
        } else {
            old.edges@[e]
        }
}

/// Whether the port has an edge leaving it.
fn has_outgoing_exec(g: &LGraph, p: usize) -> (res: bool)
    requires
        g.wf(),
    ensures
        res == has_outgoing(g, p),
{
    g.outgoing_edges(p).len() > 0
}

/// Whether the port has an edge entering it.
fn has_incoming_exec(g: &LGraph, p: usize) -> (res: bool)
    requires
        g.wf(),
    ensures
        res == has_incoming(g, p),
{
    g.incoming_edges(p).len() > 0
}

/// The edges at the comment node's ports that run against the flow.
fn collect_odd_edges(g: &LGraph, node: usize) -> (res: Vec<usize>)
    requires
        g.wf(),
        node < g.nodes@.len(),
    ensures
        res@ == odd_edges(g, g.nodes@[node as int].ports@),
        forall|i: int| 0 <= i < res@.len() ==> #[trigger] res@[i] < g.edges@.len(),
{
    let ghost ports = g.nodes@[node as int].ports@;
    let mut res: Vec<usize> = Vec::new();
    let mut i: usize = 0;
    while i < g.nodes[node].ports.len()
        invariant
            g.wf(),
            node < g.nodes@.len(),
            ports == g.nodes@[node as int].ports@,
            i <= ports.len(),
            res@ == odd_edges(g, ports.take(i as int)),
            forall|k: int| 0 <= k < res@.len() ==> #[trigger] res@[k] < g.edges@.len(),
        decreases ports.len() - i,
    {
        let p = g.nodes[node].ports[i];
        assert(ports.take(i as int + 1).drop_last() == ports.take(i as int));
        assert(ports.take(i as int + 1).last() == p);
        let outgoing = g.outgoing_edges(p);
        let incoming = g.incoming_edges(p);
        proof {
            crate::edge_and_layer_constraint_edge_reverser::lemma_port_edges(g, p);
        }
        let ghost start = res@;
        let ghost po = |e: usize| has_outgoing(g, g.edges@[e as int].target);
        let ghost pi = |e: usize| has_incoming(g, g.edges@[e as int].source);
        let mut k: usize = 0;
        while k < outgoing.len()
            invariant
                g.wf(),
                outgoing@ == g.outgoing_of(p as int),
                forall|e: usize| #[trigger] outgoing@.contains(e) <==> (e < g.edges@.len() && g.edges@[e as int].source == p),
                po == (|e: usize| has_outgoing(g, g.edges@[e as int].target)),
                node < g.nodes@.len(),
                ports == g.nodes@[node as int].ports@,
                i < ports.len(),
                start == odd_edges(g, ports.take(i as int)),
                k <= outgoing@.len(),
                res@ == start + outgoing@.take(k as int).filter(po),
                forall|x: int| 0 <= x < res@.len() ==> #[trigger] res@[x] < g.edges@.len(),
                forall|x: int| 0 <= x < start.len() ==> #[trigger] start[x] < g.edges@.len(),
            decreases outgoing@.len() - k,
        {
            let e = outgoing[k];
            assert(outgoing@.contains(e));
            assert(outgoing@.take(k as int + 1).drop_last() == outgoing@.take(k as int));
            reveal_with_fuel(Seq::filter, 1);
            assert(g.edges@[e as int].source < g.ports@.len());
            if has_outgoing_exec(g, g.edges[e].target) {
                res.push(e);
            }
            k += 1;
        }
        assert(outgoing@.take(outgoing@.len() as int) == outgoing@);
        let ghost mid = res@;
        let mut k: usize = 0;
        while k < incoming.len()
            invariant
                g.wf(),
                incoming@ == g.incoming_of(p as int),
                forall|e: usize| #[trigger] incoming@.contains(e) <==> (e < g.edges@.len() && g.edges@[e as int].target == p),
                pi == (|e: usize| has_incoming(g, g.edges@[e as int].source)),
                node < g.nodes@.len(),
                ports == g.nodes@[node as int].ports@,
                i < ports.len(),
                mid == start + outgoing@.filter(po),
                start == odd_edges(g, ports.take(i as int)),
                k <= incoming@.len(),
                res@ == mid + incoming@.take(k as int).filter(pi),
                forall|x: int| 0 <= x < res@.len() ==> #[trigger] res@[x] < g.edges@.len(),
                forall|x: int| 0 <= x < mid.len() ==> #[trigger] mid[x] < g.edges@.len(),
            decreases incoming@.len() - k,
        {
            let e = incoming[k];
            assert(incoming@.contains(e));
            assert(incoming@.take(k as int + 1).drop_last() == incoming@.take(k as int));
            reveal_with_fuel(Seq::filter, 1);
            assert(g.edges@[e as int].source < g.ports@.len());
            if has_incoming_exec(g, g.edges[e].source) {
                res.push(e);
            }
            k += 1;
        }
        assert(incoming@.take(incoming@.len() as int) == incoming@);
        i += 1;
    }
    assert(ports.take(ports.len() as int) == ports);
    res
}

/// Turns around the edges of a comment node that run against the flow:
/// they are collected first, then each is reversed once per mention.
pub fn reverse_oddly_connected_edges(g: &mut LGraph, comment_node: usize)
    requires
        old(g).wf(),
        comment_node < old(g).nodes@.len(),
    ensures
        final(g).wf(),
        same_but_edges(old(g), final(g)),
        flipped_by(old(g), final(g), odd_edges(old(g), old(g).nodes@[comment_node as int].ports@)),
{
    let ghost g0 = *g;
    let list = collect_odd_edges(g, comment_node);
    let mut k: usize = 0;
    proof {
        broadcast use vstd::seq_lib::group_to_multiset_ensures;
        assert(list@.take(0) =~= Seq::<usize>::empty());
        assert forall|e: usize| #[trigger] times(list@.take(0), e) == 0 by {
            assert(list@.take(0).to_multiset().len() == 0);
        }
    }
    while k < list.len()
        invariant
            g0.wf(),
            g.wf(),
            same_but_edges(&g0, g),
            forall|i: int| 0 <= i < list@.len() ==> #[trigger] list@[i] < g0.edges@.len(),
            k <= list@.len(),
            flipped_by(&g0, g, list@.take(k as int)),
        decreases list@.len() - k,
    {
        let e = list[k];
        let ghost before = *g;
        reverse_edge(g, e);
        proof {
            let t0 = list@.take(k as int);
            let t1 = list@.take(k as int + 1);
            assert(t1 == t0.push(e));
            assert(t1.to_multiset() == t0.to_multiset().insert(e)) by {
                vstd::seq_lib::to_multiset_build(t0, e);
            }
            assert forall|f: int| 0 <= f < g0.edges@.len() implies #[trigger] g.edges@[f] == if times(t1, f as usize) % 2 == 1 {
                flip(g0.edges@[f])
            } else {
                g0.edges@[f]
            } by {
                assert(before.edges@[f] == if times(t0, f as usize) % 2 == 1 {
                    flip(g0.edges@[f])
                } else {
                    g0.edges@[f]
                });
                if f != e as int {
                    assert(g.edges@[f] == before.edges@[f]);
                }
            }
        }
        k += 1;
    }
    assert(list@.take(list@.len() as int) == list@);
}

/// The layer index after layer `l` was removed: later layers move up one.
pub open spec fn shifted_layer(layer: Option<usize>, l: int) -> Option<usize> {
    match layer {
        Some(k) => if k > l {
            Some((k - 1) as usize)
        } else {
            Some(k)
        },
        None => None,
    }
}

/// `b` is `a` without its empty layer `l`; the nodes of later layers record
/// their layer one lower.
pub open spec fn layer_removed(a: &LGraph, b: &LGraph, l: int) -> bool {
    &&& b.ports == a.ports
    &&& b.edges == a.edges
    &&& b.layerless_nodes == a.layerless_nodes
    &&& b.layers@.len() + 1 == a.layers@.len()
    &&& forall|k: int| 0 <= k < b.layers@.len() ==> #[trigger] b.layers@[k] == if k < l {
        a.layers@[k]
    } else {
        a.layers@[k + 1]
    }
    &&& b.nodes@.len() == a.nodes@.len()
    &&& forall|n: int|
        0 <= n < a.nodes@.len() ==> same_but_layer(#[trigger] b.nodes@[n], a.nodes@[n])
            && b.nodes@[n].layer == shifted_layer(a.nodes@[n].layer, l)
}

/// Removes the empty layer `l`; the nodes of later layers record their
/// layer one lower.
pub fn remove_empty_layer(g: &mut LGraph, l: usize)
    requires
        old(g).wf(),
        l < old(g).layers@.len(),
        old(g).layers@[l as int]@.len() == 0,
    ensures
        final(g).wf(),
        layer_removed(old(g), final(g), l as int),
{
    let ghost g0 = *g;
    let nl = g.layers.len();
    let mut n: usize = 0;
    while n < g.nodes.len()
        invariant
            g0.wf(),
            l < g0.layers@.len(),
            g.ports == g0.ports,
            g.edges == g0.edges,
            g.layers == g0.layers,
            g.layerless_nodes == g0.layerless_nodes,
            g.nodes@.len() == g0.nodes@.len(),
            n <= g.nodes@.len(),
            forall|m: int|
                0 <= m < g0.nodes@.len() ==> same_but_layer(#[trigger] g.nodes@[m], g0.nodes@[m])
                    && g.nodes@[m].layer == if m < n {
                    shifted_layer(g0.nodes@[m].layer, l as int)
                } else {
                    g0.nodes@[m].layer
                },
        decreases g.nodes@.len() - n,
    {
        match g.nodes[n].layer {
            Some(k) => {
                if k > l {
                    g.nodes[n].layer = Some(k - 1);
                }
            },
            None => {},
        }
        n += 1;
    }
    g.layers.remove(l);
    proof {
        assert forall|k: int, i: int|
            0 <= k < g.layers@.len() && 0 <= i < g.layers@[k]@.len() implies {
                &&& #[trigger] g.layers@[k]@[i] < g.nodes@.len()
                &&& g.nodes@[g.layers@[k]@[i] as int].layer == Some(k as usize)
            } by {
            let k0 = if k < l { k } else { k + 1 };
            assert(g.layers@[k] == g0.layers@[k0]);
            assert(g0.layers@[k0]@[i] < g0.nodes@.len());
            assert(g0.nodes@[g0.layers@[k0]@[i] as int].layer == Some(k0 as usize));
            let x = g0.layers@[k0]@[i] as int;
            assert(same_but_layer(g.nodes@[x], g0.nodes@[x]) && g.nodes@[x].layer == shifted_layer(g0.nodes@[x].layer, l as int));
            assert(k0 < nl);
        }
        assert forall|k: int| 0 <= k < g.layers@.len() implies #[trigger] g.layers@[k]@.no_duplicates() by {
            let k0 = if k < l { k } else { k + 1 };
            assert(g.layers@[k] == g0.layers@[k0]);
            assert(g0.layers@[k0]@.no_duplicates());
        }
        assert forall|m: int, j: int|
            0 <= m < g.nodes@.len() && 0 <= j < g.nodes@[m].ports@.len() implies {
                &&& #[trigger] g.nodes@[m].ports@[j] < g.ports@.len()
                &&& g.ports@[g.nodes@[m].ports@[j] as int].node == Some(m as usize)
            } by {
            assert(g.nodes@[m].ports@[j] == g0.nodes@[m].ports@[j]);
        }
    }
}

/// Takes the port dummy of a comment's hierarchical port out of its layer,
/// and drops the layer when it is left empty; nothing happens when the port
/// has no dummy or the dummy no layer.
pub fn remove_hierarchical_port_dummy_node(g: &mut LGraph, opposite_port: usize)
    requires
        old(g).wf(),
        old(g).layers_listed(),
        opposite_port < old(g).ports@.len(),
        old(g).ports@[opposite_port as int].port_dummy matches Some(d) ==> d < old(g).nodes@.len(),
    ensures
        final(g).wf(),
        final(g).layers_listed(),
        port_dummy_removed(old(g), final(g), opposite_port),
        final(g).ports == old(g).ports,
        final(g).edges == old(g).edges,
        final(g).layerless_nodes == old(g).layerless_nodes,
        final(g).nodes@.len() == old(g).nodes@.len(),
{
    let dummy = match g.ports[opposite_port].port_dummy {
        None => {
            return;
        },
        Some(d) => d,
    };
    let l = match g.nodes[dummy].layer {
        None => {
            return;
        },
        Some(l) => l,
    };
    let ghost g0 = *g;
    assert(l < g.layers@.len() && g.layers@[l as int]@.contains(dummy));
    let mut i: usize = 0;
    while i < g.layers[l].len() && g.layers[l][i] != dummy
        invariant
            *g == g0,
            l < g.layers@.len(),
            g.layers@[l as int]@.contains(dummy),
            i <= g.layers@[l as int]@.len(),
            forall|j: int| 0 <= j < i ==> g.layers@[l as int]@[j] != dummy,
        decreases g.layers@[l as int]@.len() - i,
    {
        i += 1;
    }
    proof {
        if i >= g.layers@[l as int]@.len() {
            let j = choose|j: int| 0 <= j < g.layers@[l as int]@.len() && g.layers@[l as int]@[j] == dummy;
            assert(g.layers@[l as int]@[j] != dummy);
        }
    }
    remove_from_layer(g, l, i, dummy);
    let ghost mid = *g;
    proof {
        lemma_remove_unique(g0.layers@[l as int]@, i as int);
        assert forall|m: int| 0 <= m < mid.nodes@.len() implies (#[trigger] mid.nodes@[m].layer matches Some(k) ==> (k
            < mid.layers@.len() && mid.layers@[k as int]@.contains(m as usize))) by {
            if let Some(k) = mid.nodes@[m].layer {
                assert(m != dummy);
                assert(mid.nodes@[m] == g0.nodes@[m]);
                assert(g0.layers@[k as int]@.contains(m as usize));
                if k == l {
                    assert(g0.nodes@.len() == g0.nodes.len());
                    assert(m as usize != g0.layers@[l as int]@[i as int]);
                    assert(g0.layers@[l as int]@.remove(i as int).contains(m as usize));
                }
            }
        }
    }
    if g.layers[l].len() == 0 {
        remove_empty_layer(g, l);
        proof {
            assert forall|m: int| 0 <= m < g.nodes@.len() implies (#[trigger] g.nodes@[m].layer matches Some(k) ==> (k
                < g.layers@.len() && g.layers@[k as int]@.contains(m as usize))) by {
                if let Some(k0) = mid.nodes@[m].layer {
                    assert(mid.layers@[k0 as int]@.contains(m as usize));
                    assert(k0 != l);
                    if k0 > l {
                        assert(g.layers@[k0 - 1] == mid.layers@[k0 as int]);
                    } else {
                        assert(g.layers@[k0 as int] == mid.layers@[k0 as int]);
                    }
                }
            }
        }
    }
    assert(removed_from_layer(&g0, &mid, l as int, i as int, dummy as int));
}


/// `b` is `a` after the port dummy of port `q`, if it lies in a layer, left
/// that layer, and the layer was dropped when it became empty.
pub open spec fn port_dummy_removed(a: &LGraph, b: &LGraph, q: usize) -> bool {
    match a.ports@[q as int].port_dummy {
        None => *b == *a,
        Some(d) => match a.nodes@[d as int].layer {
            None => *b == *a,
            Some(l) => exists|i: int, mid: LGraph|
                0 <= i < a.layers@[l as int]@.len() && a.layers@[l as int]@[i] == d
                    && #[trigger] removed_from_layer(a, &mid, l as int, i, d as int) && if mid.layers@[l as int]@.len() == 0 {
                    layer_removed(&mid, b, l as int)
                } else {
                    *b == mid
                },
        },
    }
}

/// Whether the node is a comment box.
pub fn is_comment_box(g: &LGraph, n: usize) -> (res: bool)
    requires
        n < g.nodes@.len(),
    ensures
        res == (g.nodes@[n as int].comment_box == Some(true)),
{
    match g.nodes[n].comment_box {
        Some(b) => b,
        None => false,
    }
}

/// The boxes a side table lists at node `n`, none when it has no entry.
pub open spec fn listed(t: Seq<Option<Vec<usize>>>, n: usize) -> Seq<usize> {
    if n < t.len() && t[n as int] is Some {
        t[n as int]->0@
    } else {
        Seq::empty()
    }
}

/// Whether the node has an entry in the side table.
pub open spec fn has_entry(t: Seq<Option<Vec<usize>>>, n: usize) -> bool {
    n < t.len() && t[n as int] is Some
}

/// Whether a new comment box of node `n` goes above it: with the top
/// first, it does unless the node has boxes below but none may go above and
/// the top holds more; otherwise it goes below unless the node has boxes
/// above but none may go below and the bottom holds more.
pub open spec fn goes_on_top(
    top: Seq<Option<Vec<usize>>>,
    bottom: Seq<Option<Vec<usize>>>,
    n: usize,
    only_top: bool,
    only_bottom: bool,
    top_first: bool,
) -> bool {
    if top_first {
        if !has_entry(top, n) || only_top {
            true
        } else if !has_entry(bottom, n) {
            false
        } else {
            listed(top, n).len() <= listed(bottom, n).len()
        }
    } else if !has_entry(bottom, n) || only_bottom {
        false
    } else if !has_entry(top, n) {
        true
    } else {
        listed(bottom, n).len() > listed(top, n).len()
    }
}

/// `b` is the side table `a` with box `bx` appended at node `n`.
pub open spec fn box_added(a: Seq<Option<Vec<usize>>>, b: Seq<Option<Vec<usize>>>, n: usize, bx: usize) -> bool {
    &&& b.len() == a.len()
    &&& forall|k: int| 0 <= k < a.len() && k != n ==> #[trigger] b[k] == a[k]
    &&& labels_view(b[n as int]) == Some(listed(a, n).push(bx))
}

/// `b` is `a` with box `bx` connected to port `q`.
pub open spec fn conn_set(a: &LGraph, b: &LGraph, bx: usize, q: usize) -> bool {
    &&& b.nodes@ == a.nodes@.update(bx as int, LNode { comment_conn_port: Some(q), ..a.nodes@[bx as int] })
    &&& b.ports == a.ports
    &&& b.edges == a.edges
    &&& b.layers == a.layers
    &&& b.layerless_nodes == a.layerless_nodes
}

/// `b` is `a` with edge `e` detached at its target (or its source) end: that
/// end moves to a loose port appended to the ports.
pub open spec fn end_detached(a: &LGraph, b: &LGraph, e: int, at_target: bool) -> bool {
    let lp = a.ports@.len() as usize;
    &&& b.ports@.len() == a.ports@.len() + 1
    &&& forall|p: int| 0 <= p < a.ports@.len() ==> #[trigger] b.ports@[p] == a.ports@[p]
    &&& loose_port(b.ports@[lp as int])
    &&& b.edges@ == a.edges@.update(
        e,
        if at_target {
            LEdge { target: lp, ..a.edges@[e] }
        } else {
            LEdge { source: lp, ..a.edges@[e] }
        },
    )
    &&& b.nodes == a.nodes
    &&& b.layers == a.layers
    &&& b.layerless_nodes == a.layerless_nodes
}

/// `b` is `a` after comment box `bx` was taken off its edge `e` to port `q`:
/// the box records `q` as its connection port; the edge is detached at `q`'s
/// end; `q` leaves its node when it has no edge left; and when `q` was the
/// edge's target, its port dummy leaves its layer (see
/// `port_dummy_removed`).
pub open spec fn box_taken(a: &LGraph, b: &LGraph, bx: usize, e: int, q: usize) -> bool {
    exists|m1: LGraph, m2: LGraph, m3: LGraph| #[trigger] box_steps(a, b, bx, e, q, m1, m2, m3)
}

/// The steps of `box_taken`, by way of `m1`, `m2` and `m3`.
pub open spec fn box_steps(a: &LGraph, b: &LGraph, bx: usize, e: int, q: usize, m1: LGraph, m2: LGraph, m3: LGraph) -> bool {
    let at_target = a.edges@[e].target == q;
    &&& conn_set(a, &m1, bx, q)
    &&& end_detached(&m1, &m2, e, at_target)
    &&& if degree(&m2, q as int) == 0 {
        port_released(&m2, &m3, q)
    } else {
        m3 == m2
    }
    &&& if at_target {
        port_dummy_removed(&m3, b, q)
    } else {
        *b == m3
    }
}

/// Appends box `bx` to the entry of node `n` in the side table.
fn add_box(t: &mut Vec<Option<Vec<usize>>>, n: usize, bx: usize)
    requires
        n < old(t)@.len(),
    ensures
        box_added(old(t)@, final(t)@, n, bx),
{
    let ghost t0 = t@;
    let mut list = match &t[n] {
        Some(v) => copy_list(v),
        None => Vec::new(),
    };
    list.push(bx);
    t.set(n, Some(list));
}

/// Hands comment box `bx` to node `real_node`, above or below it (see
/// `goes_on_top`; `only_top`, `only_bottom` and `top_first` are the side
/// choice for the node), and takes it off its edge `e` to port `q` (see
/// `box_taken`). The box's position is left to the caller.
pub fn process_box(
    g: &mut LGraph,
    top: &mut Vec<Option<Vec<usize>>>,
    bottom: &mut Vec<Option<Vec<usize>>>,
    bx: usize,
    e: usize,
    q: usize,
    real_node: usize,
    only_top: bool,
    only_bottom: bool,
    top_first: bool,
)
    requires
        old(g).wf(),
        old(g).layers_listed(),
        bx < old(g).nodes@.len(),
        e < old(g).edges@.len(),
        q < old(g).ports@.len(),
        old(g).ports@[q as int].port_dummy matches Some(d) ==> d < old(g).nodes@.len(),
        real_node < old(top)@.len(),
        real_node < old(bottom)@.len(),
    ensures
        final(g).wf(),
        final(g).layers_listed(),
        box_taken(old(g), final(g), bx, e as int, q),
        final(g).nodes@.len() == old(g).nodes@.len(),
        final(g).layerless_nodes == old(g).layerless_nodes,
        dummies_valid(old(g)) ==> dummies_valid(final(g)),
        if goes_on_top(old(top)@, old(bottom)@, real_node, only_top, only_bottom, top_first) {
            box_added(old(top)@, final(top)@, real_node, bx) && final(bottom)@ == old(bottom)@
        } else {
            box_added(old(bottom)@, final(bottom)@, real_node, bx) && final(top)@ == old(top)@
        },
{
    let has_top = top[real_node].is_some();
    let has_bottom = bottom[real_node].is_some();
    let top_len = match &top[real_node] {
        Some(v) => v.len(),
        None => 0,
    };
    let bottom_len = match &bottom[real_node] {
        Some(v) => v.len(),
        None => 0,
    };
    let use_top = if top_first {
        if !has_top || only_top {
            true
        } else if !has_bottom {
            false
        } else {
            top_len <= bottom_len
        }
    } else if !has_bottom || only_bottom {
        false
    } else if !has_top {
        true
    } else {
        bottom_len > top_len
    };
    if use_top {
        add_box(top, real_node, bx);
    } else {
        add_box(bottom, real_node, bx);
    }
    let ghost a = *g;
    g.nodes[bx].comment_conn_port = Some(q);
    let ghost m1 = *g;
    proof {
        assert(g.nodes@ == a.nodes@.update(bx as int, LNode { comment_conn_port: Some(q), ..a.nodes@[bx as int] }));
        assert forall|x: int, j: int| 0 <= x < g.nodes@.len() && 0 <= j < g.nodes@[x].ports@.len() implies {
            &&& #[trigger] g.nodes@[x].ports@[j] < g.ports@.len()
            &&& g.ports@[g.nodes@[x].ports@[j] as int].node == Some(x as usize)
        } by {
            assert(g.nodes@[x].ports == a.nodes@[x].ports);
        }
        assert forall|k: int, j: int| 0 <= k < g.layers@.len() && 0 <= j < g.layers@[k]@.len() implies {
            &&& #[trigger] g.layers@[k]@[j] < g.nodes@.len()
            &&& g.nodes@[g.layers@[k]@[j] as int].layer == Some(k as usize)
        } by {
            assert(a.layers@[k]@[j] < a.nodes@.len());
        }
        assert forall|x: int| 0 <= x < g.nodes@.len() implies (#[trigger] g.nodes@[x].layer matches Some(k) ==> (k
            < g.layers@.len() && g.layers@[k as int]@.contains(x as usize))) by {
            assert(g.nodes@[x].layer == a.nodes@[x].layer);
        }
    }
    let at_target = g.edges[e].target == q;
    let lp = g.ports.len();
    g.ports.push(LPort::new());
    assert(g.ports@[lp as int] == m1.ports@.push(g.ports@[lp as int])[lp as int]);
    if at_target {
        g.edges[e].target = lp;
    } else {
        g.edges[e].source = lp;
    }
    let ghost m2 = *g;
    proof {
        assert forall|x: int| 0 <= x < g.edges@.len() implies #[trigger] g.edges@[x].source < g.ports@.len()
            && g.edges@[x].target < g.ports@.len() by {
            assert(m1.edges@[x].source < m1.ports@.len());
        }
        assert forall|p: int| 0 <= p < g.ports@.len() implies (#[trigger] g.ports@[p].node matches Some(m) ==> m
            < g.nodes@.len()) by {
            if p < lp {
                assert(g.ports@[p] == m1.ports@[p]);
            }
        }
        assert forall|x: int, j: int| 0 <= x < g.nodes@.len() && 0 <= j < g.nodes@[x].ports@.len() implies {
            &&& #[trigger] g.nodes@[x].ports@[j] < g.ports@.len()
            &&& g.ports@[g.nodes@[x].ports@[j] as int].node == Some(x as usize)
        } by {
            assert(m1.nodes@[x].ports@[j] < m1.ports@.len());
            assert(g.ports@[m1.nodes@[x].ports@[j] as int] == m1.ports@[m1.nodes@[x].ports@[j] as int]);
        }
        assert(end_detached(&m1, &m2, e as int, at_target));
    }
    if port_degree(g, q) == 0 {
        release_port(g, q);
    }
    let ghost m3 = *g;
    if at_target {
        remove_hierarchical_port_dummy_node(g, q);
    }
    proof {
        assert(conn_set(&a, &m1, bx, q));
        assert(box_steps(&a, g, bx, e as int, q, m1, m2, m3));
        if dummies_valid(&a) {
            assert forall|p: int| 0 <= p < g.ports@.len() implies (#[trigger] g.ports@[p].port_dummy matches Some(d) ==> d
                < g.nodes@.len()) by {
                assert(g.ports@[p].port_dummy == m3.ports@[p].port_dummy);
                assert(m3.ports@[p].port_dummy == m2.ports@[p].port_dummy);
                if p < lp {
                    assert(m2.ports@[p] == a.ports@[p]);
                }
            }
        }
    }
}

/// Every port dummy that a port names is a node of the graph.
pub open spec fn dummies_valid(g: &LGraph) -> bool {
    forall|p: int| 0 <= p < g.ports@.len() ==> (#[trigger] g.ports@[p].port_dummy matches Some(d) ==> d < g.nodes@.len())
}

/// Port `q` belongs to a comment box.
pub open spec fn at_comment(g: &LGraph, q: usize) -> bool {
    g.ports@[q as int].node matches Some(n) && g.nodes@[n as int].comment_box == Some(true)
}

/// Edge `e` connects port `p` to a port that belongs to no comment box.
pub open spec fn links_plain(g: &LGraph, e: int, p: usize) -> bool {
    ||| g.edges@[e].source == p && !at_comment(g, g.edges@[e].target)
    ||| g.edges@[e].target == p && !at_comment(g, g.edges@[e].source)
}

/// Port `p` is connected to a port of no comment box.
pub open spec fn touches_plain(g: &LGraph, p: usize) -> bool {
    exists|e: int| 0 <= e < g.edges@.len() && #[trigger] links_plain(g, e, p)
}

/// Scanning the ports in order up to the first northern one connected to a
/// port of no comment box: whether there is such a northern port, and
/// whether a southern one like it comes before.
pub open spec fn side_scan(g: &LGraph, ps: Seq<usize>) -> (bool, bool)
    decreases ps.len(),
{
    if ps.len() == 0 {
        (false, false)
    } else if g.ports@[ps[0] as int].side == PortSide::North && touches_plain(g, ps[0]) {
        (true, false)
    } else {
        let r = side_scan(g, ps.drop_first());
        (r.0, r.1 || (g.ports@[ps[0] as int].side == PortSide::South && touches_plain(g, ps[0])))
    }
}

/// The side choice for the comment boxes of node `n`: whether they may go
/// only above it, only below it, and whether above comes first. `labels`
/// tells, by node, whether the node's labels lie, on average, in its lower
/// half (none when it has no labels).
pub open spec fn comment_sides(g: &LGraph, n: usize, labels: Seq<Option<bool>>) -> (bool, bool, bool) {
    let fixed = match g.nodes@[n as int].port_constraints {
        Some(pc) => pc.spec_is_side_fixed(),
        None => false,
    };
    let scan = side_scan(g, g.nodes@[n as int].ports@);
    let only_top = fixed && scan.1 && !scan.0;
    let only_bottom = fixed && scan.0 && !scan.1;
    let top_first = if !only_top && !only_bottom && n < labels.len() && labels[n as int] is Some {
        labels[n as int]->0
    } else {
        !only_bottom
    };
    (only_top, only_bottom, top_first)
}

/// Whether port `p` is connected to a port of no comment box.
fn touches_plain_exec(g: &LGraph, p: usize) -> (res: bool)
    requires
        g.wf(),
    ensures
        res == touches_plain(g, p),
{
    let mut e: usize = 0;
    while e < g.edges.len()
        invariant
            g.wf(),
            e <= g.edges@.len(),
            forall|f: int| 0 <= f < e ==> !#[trigger] links_plain(g, f, p),
        decreases g.edges@.len() - e,
    {
        let s = g.edges[e].source;
        let t = g.edges[e].target;
        let t_comment = match g.ports[t].node {
            Some(n) => is_comment_box(g, n),
            None => false,
        };
        let s_comment = match g.ports[s].node {
            Some(n) => is_comment_box(g, n),
            None => false,
        };
        if (s == p && !t_comment) || (t == p && !s_comment) {
            assert(links_plain(g, e as int, p));
            return true;
        }
        e += 1;
    }
    false
}

/// The side choice for the comment boxes of node `n` (see `comment_sides`).
pub fn choose_comment_side(g: &LGraph, n: usize, labels: &Vec<Option<bool>>) -> (res: (bool, bool, bool))
    requires
        g.wf(),
        n < g.nodes@.len(),
    ensures
        res == comment_sides(g, n, labels@),
{
    let ghost ps = g.nodes@[n as int].ports@;
    let fixed = match g.nodes[n].port_constraints {
        Some(pc) => pc.is_side_fixed(),
        None => false,
    };
    let mut has_north = false;
    let mut has_south = false;
    let mut i: usize = 0;
    assert(ps.skip(0) == ps);
    while i < g.nodes[n].ports.len()
        invariant_except_break
            !has_north,
            side_scan(g, ps) == (side_scan(g, ps.skip(i as int)).0, has_south || side_scan(g, ps.skip(i as int)).1),
        invariant
            g.wf(),
            n < g.nodes@.len(),
            ps == g.nodes@[n as int].ports@,
            i <= ps.len(),
        ensures
            side_scan(g, ps) == (has_north, has_south),
        decreases ps.len() - i,
    {
        let p = g.nodes[n].ports[i];
        assert(ps.skip(i as int)[0] == p);
        assert(ps.skip(i as int).drop_first() == ps.skip(i as int + 1));
        assert(p < g.ports@.len());
        let t = touches_plain_exec(g, p);
        let side = g.ports[p].side;
        let north = match side {
            PortSide::North => true,
            _ => false,
        };
        let south = match side {
            PortSide::South => true,
            _ => false,
        };
        if north && t {
            has_north = true;
            break;
        }
        proof {
            if i + 1 == ps.len() {
                assert(ps.skip(i as int + 1).len() == 0);
            }
        }
        if south && t {
            has_south = true;
        }
        i += 1;
    }
    let only_top = fixed && has_south && !has_north;
    let only_bottom = fixed && has_north && !has_south;
    let top_first = if !only_top && !only_bottom && n < labels.len() && labels[n].is_some() {
        labels[n].unwrap()
    } else {
        !only_bottom
    };
    (only_top, only_bottom, top_first)
}

/// The scan of a comment box's ports: the number of edges at them (counted
/// up to 2), and the edge of the last port with a single entering or a
/// single leaving edge, with the port at that edge's other end; a single
/// leaving edge is taken over a single entering one.
pub open spec fn box_scan(g: &LGraph, ps: Seq<usize>) -> (int, Option<(usize, usize)>)
    decreases ps.len(),
{
    if ps.len() == 0 {
        (0, None)
    } else {
        let r = box_scan(g, ps.drop_last());
        let p = ps.last() as int;
        let inc = g.incoming_of(p);
        let out = g.outgoing_of(p);
        let pick1 = if inc.len() == 1 {
            Some((inc[0], g.edges@[inc[0] as int].source))
        } else {
            r.1
        };
        let pick2 = if out.len() == 1 {
            Some((out[0], g.edges@[out[0] as int].target))
        } else {
            pick1
        };
        let c = r.0 + degree(g, p);
        (if c > 2 {
            2
        } else {
            c
        }, pick2)
    }
}

/// What comment box `n` is attached to, when it is attached by a single
/// edge to a port with a single edge of a node that is no comment box: that
/// edge, that port and that node.
pub open spec fn box_target(g: &LGraph, n: usize) -> Option<(usize, usize, usize)> {
    let r = box_scan(g, g.nodes@[n as int].ports@);
    match r.1 {
        Some((e, q)) => match g.ports@[q as int].node {
            Some(m) => if r.0 == 1 && degree(g, q as int) == 1 && g.nodes@[m as int].comment_box != Some(true) {
                Some((e, q, m))
            } else {
                None
            },
            None => None,
        },
        None => None,
    }
}

/// The scan of the ports of comment box `n` (see `box_scan`).
fn scan_box(g: &LGraph, n: usize) -> (res: (usize, Option<(usize, usize)>))
    requires
        g.wf(),
        n < g.nodes@.len(),
    ensures
        res.0 as int == box_scan(g, g.nodes@[n as int].ports@).0,
        res.1 == box_scan(g, g.nodes@[n as int].ports@).1,
        res.1 matches Some((e, q)) ==> e < g.edges@.len() && q < g.ports@.len(),
{
    let ghost ps = g.nodes@[n as int].ports@;
    let mut count: usize = 0;
    let mut pick: Option<(usize, usize)> = None;
    let mut i: usize = 0;
    assert(ps.take(0) == Seq::<usize>::empty());
    while i < g.nodes[n].ports.len()
        invariant
            g.wf(),
            n < g.nodes@.len(),
            ps == g.nodes@[n as int].ports@,
            i <= ps.len(),
            count as int == box_scan(g, ps.take(i as int)).0,
            pick == box_scan(g, ps.take(i as int)).1,
            pick matches Some((e, q)) ==> e < g.edges@.len() && q < g.ports@.len(),
        decreases ps.len() - i,
    {
        let p = g.nodes[n].ports[i];
        assert(ps.take(i as int + 1).drop_last() == ps.take(i as int));
        assert(ps.take(i as int + 1).last() == p);
        let inc = g.incoming_edges(p);
        let out = g.outgoing_edges(p);
        proof {
            crate::edge_and_layer_constraint_edge_reverser::lemma_port_edges(g, p);
            if inc@.len() > 0 {
                assert(inc@.contains(inc@[0]));
            }
            if out@.len() > 0 {
                assert(out@.contains(out@[0]));
            }
        }
        if inc.len() == 1 {
            let e = inc[0];
            pick = Some((e, g.edges[e].source));
        }
        if out.len() == 1 {
            let e = out[0];
            pick = Some((e, g.edges[e].target));
        }
        let d = if inc.len() >= 2 || out.len() >= 2 {
            2
        } else {
            inc.len() + out.len()
        };
        count = if count + d > 2 {
            2
        } else {
            count + d
        };
        i += 1;
    }
    assert(ps.take(i as int) == ps);
    (count, pick)
}

/// What comment box `n` is attached to (see `box_target`).
fn find_box_target(g: &LGraph, n: usize) -> (res: Option<(usize, usize, usize)>)
    requires
        g.wf(),
        n < g.nodes@.len(),
    ensures
        res == box_target(g, n),
        res matches Some((e, q, m)) ==> e < g.edges@.len() && q < g.ports@.len() && m < g.nodes@.len(),
{
    let (count, pick) = scan_box(g, n);
    match pick {
        Some((e, q)) => match g.ports[q].node {
            Some(m) => {
                if count == 1 && port_degree(g, q) == 1 && !is_comment_box(g, m) {
                    Some((e, q, m))
                } else {
                    None
                }
            },
            None => None,
        },
        None => None,
    }
}

/// `b` is `a` after the layerless node at index `i` was looked at, with
/// the side tables `t`/`u` becoming `t2`/`u2` and the index `j`: a node that
/// is no comment box is passed over; a comment box attached as
/// `box_target` says is handed to its node (see `process_box`, with the
/// side choice of `comment_sides`) and leaves the layerless nodes; any other
/// comment box has its edges against the flow turned around.
pub open spec fn pre_step(
    a: &LGraph,
    t: Seq<Option<Vec<usize>>>,
    u: Seq<Option<Vec<usize>>>,
    i: int,
    b: &LGraph,
    t2: Seq<Option<Vec<usize>>>,
    u2: Seq<Option<Vec<usize>>>,
    j: int,
    labels: Seq<Option<bool>>,
) -> bool {
    let n = a.layerless_nodes@[i];
    if a.nodes@[n as int].comment_box != Some(true) {
        *b == *a && t2 == t && u2 == u && j == i + 1
    } else {
        match box_target(a, n) {
            Some((e, q, r)) => {
                let sides = comment_sides(a, r, labels);
                &&& exists|m: LGraph| #[trigger] box_taken(a, &m, n, e as int, q) && b.nodes == m.nodes
                    && b.ports == m.ports && b.edges == m.edges && b.layers == m.layers
                &&& b.layerless_nodes@ == a.layerless_nodes@.remove(i)
                &&& if goes_on_top(t, u, r, sides.0, sides.1, sides.2) {
                    box_added(t, t2, r, n) && u2 == u
                } else {
                    box_added(u, u2, r, n) && t2 == t
                }
                &&& j == i
            },
            None => {
                &&& same_but_edges(a, b)
                &&& flipped_by(a, b, odd_edges(a, a.nodes@[n as int].ports@))
                &&& t2 == t
                &&& u2 == u
                &&& j == i + 1
            },
        }
    }
}

/// The states of a preprocessing run, each a graph, the two side tables and
/// the index into the layerless nodes; each steps to the next.
pub open spec fn pre_run(
    c: Seq<(LGraph, Seq<Option<Vec<usize>>>, Seq<Option<Vec<usize>>>, int)>,
    labels: Seq<Option<bool>>,
) -> bool {
    forall|k: int|
        0 <= k < c.len() - 1 ==> #[trigger] pre_step(
            &c[k].0,
            c[k].1,
            c[k].2,
            c[k].3,
            &c[k + 1].0,
            c[k + 1].1,
            c[k + 1].2,
            c[k + 1].3,
            labels,
        )
}

impl CommentPreprocessor {
    /// Turns the comment boxes among the layerless nodes into annotations of
    /// the nodes they are attached to (see `pre_step`): `top_comments` and
    /// `bottom_comments` collect, by node, the boxes above and below it, and
    /// `labels` gives, by node, whether its labels lie on average in its
    /// lower half (see `comment_sides`).
    pub fn process(
        &self,
        g: &mut LGraph,
        top_comments: &mut Vec<Option<Vec<usize>>>,
        bottom_comments: &mut Vec<Option<Vec<usize>>>,
        labels: &Vec<Option<bool>>,
    )
        requires
            old(g).wf(),
            old(g).layers_listed(),
            dummies_valid(old(g)),
            old(top_comments)@.len() == old(g).nodes@.len(),
            old(bottom_comments)@.len() == old(g).nodes@.len(),
        ensures
            final(g).wf(),
            final(g).layers_listed(),
            exists|c: Seq<(LGraph, Seq<Option<Vec<usize>>>, Seq<Option<Vec<usize>>>, int)>| {
                &&& #[trigger] pre_run(c, labels@)
                &&& c.len() >= 1
                &&& c[0] == (*old(g), old(top_comments)@, old(bottom_comments)@, 0int)
                &&& c.last() == (*final(g), final(top_comments)@, final(bottom_comments)@, final(g).layerless_nodes@.len() as int)
            },
    {
        let ghost g0 = *g;
        let ghost t0 = top_comments@;
        let ghost u0 = bottom_comments@;
        let ghost mut c: Seq<(LGraph, Seq<Option<Vec<usize>>>, Seq<Option<Vec<usize>>>, int)> = seq![
            (*g, top_comments@, bottom_comments@, 0int),
        ];
        let mut i: usize = 0;
        while i < g.layerless_nodes.len()
            invariant
                g.wf(),
                g.layers_listed(),
                dummies_valid(g),
                g.nodes@.len() == g0.nodes@.len(),
                top_comments@.len() == g0.nodes@.len(),
                bottom_comments@.len() == g0.nodes@.len(),
                i <= g.layerless_nodes@.len(),
                c.len() >= 1,
                c[0] == (g0, t0, u0, 0int),
                c.last() == (*g, top_comments@, bottom_comments@, i as int),
                pre_run(c, labels@),
            decreases g.layerless_nodes@.len() - i,
        {
            let n = g.layerless_nodes[i];
            let ghost ga = *g;
            let ghost ta = top_comments@;
            let ghost ua = bottom_comments@;
            let ghost ia = i as int;
            if is_comment_box(g, n) {
                match find_box_target(g, n) {
                    Some((e, q, r)) => {
                        let (only_top, only_bottom, top_first) = choose_comment_side(g, r, labels);
                        process_box(g, top_comments, bottom_comments, n, e, q, r, only_top, only_bottom, top_first);
                        let ghost gm = *g;
                        g.layerless_nodes.remove(i);
                        proof {
                            assert(box_taken(&ga, &gm, n, e as int, q));
                            assert forall|k: int| 0 <= k < g.layerless_nodes@.len() implies #[trigger] g.layerless_nodes@[k]
                                < g.nodes@.len() by {
                                if k < i {
                                    assert(g.layerless_nodes@[k] == gm.layerless_nodes@[k]);
                                } else {
                                    assert(g.layerless_nodes@[k] == gm.layerless_nodes@[k + 1]);
                                }
                            }
                        }
                    },
                    None => {
                        reverse_oddly_connected_edges(g, n);
                        proof {
                            assert forall|m: int| 0 <= m < g.nodes@.len() implies (#[trigger] g.nodes@[m].layer matches Some(k) ==> (k
                                < g.layers@.len() && g.layers@[k as int]@.contains(m as usize))) by {
                                assert(g.nodes@[m] == ga.nodes@[m]);
                            }
                            assert forall|p: int| 0 <= p < g.ports@.len() implies (#[trigger] g.ports@[p].port_dummy matches Some(d) ==> d
                                < g.nodes@.len()) by {
                                assert(g.ports@[p] == ga.ports@[p]);
                            }
                        }
                        i += 1;
                    },
                }
            } else {
                i += 1;
            }
            proof {
                assert(pre_step(&ga, ta, ua, ia, g, top_comments@, bottom_comments@, i as int, labels@));
                let old_c = c;
                c = c.push((*g, top_comments@, bottom_comments@, i as int));
                assert forall|k: int| 0 <= k < c.len() - 1 implies #[trigger] pre_step(
                    &c[k].0,
                    c[k].1,
                    c[k].2,
                    c[k].3,
                    &c[k + 1].0,
                    c[k + 1].1,
                    c[k + 1].2,
                    c[k + 1].3,
                    labels@,
                ) by {
                    if k < old_c.len() - 1 {
                        assert(c[k] == old_c[k]);
                        assert(c[k + 1] == old_c[k + 1]);
                    } else {
                        assert(c[k] == old_c.last());
                    }
                }
            }
        }
        proof {
            assert(i == g.layerless_nodes@.len());
            assert(pre_run(c, labels@));
        }
    }
}

} // verus!

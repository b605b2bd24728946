//! Comment post-processing, its graph work: each comment box assigned to a
//! node gets its edge reattached to the port it was connected to, that port
//! returns to the node when it has a single edge, and the boxes join the
//! layer of their node. Where the boxes go is left to the caller.
use vstd::prelude::*;

use crate::graph::{
    LEdge, LGraph, LPort, copy_list, degree, layer_views, lemma_filter_facts, moved_layers, port_degree, same_but_layer,
    set_layer,
};
use crate::label_and_node_size_processor::same_but_ports;

verus! {

/// Places the comment boxes next to the nodes they comment, once the
/// layout is done.
pub struct CommentPostprocessor;

/// The port of the commented node that the comment box was attached to.
pub fn comment_conn_port(g: &LGraph, comment_box: usize) -> (res: Option<usize>)
    requires
        comment_box < g.nodes@.len(),
    ensures
        res == g.nodes@[comment_box as int].comment_conn_port,
{
    g.nodes[comment_box].comment_conn_port
}

/// The first of the ports that has an edge.
pub open spec fn first_attached(g: &LGraph, ports: Seq<usize>) -> Option<usize>
    decreases ports.len(),
{
    if ports.len() == 0 {
        None
    } else if g.outgoing_of(ports[0] as int).len() > 0 || g.incoming_of(ports[0] as int).len() > 0 {
        Some(ports[0])
    } else {
        first_attached(g, ports.drop_first())
    }
}

/// `b` is `a` with only edge `e` changed, now running between `source` and
/// `target`.
pub open spec fn edge_reattached(a: &LGraph, b: &LGraph, e: int, source: usize, target: usize) -> bool {
    &&& b.nodes == a.nodes
    &&& b.ports == a.ports
    &&& b.layers == a.layers
    &&& b.layerless_nodes == a.layerless_nodes
    &&& b.edges@ == a.edges@.update(e, LEdge { source, target, reversed: a.edges@[e].reversed })
}

/// `b` is `a` after the edge of comment box `bx` was reattached (see
/// `get_box_port`).
pub open spec fn box_port_taken(a: &LGraph, b: &LGraph, bx: usize) -> bool {
    match a.nodes@[bx as int].comment_conn_port {
        Some(q) => match first_attached(a, a.nodes@[bx as int].ports@) {
            Some(p) => if a.outgoing_of(p as int).len() > 0 {
                let e = a.outgoing_of(p as int)[0];
                edge_reattached(a, b, e as int, a.edges@[e as int].source, q)
            } else {
                let e = a.incoming_of(p as int)[0];
                edge_reattached(a, b, e as int, q, a.edges@[e as int].target)
            },
            None => *b == *a,
        },
        None => *b == *a,
    }
}

/// Reattaches the comment box's edge to the port of the commented node: the
/// first port of the box with an edge is found; its first leaving edge now
/// enters the node's port, or else its first entering edge now leaves that
/// port. Returns the box's port; nothing changes when the box has no
/// connection port or no port with an edge.
pub fn get_box_port(g: &mut LGraph, comment_box: usize) -> (res: Option<usize>)
    requires
        old(g).wf(),
        comment_box < old(g).nodes@.len(),
        old(g).nodes@[comment_box as int].comment_conn_port matches Some(q) ==> q < old(g).ports@.len(),
    ensures
        final(g).wf(),
        res == match old(g).nodes@[comment_box as int].comment_conn_port {
            Some(_) => first_attached(old(g), old(g).nodes@[comment_box as int].ports@),
            None => None,
        },
        box_port_taken(old(g), final(g), comment_box),
        res is None ==> *final(g) == *old(g),
        res matches Some(p) ==> {
            let q = old(g).nodes@[comment_box as int].comment_conn_port->0;
            if old(g).outgoing_of(p as int).len() > 0 {
                let e = old(g).outgoing_of(p as int)[0];
                edge_reattached(old(g), final(g), e as int, old(g).edges@[e as int].source, q)
            } else {
                let e = old(g).incoming_of(p as int)[0];
                edge_reattached(old(g), final(g), e as int, q, old(g).edges@[e as int].target)
            }
        },
{
    let node_port = match comment_conn_port(g, comment_box) {
        Some(q) => q,
        None => {
            return None;
        },
    };
    let ghost g0 = *g;
    assert(g0 == *old(g));
    let ghost ports = g.nodes@[comment_box as int].ports@;
    assert(node_port < g.ports@.len());
    assert(ports.skip(0) == ports);
    let mut i: usize = 0;
    while i < g.nodes[comment_box].ports.len()
        invariant
            *g == g0,
            g0 == *old(g),
            g.wf(),
            comment_box < g.nodes@.len(),
            node_port < g.ports@.len(),
            g.nodes@[comment_box as int].comment_conn_port == Some(node_port),
            ports == g.nodes@[comment_box as int].ports@,
            i <= ports.len(),
            first_attached(&g0, ports) == first_attached(&g0, ports.skip(i as int)),
        decreases ports.len() - i,
    {
        let p = g.nodes[comment_box].ports[i];
        assert(ports.skip(i as int)[0] == p);
        assert(ports.skip(i as int).drop_first() == ports.skip(i as int + 1));
        let outs = g.outgoing_edges(p);
        if outs.len() > 0 {
            let e = outs[0];
            proof {
                crate::edge_and_layer_constraint_edge_reverser::lemma_port_edges(g, p);
                assert(outs@.contains(e));
            }
            assert(g0.outgoing_of(p as int).len() > 0);
            assert(first_attached(&g0, ports.skip(i as int)) == Some(p));
            let s = g.edges[e].source;
            let r = g.edges[e].reversed;
            g.edges.set(e, LEdge { source: s, target: node_port, reversed: r });
            proof {
                lemma_reattach_wf(&g0, g, e as int);
                assert(g.edges@ == g0.edges@.update(e as int, LEdge { source: s, target: node_port, reversed: r }));
                assert(first_attached(&g0, ports) == Some(p));
                assert(e == g0.outgoing_of(p as int)[0]);
                assert(edge_reattached(&g0, g, e as int, g0.edges@[e as int].source, node_port));
            }
            return Some(p);
        }
        let ins = g.incoming_edges(p);
        if ins.len() > 0 {
            let e = ins[0];
            proof {
                crate::edge_and_layer_constraint_edge_reverser::lemma_port_edges(g, p);
                assert(ins@.contains(e));
            }
            assert(g0.outgoing_of(p as int).len() == 0);
            assert(g0.incoming_of(p as int).len() > 0);
            assert(first_attached(&g0, ports.skip(i as int)) == Some(p));
            let t = g.edges[e].target;
            let r = g.edges[e].reversed;
            g.edges.set(e, LEdge { source: node_port, target: t, reversed: r });
            proof {
                lemma_reattach_wf(&g0, g, e as int);
                assert(g.edges@ == g0.edges@.update(e as int, LEdge { source: node_port, target: t, reversed: r }));
            }
            return Some(p);
        }
        i += 1;
    }
    assert(ports.skip(ports.len() as int).len() == 0);
    None
}

/// Changing the ends of one edge to ports of the graph keeps it well formed.
proof fn lemma_reattach_wf(a: &LGraph, b: &LGraph, e: int)
    requires
        a.wf(),
        0 <= e < a.edges@.len(),
        b.nodes == a.nodes,
        b.ports == a.ports,
        b.layers == a.layers,
        b.layerless_nodes == a.layerless_nodes,
        b.edges@.len() == a.edges@.len(),
        b.edges@[e].source < b.ports@.len(),
        b.edges@[e].target < b.ports@.len(),
        forall|x: int| 0 <= x < a.edges@.len() && x != e ==> #[trigger] b.edges@[x] == a.edges@[x],
    ensures
        b.wf(),
{
    assert forall|x: int| 0 <= x < b.edges@.len() implies #[trigger] b.edges@[x].source < b.ports@.len()
        && b.edges@[x].target < b.ports@.len() by {
        if x != e {
            assert(b.edges@[x] == a.edges@[x]);
        }
    }
}

/// Whether an item is other than `q`.
pub open spec fn other_than(q: usize) -> spec_fn(usize) -> bool {
    |x: usize| x != q
}

/// The list without any occurrence of `q`.
pub open spec fn without(s: Seq<usize>, q: usize) -> Seq<usize> {
    s.filter(other_than(q))
}

/// `b` is `a` after port `q` was moved to node `n`: it leaves the list of
/// the node it belonged to, joins the end of `n`'s list, and names `n`.
pub open spec fn port_moved(a: &LGraph, b: &LGraph, q: usize, n: usize) -> bool {
    let o = a.ports@[q as int].node;
    &&& b.ports@ == a.ports@.update(q as int, LPort { node: Some(n), ..a.ports@[q as int] })
    &&& b.nodes@.len() == a.nodes@.len()
    &&& forall|m: int|
        0 <= m < a.nodes@.len() ==> {
            &&& same_but_ports(#[trigger] b.nodes@[m], a.nodes@[m])
            &&& b.nodes@[m].ports@ == if m == n {
                (if o == Some(n) {
                    without(a.nodes@[m].ports@, q)
                } else {
                    a.nodes@[m].ports@
                }).push(q)
            } else if o == Some(m as usize) {
                without(a.nodes@[m].ports@, q)
            } else {
                a.nodes@[m].ports@
            }
        }
    &&& b.edges == a.edges
    &&& b.layers == a.layers
    &&& b.layerless_nodes == a.layerless_nodes
}

/// A copy of the list without any occurrence of `q`.
fn copy_without(v: &Vec<usize>, q: usize) -> (res: Vec<usize>)
    ensures
        res@ == without(v@, q),
{
    let mut res: Vec<usize> = Vec::new();
    let mut i: usize = 0;
    while i < v.len()
        invariant
            i <= v@.len(),
            res@ == without(v@.take(i as int), q),
        decreases v@.len() - i,
    {
        assert(v@.take(i as int + 1).drop_last() == v@.take(i as int));
        reveal_with_fuel(Seq::filter, 1);
        if v[i] != q {
            res.push(v[i]);
        }
        i += 1;
    }
    assert(v@.take(v@.len() as int) == v@);
    res
}

/// Moves port `q` to node `n` (see `port_moved`).
fn move_port(g: &mut LGraph, q: usize, n: usize)
    requires
        old(g).wf(),
        old(g).layers_listed(),
        q < old(g).ports@.len(),
        n < old(g).nodes@.len(),
    ensures
        final(g).wf(),
        final(g).layers_listed(),
        port_moved(old(g), final(g), q, n),
{
    let ghost g0 = *g;
    match g.ports[q].node {
        Some(o) => {
            let kept = copy_without(&g.nodes[o].ports, q);
            g.nodes[o].ports = kept;
        },
        None => {},
    }
    let ghost g1 = *g;
    proof {
        assert forall|m: int| 0 <= m < g0.nodes@.len() implies {
            &&& same_but_ports(#[trigger] g1.nodes@[m], g0.nodes@[m])
            &&& g1.nodes@[m].ports@ == if g0.ports@[q as int].node == Some(m as usize) {
                without(g0.nodes@[m].ports@, q)
            } else {
                g0.nodes@[m].ports@
            }
        } by {
            assert(g0.nodes@.len() == g0.nodes.len());
            assert(m as usize as int == m);
        }
    }
    g.nodes[n].ports.push(q);
    g.ports[q].node = Some(n);
    proof {
        let o = g0.ports@[q as int].node;
        assert forall|m: int| 0 <= m < g0.nodes@.len() implies {
            &&& same_but_ports(#[trigger] g.nodes@[m], g0.nodes@[m])
            &&& g.nodes@[m].ports@ == if m == n {
                (if o == Some(n) {
                    without(g0.nodes@[m].ports@, q)
                } else {
                    g0.nodes@[m].ports@
                }).push(q)
            } else if o == Some(m as usize) {
                without(g0.nodes@[m].ports@, q)
            } else {
                g0.nodes@[m].ports@
            }
        } by {
            assert(g0.nodes@.len() == g0.nodes.len());
            assert(m as usize as int == m);
            assert(same_but_ports(g1.nodes@[m], g0.nodes@[m]));
            if m == n {
                assert(g.nodes@[m].ports@ == g1.nodes@[m].ports@.push(q));
            } else {
                assert(g.nodes@[m] == g1.nodes@[m]);
            }
        }
        assert forall|m: int, i: int| 0 <= m < g.nodes@.len() && 0 <= i < g.nodes@[m].ports@.len() implies {
            &&& #[trigger] g.nodes@[m].ports@[i] < g.ports@.len()
            &&& g.ports@[g.nodes@[m].ports@[i] as int].node == Some(m as usize)
        } by {
            let x = g.nodes@[m].ports@[i];
            let before = if o == Some(m as usize) {
                without(g0.nodes@[m].ports@, q)
            } else {
                g0.nodes@[m].ports@
            };
            if m == n && i == before.len() {
            } else {
                assert(before[i] == x);
                if o == Some(m as usize) {
                    lemma_filter_facts(g0.nodes@[m].ports@, other_than(q));
                    assert(before.contains(x));
                    g0.nodes@[m].ports@.lemma_filter_contains_rev(other_than(q), x);
                    let j = choose|j: int| 0 <= j < g0.nodes@[m].ports@.len() && g0.nodes@[m].ports@[j] == x;
                    assert(g0.nodes@[m].ports@[j] < g0.ports@.len());
                    assert(x != q);
                } else {
                    assert(g0.nodes@[m].ports@[i] < g0.ports@.len());
                    assert(g0.ports@[x as int].node == Some(m as usize));
                    assert(x != q);
                }
            }
        }
        assert forall|p: int| 0 <= p < g.ports@.len() implies (#[trigger] g.ports@[p].node matches Some(m) ==> m
            < g.nodes@.len()) by {
            assert(g0.ports@[p].node matches Some(m) ==> m < g0.nodes@.len());
        }
        assert forall|k: int, i: int| 0 <= k < g.layers@.len() && 0 <= i < g.layers@[k]@.len() implies {
            &&& #[trigger] g.layers@[k]@[i] < g.nodes@.len()
            &&& g.nodes@[g.layers@[k]@[i] as int].layer == Some(k as usize)
        } by {
            assert(g0.layers@[k]@[i] < g0.nodes@.len());
        }
        assert forall|m: int| 0 <= m < g.nodes@.len() implies (#[trigger] g.nodes@[m].layer matches Some(k) ==> (k
            < g.layers@.len() && g.layers@[k as int]@.contains(m as usize))) by {
            assert(g.nodes@[m].layer == g0.nodes@[m].layer);
        }
    }
}

/// `b` is `a` after port `q` left the node it belonged to: it leaves that
/// node's list and names no node.
pub open spec fn port_released(a: &LGraph, b: &LGraph, q: usize) -> bool {
    let o = a.ports@[q as int].node;
    &&& b.ports@ == a.ports@.update(q as int, LPort { node: None, ..a.ports@[q as int] })
    &&& b.nodes@.len() == a.nodes@.len()
    &&& forall|m: int|
        0 <= m < a.nodes@.len() ==> {
            &&& same_but_ports(#[trigger] b.nodes@[m], a.nodes@[m])
            &&& b.nodes@[m].ports@ == if o == Some(m as usize) {
                without(a.nodes@[m].ports@, q)
            } else {
                a.nodes@[m].ports@
            }
        }
    &&& b.edges == a.edges
    &&& b.layers == a.layers
    &&& b.layerless_nodes == a.layerless_nodes
}

/// Takes port `q` off its node (see `port_released`).
pub fn release_port(g: &mut LGraph, q: usize)
    requires
        old(g).wf(),
        old(g).layers_listed(),
        q < old(g).ports@.len(),
    ensures
        final(g).wf(),
        final(g).layers_listed(),
        port_released(old(g), final(g), q),
{
    let ghost g0 = *g;
    match g.ports[q].node {
        Some(o) => {
            let kept = copy_without(&g.nodes[o].ports, q);
            g.nodes[o].ports = kept;
        },
        None => {},
    }
    g.ports[q].node = None;
    proof {
        let o = g0.ports@[q as int].node;
        assert forall|m: int| 0 <= m < g0.nodes@.len() implies {
            &&& same_but_ports(#[trigger] g.nodes@[m], g0.nodes@[m])
            &&& g.nodes@[m].ports@ == if o == Some(m as usize) {
                without(g0.nodes@[m].ports@, q)
            } else {
                g0.nodes@[m].ports@
            }
        } by {
            assert(g0.nodes@.len() == g0.nodes.len());
            assert(m as usize as int == m);
        }
        assert forall|m: int, i: int| 0 <= m < g.nodes@.len() && 0 <= i < g.nodes@[m].ports@.len() implies {
            &&& #[trigger] g.nodes@[m].ports@[i] < g.ports@.len()
            &&& g.ports@[g.nodes@[m].ports@[i] as int].node == Some(m as usize)
        } by {
            assert(g0.nodes@.len() == g0.nodes.len());
            assert(m as usize as int == m);
            let x = g.nodes@[m].ports@[i];
            if o == Some(m as usize) {
                lemma_filter_facts(g0.nodes@[m].ports@, other_than(q));
                assert(without(g0.nodes@[m].ports@, q).contains(x));
                g0.nodes@[m].ports@.lemma_filter_contains_rev(other_than(q), x);
                let j = choose|j: int| 0 <= j < g0.nodes@[m].ports@.len() && g0.nodes@[m].ports@[j] == x;
                assert(g0.nodes@[m].ports@[j] < g0.ports@.len());
                assert(x != q);
            } else {
                assert(g0.nodes@[m].ports@[i] < g0.ports@.len());
                assert(g0.ports@[x as int].node == Some(m as usize));
                assert(x != q);
            }
        }
        assert forall|p: int| 0 <= p < g.ports@.len() implies (#[trigger] g.ports@[p].node matches Some(m) ==> m
            < g.nodes@.len()) by {
            assert(g0.ports@[p].node matches Some(m) ==> m < g0.nodes@.len());
        }
        assert forall|k: int, i: int| 0 <= k < g.layers@.len() && 0 <= i < g.layers@[k]@.len() implies {
            &&& #[trigger] g.layers@[k]@[i] < g.nodes@.len()
            &&& g.nodes@[g.layers@[k]@[i] as int].layer == Some(k as usize)
        } by {
            assert(g0.layers@[k]@[i] < g0.nodes@.len());
        }
        assert forall|m: int| 0 <= m < g.nodes@.len() implies (#[trigger] g.nodes@[m].layer matches Some(k) ==> (k
            < g.layers@.len() && g.layers@[k as int]@.contains(m as usize))) by {
            assert(g.nodes@[m].layer == g0.nodes@[m].layer);
        }
    }
}

/// The comment boxes assigned to node `n`: those above it, then those
/// below it.
pub open spec fn boxes_of(top: Seq<Option<Vec<usize>>>, bottom: Seq<Option<Vec<usize>>>, n: usize) -> Seq<usize> {
    let t = if n < top.len() && top[n as int] is Some { top[n as int]->0@ } else { Seq::empty() };
    let b = if n < bottom.len() && bottom[n as int] is Some { bottom[n as int]->0@ } else { Seq::empty() };
    t + b
}

/// Node `n` has comment boxes assigned above or below it.
pub open spec fn has_comments(top: Seq<Option<Vec<usize>>>, bottom: Seq<Option<Vec<usize>>>, n: usize) -> bool {
    (n < top.len() && top[n as int] is Some) || (n < bottom.len() && bottom[n as int] is Some)
}

/// The assigned comment boxes are nodes of the graph, and every connection
/// port is a port of it.
pub open spec fn comments_valid(g: &LGraph, top: Seq<Option<Vec<usize>>>, bottom: Seq<Option<Vec<usize>>>) -> bool {
    &&& forall|n: int, k: int|
        0 <= n < top.len() && top[n] is Some && 0 <= k < top[n]->0@.len() ==> #[trigger] top[n]->0@[k] < g.nodes@.len()
    &&& forall|n: int, k: int|
        0 <= n < bottom.len() && bottom[n] is Some && 0 <= k < bottom[n]->0@.len() ==> #[trigger] bottom[n]->0@[k]
            < g.nodes@.len()
    &&& forall|m: int| 0 <= m < g.nodes@.len() ==> (#[trigger] g.nodes@[m].comment_conn_port matches Some(q) ==> q < g.ports@.len())
}

/// `b` is `a` after comment box `bx` of node `n` had its turn: its edge
/// was reattached (see `box_port_taken`); then, if its connection port has
/// exactly one edge, that port moves to `n` (see `port_moved`).
pub open spec fn box_done(a: &LGraph, b: &LGraph, n: usize, bx: usize) -> bool {
    exists|m: LGraph| #[trigger] box_port_taken(a, &m, bx) && match m.nodes@[bx as int].comment_conn_port {
        Some(q) => if degree(&m, q as int) == 1 {
            port_moved(&m, b, q, n)
        } else {
            *b == m
        },
        None => *b == m,
    }
}

/// The graphs after each box of the list in turn had its turn.
pub open spec fn box_chain(c: Seq<LGraph>, n: usize, boxes: Seq<usize>) -> bool {
    &&& c.len() == boxes.len() + 1
    &&& forall|k: int| 0 <= k < boxes.len() ==> #[trigger] box_done(&c[k], &c[k + 1], n, boxes[k])
}

/// `b` is `a` after node `n` had its turn: a node with comment boxes has
/// each of them, in turn, take its turn; any other node changes nothing.
pub open spec fn node_done(
    a: LGraph,
    b: LGraph,
    top: Seq<Option<Vec<usize>>>,
    bottom: Seq<Option<Vec<usize>>>,
    n: usize,
) -> bool {
    if has_comments(top, bottom, n) {
        exists|c: Seq<LGraph>| #[trigger] box_chain(c, n, boxes_of(top, bottom, n)) && c[0] == a && c.last() == b
    } else {
        b == a
    }
}

/// The comment boxes of the nodes of the list, node by node.
pub open spec fn collected(top: Seq<Option<Vec<usize>>>, bottom: Seq<Option<Vec<usize>>>, ns: Seq<usize>) -> Seq<usize>
    decreases ns.len(),
{
    if ns.len() == 0 {
        Seq::empty()
    } else {
        collected(top, bottom, ns.drop_last()) + boxes_of(top, bottom, ns.last())
    }
}

/// The boxes of a node are nodes of the graph.
proof fn lemma_boxes_valid(g: &LGraph, top: Seq<Option<Vec<usize>>>, bottom: Seq<Option<Vec<usize>>>, n: usize)
    requires
        comments_valid(g, top, bottom),
    ensures
        forall|k: int| 0 <= k < boxes_of(top, bottom, n).len() ==> #[trigger] boxes_of(top, bottom, n)[k] < g.nodes@.len(),
{
    let t = if n < top.len() && top[n as int] is Some { top[n as int]->0@ } else { Seq::empty() };
    assert forall|k: int| 0 <= k < boxes_of(top, bottom, n).len() implies #[trigger] boxes_of(top, bottom, n)[k] < g.nodes@.len() by {
        if k < t.len() {
            assert(boxes_of(top, bottom, n)[k] == top[n as int]->0@[k]);
        } else {
            assert(boxes_of(top, bottom, n)[k] == bottom[n as int]->0@[k - t.len()]);
        }
    }
}

/// The comment boxes assigned to node `n` (see `boxes_of`).
fn boxes_for(top: &Vec<Option<Vec<usize>>>, bottom: &Vec<Option<Vec<usize>>>, n: usize) -> (boxes: Vec<usize>)
    ensures
        boxes@ == boxes_of(top@, bottom@, n),
{
    let mut boxes: Vec<usize> = Vec::new();
    if n < top.len() {
        match &top[n] {
            Some(v) => {
                boxes = copy_list(v);
            },
            None => {},
        }
    }
    if n < bottom.len() {
        match &bottom[n] {
            Some(v) => {
                let mut i: usize = 0;
                let ghost b0 = boxes@;
                while i < v.len()
                    invariant
                        i <= v@.len(),
                        boxes@ == b0 + v@.take(i as int),
                    decreases v@.len() - i,
                {
                    assert(v@.take(i as int + 1) == v@.take(i as int).push(v@[i as int]));
                    boxes.push(v[i]);
                    i += 1;
                }
                assert(v@.take(v@.len() as int) == v@);
            },
            None => {},
        }
    }
    assert(boxes@ == boxes_of(top@, bottom@, n));
    boxes
}

/// Takes the turn of each comment box of node `n` (see `box_chain`).
fn attach_boxes(g: &mut LGraph, top: &Vec<Option<Vec<usize>>>, bottom: &Vec<Option<Vec<usize>>>, n: usize) -> (c: Ghost<Seq<LGraph>>)
    requires
        old(g).wf(),
        old(g).layers_listed(),
        comments_valid(old(g), top@, bottom@),
        n < old(g).nodes@.len(),
    ensures
        final(g).wf(),
        final(g).layers_listed(),
        comments_valid(final(g), top@, bottom@),
        final(g).nodes@.len() == old(g).nodes@.len(),
        final(g).layers == old(g).layers,
        forall|m: int| 0 <= m < old(g).nodes@.len() ==> #[trigger] final(g).nodes@[m].layer == old(g).nodes@[m].layer,
        box_chain(c@, n, boxes_of(top@, bottom@, n)),
        c@[0] == *old(g),
        c@.last() == *final(g),
{
    let ghost g0 = *g;
    let boxes = boxes_for(top, bottom, n);
    proof {
        lemma_boxes_valid(&g0, top@, bottom@, n);
    }
    let ghost mut c: Seq<LGraph> = seq![*g];
    let mut k: usize = 0;
    while k < boxes.len()
        invariant
            boxes@ == boxes_of(top@, bottom@, n),
            forall|j: int| 0 <= j < boxes@.len() ==> #[trigger] boxes@[j] < g0.nodes@.len(),
            n < g0.nodes@.len(),
            k <= boxes@.len(),
            g.wf(),
            g.layers_listed(),
            comments_valid(g, top@, bottom@),
            g.nodes@.len() == g0.nodes@.len(),
            g.layers == g0.layers,
            forall|m: int| 0 <= m < g0.nodes@.len() ==> #[trigger] g.nodes@[m].layer == g0.nodes@[m].layer,
            c.len() == k + 1,
            c[0] == g0,
            c[k as int] == *g,
            forall|j: int| 0 <= j < k ==> #[trigger] box_done(&c[j], &c[j + 1], n, boxes@[j]),
        decreases boxes@.len() - k,
    {
        let bx = boxes[k];
        let ghost gb = *g;
        let _ = get_box_port(g, bx);
        let ghost gm = *g;
        proof {
            assert(box_port_taken(&gb, &gm, bx));
        }
        match g.nodes[bx].comment_conn_port {
            Some(q) => {
                if port_degree(g, q) == 1 {
                    move_port(g, q, n);
                }
            },
            None => {},
        }
        proof {
            assert(box_done(&gb, g, n, bx));
            let old_c = c;
            c = c.push(*g);
            assert forall|j: int| 0 <= j < k + 1 implies #[trigger] box_done(&c[j], &c[j + 1], n, boxes@[j]) by {
                if j < k {
                    assert(c[j] == old_c[j]);
                    assert(c[j + 1] == old_c[j + 1]);
                } else {
                    assert(c[j] == gb);
                }
            }
            assert forall|m: int| 0 <= m < g.nodes@.len() implies (#[trigger] g.nodes@[m].comment_conn_port matches Some(x) ==> x < g.ports@.len()) by {
                assert(g.nodes@[m].comment_conn_port == gb.nodes@[m].comment_conn_port);
            }
        }
        k += 1;
    }
    Ghost(c)
}

/// The graphs after each node of the list in turn had its turn.
pub open spec fn node_chain(c: Seq<LGraph>, top: Seq<Option<Vec<usize>>>, bottom: Seq<Option<Vec<usize>>>, ns: Seq<usize>) -> bool {
    &&& c.len() == ns.len() + 1
    &&& forall|k: int| 0 <= k < ns.len() ==> #[trigger] node_done(c[k], c[k + 1], top, bottom, ns[k])
}

/// `b` is `a` after node `d` joined the end of layer `l`.
pub open spec fn box_moved(a: &LGraph, b: &LGraph, d: usize, l: int) -> bool {
    &&& b.ports == a.ports
    &&& b.edges == a.edges
    &&& b.layerless_nodes == a.layerless_nodes
    &&& layer_views(b) == moved_layers(layer_views(a), a.nodes@[d as int].layer, d, l)
    &&& b.nodes@.len() == a.nodes@.len()
    &&& b.nodes@[d as int].layer == Some(l as usize)
    &&& same_but_layer(b.nodes@[d as int], a.nodes@[d as int])
    &&& forall|m: int| 0 <= m < a.nodes@.len() && m != d ==> #[trigger] b.nodes@[m] == a.nodes@[m]
}

/// The graphs after each node of the list in turn joined the end of layer
/// `l`.
pub open spec fn box_moves(c: Seq<LGraph>, ds: Seq<usize>, l: int) -> bool {
    &&& c.len() == ds.len() + 1
    &&& forall|k: int| 0 <= k < ds.len() ==> #[trigger] box_moved(&c[k], &c[k + 1], ds[k], l)
}

/// `b` is `a` after layer `l` had its turn: each of its nodes in turn had
/// its turn (`c1`, see `node_done`), then the comment boxes of those nodes,
/// node by node, joined the end of the layer (`c2`).
pub open spec fn layer_run(
    a: LGraph,
    b: LGraph,
    top: Seq<Option<Vec<usize>>>,
    bottom: Seq<Option<Vec<usize>>>,
    l: int,
    c1: Seq<LGraph>,
    c2: Seq<LGraph>,
) -> bool {
    &&& node_chain(c1, top, bottom, a.layers@[l]@)
    &&& c1[0] == a
    &&& box_moves(c2, collected(top, bottom, a.layers@[l]@), l)
    &&& c2[0] == c1.last()
    &&& c2.last() == b
}

/// `b` is `a` after layer `l` had its turn, by way of some chains.
pub open spec fn layer_done(a: LGraph, b: LGraph, top: Seq<Option<Vec<usize>>>, bottom: Seq<Option<Vec<usize>>>, l: int) -> bool {
    exists|c1: Seq<LGraph>, c2: Seq<LGraph>| #[trigger] layer_run(a, b, top, bottom, l, c1, c2)
}

/// The graphs after each layer in turn had its turn (see `layer_run`).
pub open spec fn layers_run(c: Seq<LGraph>, top: Seq<Option<Vec<usize>>>, bottom: Seq<Option<Vec<usize>>>) -> bool {
    forall|k: int| 0 <= k < c.len() - 1 ==> #[trigger] layer_done(c[k], c[k + 1], top, bottom, k)
}

impl CommentPostprocessor {
    /// Puts the comment boxes back next to the nodes they comment, layer
    /// by layer (see `layer_run`): `top_comments` and `bottom_comments`
    /// give, by node, the boxes assigned above and below it. The boxes'
    /// positions are left to the caller; here each box's edge is reattached,
    /// its connection port moves to the node it comments when it has a
    /// single edge, and the boxes join the layer of their node.
    pub fn process(&self, g: &mut LGraph, top_comments: &Vec<Option<Vec<usize>>>, bottom_comments: &Vec<Option<Vec<usize>>>)
        requires
            old(g).wf(),
            old(g).layers_listed(),
            comments_valid(old(g), top_comments@, bottom_comments@),
        ensures
            final(g).wf(),
            final(g).layers_listed(),
            exists|c: Seq<LGraph>| {
                &&& c.len() == old(g).layers@.len() + 1
                &&& c[0] == *old(g)
                &&& c.last() == *final(g)
                &&& #[trigger] layers_run(c, top_comments@, bottom_comments@)
            },
    {
        let ghost g0 = *g;
        let ghost top = top_comments@;
        let ghost bottom = bottom_comments@;
        let ghost mut lc: Seq<LGraph> = seq![*g];
        let mut l: usize = 0;
        while l < g.layers.len()
            invariant
                g.wf(),
                g.layers_listed(),
                comments_valid(g, top, bottom),
                top == top_comments@,
                bottom == bottom_comments@,
                g.nodes@.len() == g0.nodes@.len(),
                g.layers@.len() == g0.layers@.len(),
                l <= g.layers@.len(),
                lc.len() == l + 1,
                lc[0] == g0,
                lc[l as int] == *g,
                layers_run(lc, top, bottom),
            decreases g.layers@.len() - l,
        {
            let ns = copy_list(&g.layers[l]);
            let ghost gl = *g;
            proof {
                assert forall|k: int| 0 <= k < ns@.len() implies #[trigger] ns@[k] < gl.nodes@.len() by {
                    assert(gl.layers@[l as int]@[k] < gl.nodes@.len());
                }
            }
            let mut coll: Vec<usize> = Vec::new();
            let ghost mut c1: Seq<LGraph> = seq![*g];
            let mut i: usize = 0;
            while i < ns.len()
                invariant
                    g.wf(),
                    g.layers_listed(),
                    comments_valid(g, top, bottom),
                    top == top_comments@,
                    bottom == bottom_comments@,
                    g.nodes@.len() == gl.nodes@.len(),
                    g.layers == gl.layers,
                    l < g.layers@.len(),
                    ns@ == gl.layers@[l as int]@,
                    forall|k: int| 0 <= k < ns@.len() ==> #[trigger] ns@[k] < gl.nodes@.len(),
                    i <= ns@.len(),
                    coll@ == collected(top, bottom, ns@.take(i as int)),
                    c1.len() == i + 1,
                    c1[0] == gl,
                    c1[i as int] == *g,
                    forall|k: int| 0 <= k < i ==> #[trigger] node_done(c1[k], c1[k + 1], top, bottom, ns@[k]),
                decreases ns@.len() - i,
            {
                let n = ns[i];
                let ghost gb = *g;
                let boxes = boxes_for(top_comments, bottom_comments, n);
                let has = (n < top_comments.len() && top_comments[n].is_some()) || (n < bottom_comments.len()
                    && bottom_comments[n].is_some());
                if has {
                    let c = attach_boxes(g, top_comments, bottom_comments, n);
                    proof {
                        assert(box_chain(c@, n, boxes_of(top, bottom, n)));
                    }
                }
                let ghost coll0 = coll@;
                let mut j: usize = 0;
                while j < boxes.len()
                    invariant
                        j <= boxes@.len(),
                        coll@ == coll0 + boxes@.take(j as int),
                    decreases boxes@.len() - j,
                {
                    assert(boxes@.take(j as int + 1) == boxes@.take(j as int).push(boxes@[j as int]));
                    coll.push(boxes[j]);
                    j += 1;
                }
                proof {
                    assert(boxes@.take(boxes@.len() as int) == boxes@);
                    assert(node_done(gb, *g, top, bottom, n));
                    let t = ns@.take(i as int + 1);
                    assert(t.drop_last() == ns@.take(i as int));
                    assert(t.last() == n);
                    assert(coll@ == collected(top, bottom, t));
                    let old_c1 = c1;
                    c1 = c1.push(*g);
                    assert forall|k: int| 0 <= k < i + 1 implies #[trigger] node_done(c1[k], c1[k + 1], top, bottom, ns@[k]) by {
                        if k < i {
                            assert(c1[k] == old_c1[k]);
                            assert(c1[k + 1] == old_c1[k + 1]);
                        } else {
                            assert(c1[k] == gb);
                        }
                    }
                }
                i += 1;
            }
            proof {
                assert(ns@.take(i as int) == ns@);
                lemma_collected_valid(&gl, top, bottom, ns@);
            }
            let ghost gn = *g;
            let ghost mut c2: Seq<LGraph> = seq![*g];
            let mut r: usize = 0;
            while r < coll.len()
                invariant
                    g.wf(),
                    g.layers_listed(),
                    comments_valid(g, top, bottom),
                    g.nodes@.len() == gl.nodes@.len(),
                    g.layers@.len() == gl.layers@.len(),
                    l < g.layers@.len(),
                    forall|k: int| 0 <= k < coll@.len() ==> #[trigger] coll@[k] < gl.nodes@.len(),
                    r <= coll@.len(),
                    c2.len() == r + 1,
                    c2[0] == gn,
                    c2[r as int] == *g,
                    forall|k: int| 0 <= k < r ==> #[trigger] box_moved(&c2[k], &c2[k + 1], coll@[k], l as int),
                decreases coll@.len() - r,
            {
                let ghost gb = *g;
                set_layer(g, coll[r], l);
                proof {
                    let old_c2 = c2;
                    c2 = c2.push(*g);
                    assert(box_moved(&gb, g, coll@[r as int], l as int));
                    assert forall|k: int| 0 <= k < r + 1 implies #[trigger] box_moved(&c2[k], &c2[k + 1], coll@[k], l as int) by {
                        if k < r {
                            assert(c2[k] == old_c2[k]);
                            assert(c2[k + 1] == old_c2[k + 1]);
                        }
                    }
                    assert forall|m: int| 0 <= m < g.nodes@.len() implies (#[trigger] g.nodes@[m].comment_conn_port matches Some(x) ==> x < g.ports@.len()) by {
                        assert(g.nodes@[m].comment_conn_port == gb.nodes@[m].comment_conn_port);
                    }
                }
                r += 1;
            }
            proof {
                assert(layer_run(gl, *g, top, bottom, l as int, c1, c2));
                let old_lc = lc;
                lc = lc.push(*g);
                assert forall|k: int| 0 <= k < lc.len() - 1 implies #[trigger] layer_done(lc[k], lc[k + 1], top, bottom, k) by {
                    if k < l {
                        assert(lc[k] == old_lc[k]);
                        assert(lc[k + 1] == old_lc[k + 1]);
                    } else {
                        assert(lc[k] == gl);
                        assert(layer_run(lc[k], lc[k + 1], top, bottom, k, c1, c2));
                    }
                }
            }
            l += 1;
        }
    }
}

/// The collected boxes of a list of nodes are nodes of the graph.
proof fn lemma_collected_valid(g: &LGraph, top: Seq<Option<Vec<usize>>>, bottom: Seq<Option<Vec<usize>>>, ns: Seq<usize>)
    requires
        comments_valid(g, top, bottom),
    ensures
        forall|k: int| 0 <= k < collected(top, bottom, ns).len() ==> #[trigger] collected(top, bottom, ns)[k] < g.nodes@.len(),
    decreases ns.len(),
{
    if ns.len() > 0 {
        lemma_collected_valid(g, top, bottom, ns.drop_last());
        lemma_boxes_valid(g, top, bottom, ns.last());
        let a = collected(top, bottom, ns.drop_last());
        let b = boxes_of(top, bottom, ns.last());
        assert forall|k: int| 0 <= k < collected(top, bottom, ns).len() implies #[trigger] collected(top, bottom, ns)[k] < g.nodes@.len() by {
            if k < a.len() {
                assert(collected(top, bottom, ns)[k] == a[k]);
            } else {
                assert(collected(top, bottom, ns)[k] == b[k - a.len()]);
            }
        }
    }
}

} // verus!

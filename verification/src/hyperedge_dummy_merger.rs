//! Merges neighbouring long-edge dummies of one layer that belong to the same
//! hyperedge, so that a hyperedge is routed as one bundle.
//!
//! Which ports belong to one hyperedge is found by labelling the components
//! of the port graph: two ports are joined when an edge runs between them or
//! when they are two ports of one long-edge dummy.
use vstd::prelude::*;

use rustc_hash::FxHashMap;

use crate::graph::same_but_layer;
use crate::graph::{LEdge, LGraph, LNode, NodeType, PortSide, copy_list, take_layer};
use crate::hierarchical_port_constraint_processor::layer_nodes_before;

verus! {

/// Merges neighbouring long-edge dummies of one hyperedge.
pub struct HyperedgeDummyMerger;

/// rustc-hash's hasher builder, which `FxHashMap` hashes its keys with.
#[verifier::external_type_specification]
#[verifier::external_body]
pub struct ExFxBuildHasher(rustc_hash::FxBuildHasher);

/// `HashMap::contains_key` on an `FxHashMap`: the hasher of rustc-hash hashes
/// a key the same way every time, so the answer is whether the key has an
/// entry in the map.
#[verifier::external_body]
fn component_contains(m: &FxHashMap<usize, i32>, k: usize) -> (res: bool)
    ensures
        res == m@.contains_key(k),
{
    m.contains_key(&k)
}

/// `HashMap::insert` on an `FxHashMap`: afterwards the key maps to the value
/// and every other entry is as before.
#[verifier::external_body]
fn component_insert(m: &mut FxHashMap<usize, i32>, k: usize, v: i32)
    ensures
        final(m)@ == old(m)@.insert(k, v),
{
    m.insert(k, v);
}

/// `HashMap::get` on an `FxHashMap`, copied out: the value of the key's
/// entry, or nothing when the key has none.
#[verifier::external_body]
fn component_get(m: &FxHashMap<usize, i32>, k: usize) -> (res: Option<i32>)
    ensures
        match res {
            Some(v) => m@.contains_key(k) && m@[k] == v,
            None => !m@.contains_key(k),
        },
{
    m.get(&k).copied()
}

/// Edge `e` runs between ports `p` and `q`, in either direction.
pub open spec fn edge_joins(g: &LGraph, e: int, p: usize, q: usize) -> bool {
    ||| g.edges@[e].source == p && g.edges@[e].target == q
    ||| g.edges@[e].source == q && g.edges@[e].target == p
}

/// `p` and `q` are two different ports of one long-edge dummy.
pub open spec fn siblings(g: &LGraph, p: usize, q: usize) -> bool {
    &&& p != q
    &&& p < g.ports@.len()
    &&& g.ports@[p as int].node matches Some(n)
    &&& g.nodes@[n as int].node_type == NodeType::LongEdge
    &&& g.nodes@[n as int].ports@.contains(q)
}

/// Ports `p` and `q` are joined by an edge or as siblings on a long-edge
/// dummy.
pub open spec fn joined(g: &LGraph, p: usize, q: usize) -> bool {
    ||| exists|e: int| 0 <= e < g.edges@.len() && #[trigger] edge_joins(g, e, p, q)
    ||| siblings(g, p, q)
}

/// The `i`th step of the port sequence joins two ports.
pub open spec fn step_joined(g: &LGraph, s: Seq<usize>, i: int) -> bool {
    joined(g, s[i], s[i + 1])
}

/// A nonempty sequence of ports in which each two consecutive ports are
/// joined.
pub open spec fn is_walk(g: &LGraph, s: Seq<usize>) -> bool {
    &&& s.len() > 0
    &&& forall|i: int| 0 <= i < s.len() - 1 ==> #[trigger] step_joined(g, s, i)
}

/// Some walk leads from `p` to `q`.
pub open spec fn connected(g: &LGraph, p: usize, q: usize) -> bool {
    exists|s: Seq<usize>| #[trigger] is_walk(g, s) && s[0] == p && s.last() == q
}

/// Every port joined to `p` has an entry with the same component as `p`.
pub open spec fn closed_at(g: &LGraph, m: Map<usize, i32>, p: usize) -> bool {
    forall|q: usize| #[trigger] joined(g, p, q) ==> m.contains_key(q) && m[q] == m[p]
}

/// The labelling so far: every labelled port is a port of the graph whose
/// label names a component that was started at a port connected to it, and
/// every port joined to a labelled port has the same label.
pub open spec fn labels_ok(g: &LGraph, m: Map<usize, i32>, roots: Seq<usize>) -> bool {
    &&& m.dom().finite()
    &&& m.dom().len() >= roots.len()
    &&& forall|p: usize| #[trigger]
        m.contains_key(p) ==> {
            &&& p < g.ports@.len()
            &&& 0 <= m[p] < roots.len()
            &&& connected(g, roots[m[p] as int], p)
            &&& closed_at(g, m, p)
        }
}

/// A port is connected to itself.
proof fn lemma_connected_refl(g: &LGraph, p: usize)
    ensures
        connected(g, p, p),
{
    let s = seq![p];
    assert(is_walk(g, s));
}

/// A walk from `p` to `q` continues to a port joined to `q`.
proof fn lemma_connected_extend(g: &LGraph, p: usize, q: usize, r: usize)
    requires
        connected(g, p, q),
        joined(g, q, r),
    ensures
        connected(g, p, r),
{
    let s = choose|s: Seq<usize>| #[trigger] is_walk(g, s) && s[0] == p && s.last() == q;
    let t = s.push(r);
    assert forall|i: int| 0 <= i < t.len() - 1 implies #[trigger] step_joined(g, t, i) by {
        if i < s.len() - 1 {
            assert(step_joined(g, s, i));
        }
    }
    assert(is_walk(g, t));
}

/// Being joined is symmetric in a graph whose ports are listed by their
/// nodes.
proof fn lemma_joined_sym(g: &LGraph, p: usize, q: usize)
    requires
        g.wf(),
        g.ports_listed(),
        joined(g, p, q),
    ensures
        joined(g, q, p),
        p < g.ports@.len(),
        q < g.ports@.len(),
{
    if exists|e: int| 0 <= e < g.edges@.len() && #[trigger] edge_joins(g, e, p, q) {
        let e = choose|e: int| 0 <= e < g.edges@.len() && #[trigger] edge_joins(g, e, p, q);
        assert(g.edges@[e].source < g.ports@.len());
        assert(edge_joins(g, e, q, p));
    } else {
        let n = g.ports@[p as int].node.unwrap();
        assert(g.ports@[p as int].node matches Some(k) ==> k < g.nodes@.len());
        let j = choose|j: int| 0 <= j < g.nodes@[n as int].ports@.len() && g.nodes@[n as int].ports@[j] == q;
        assert(g.nodes@[n as int].ports@[j] < g.ports@.len());
        assert(g.ports@[q as int].node == Some(n));
        assert(siblings(g, q, p));
    }
}

/// Connectivity is symmetric.
proof fn lemma_connected_sym(g: &LGraph, p: usize, q: usize)
    requires
        g.wf(),
        g.ports_listed(),
        connected(g, p, q),
    ensures
        connected(g, q, p),
{
    let s = choose|s: Seq<usize>| #[trigger] is_walk(g, s) && s[0] == p && s.last() == q;
    let t = s.reverse();
    assert forall|i: int| 0 <= i < t.len() - 1 implies #[trigger] step_joined(g, t, i) by {
        let k = s.len() - 2 - i;
        assert(step_joined(g, s, k));
        lemma_joined_sym(g, s[k], s[k + 1]);
    }
    assert(is_walk(g, t));
}

/// Connectivity is transitive.
proof fn lemma_connected_trans(g: &LGraph, p: usize, q: usize, r: usize)
    requires
        connected(g, p, q),
        connected(g, q, r),
    ensures
        connected(g, p, r),
{
    let s = choose|s: Seq<usize>| #[trigger] is_walk(g, s) && s[0] == p && s.last() == q;
    let u = choose|u: Seq<usize>| #[trigger] is_walk(g, u) && u[0] == q && u.last() == r;
    let t = s + u.drop_first();
    assert forall|i: int| 0 <= i < t.len() - 1 implies #[trigger] step_joined(g, t, i) by {
        if i < s.len() - 1 {
            assert(step_joined(g, s, i));
        } else {
            let k = i - (s.len() - 1);
            assert(step_joined(g, u, k));
            if k == 0 {
                assert(t[i] == q);
            } else {
                assert(t[i] == u[k]);
            }
            assert(t[i + 1] == u[k + 1]);
        }
    }
    assert(is_walk(g, t));
    if u.len() == 1 {
        assert(t.last() == s.last());
    }
}

/// In a labelling closed at every labelled port, the ports along a walk
/// from a labelled port are labelled alike.
proof fn lemma_closed_walk(g: &LGraph, m: Map<usize, i32>, s: Seq<usize>)
    requires
        is_walk(g, s),
        m.contains_key(s[0]),
        forall|p: usize| #[trigger] m.contains_key(p) ==> closed_at(g, m, p),
    ensures
        m.contains_key(s.last()),
        m[s.last()] == m[s[0]],
    decreases s.len(),
{
    if s.len() > 1 {
        let t = s.drop_last();
        assert forall|i: int| 0 <= i < t.len() - 1 implies #[trigger] step_joined(g, t, i) by {
            assert(step_joined(g, s, i));
        }
        lemma_closed_walk(g, m, t);
        assert(step_joined(g, s, s.len() - 2));
        assert(closed_at(g, m, t.last()));
    }
}

/// Two ports of one walk-connected pair get the same label, and ports with
/// the same label are connected: the labels are exactly the components.
pub proof fn lemma_labels_are_components(
    g: &LGraph,
    m: Map<usize, i32>,
    roots: Seq<usize>,
    p: usize,
    q: usize,
)
    requires
        g.wf(),
        g.ports_listed(),
        labels_ok(g, m, roots),
        m.contains_key(p),
    ensures
        connected(g, p, q) <==> (m.contains_key(q) && m[q] == m[p]),
{
    if connected(g, p, q) {
        let s = choose|s: Seq<usize>| #[trigger] is_walk(g, s) && s[0] == p && s.last() == q;
        lemma_closed_walk(g, m, s);
    }
    if m.contains_key(q) && m[q] == m[p] {
        let r = roots[m[p] as int];
        lemma_connected_sym(g, r, p);
        lemma_connected_trans(g, p, r, q);
    }
}

/// An element of `s` is still in `s.push(v)`.
proof fn lemma_push_keeps(s: Seq<usize>, v: usize, x: usize)
    requires
        s.contains(x),
    ensures
        s.push(v).contains(x),
{
    let j = choose|j: int| 0 <= j < s.len() && s[j] == x;
    assert(s.push(v)[j] == x);
}

/// The labelled ports are ports of the graph, so there are at most as many
/// labels as ports.
proof fn lemma_labels_bounded(g: &LGraph, m: Map<usize, i32>)
    requires
        g.ports@.len() <= usize::MAX,
        forall|p: usize| #[trigger] m.contains_key(p) ==> p < g.ports@.len(),
    ensures
        m.dom().finite(),
        m.dom().len() <= g.ports@.len(),
{
    let all = Set::<usize>::range(0, g.ports@.len() as usize);
    <usize as vstd::set_lib::FiniteRange>::range_properties(0, g.ports@.len() as usize);
    assert(m.dom().subset_of(all));
    vstd::set_lib::lemma_len_subset(m.dom(), all);
}

/// Labels with `component_id` every port connected to `start` that has no
/// label yet, by a depth-first search over joined ports.
fn mark_hyperedge_component(
    g: &LGraph,
    start: usize,
    component_id: i32,
    component_ids: &mut FxHashMap<usize, i32>,
    Ghost(roots): Ghost<Seq<usize>>,
)
    requires
        g.wf(),
        g.ports_listed(),
        start < g.ports@.len(),
        !old(component_ids)@.contains_key(start),
        labels_ok(g, old(component_ids)@, roots),
        roots.len() == component_id,
    ensures
        labels_ok(g, final(component_ids)@, roots.push(start)),
        final(component_ids)@.contains_key(start),
        final(component_ids)@[start] == component_id,
        forall|p: usize| #[trigger]
            old(component_ids)@.contains_key(p) ==> final(component_ids)@.contains_key(p)
                && final(component_ids)@[p] == old(component_ids)@[p],
        final(component_ids)@.dom().len() >= old(component_ids)@.dom().len() + 1,
{
    let ghost m0 = component_ids@;
    let ghost rs = roots.push(start);
    let mut stack: Vec<usize> = Vec::new();
    stack.push(start);
    let np = g.ports.len();
    assert(stack@[0] == start);
    proof {
        lemma_connected_refl(g, start);
        lemma_labels_bounded(g, m0);
    }
    while stack.len() > 0
        invariant
            g.wf(),
            g.ports_listed(),
            start < g.ports@.len(),
            np == g.ports@.len(),
            !m0.contains_key(start),
            labels_ok(g, m0, roots),
            rs == roots.push(start),
            roots.len() == component_id,
            component_ids@.dom().finite(),
            component_ids@.dom().len() <= g.ports@.len(),
            component_ids@.dom().len() >= m0.dom().len(),
            component_ids@.contains_key(start) || stack@.contains(start),
            forall|p: usize| #[trigger]
                m0.contains_key(p) ==> component_ids@.contains_key(p) && component_ids@[p]
                    == m0[p],
            forall|p: usize| #[trigger]
                component_ids@.contains_key(p) ==> p < g.ports@.len() && (m0.contains_key(p) || (
                component_ids@[p] == component_id && connected(g, start, p))),
            forall|p: usize, q: usize|
                component_ids@.contains_key(p) && !m0.contains_key(p) && #[trigger] joined(g, p, q)
                    ==> component_ids@.contains_key(q) || stack@.contains(q),
            forall|i: int| 0 <= i < stack@.len() ==> #[trigger] stack@[i] < g.ports@.len()
                && connected(g, start, stack@[i]),
        decreases g.ports@.len() - component_ids@.dom().len(), stack@.len(),
    {
        let ghost before = stack@;
        let port = stack.pop().unwrap();
        assert(before == stack@.push(port));
        assert(port == before[before.len() - 1]);
        assert forall|q: usize| before.contains(q) implies stack@.contains(q) || q == port by {
            let j = choose|j: int| 0 <= j < before.len() && before[j] == q;
            if j < before.len() - 1 {
                assert(stack@[j] == q);
            }
        }
        if component_contains(component_ids, port) {
            continue;
        }
        let ghost m1 = component_ids@;
        component_insert(component_ids, port, component_id);
        proof {
            lemma_labels_bounded(g, component_ids@);
            assert(component_ids@.dom() == m1.dom().insert(port));
        }
        let ghost st0 = stack@;
        let mut e: usize = 0;
        while e < g.edges.len()
            invariant
                g.wf(),
                g.ports_listed(),
                port < g.ports@.len(),
                connected(g, start, port),
                e <= g.edges@.len(),
                forall|f: int, q: usize|
                    0 <= f < e && #[trigger] edge_joins(g, f, port, q) ==> component_ids@.contains_key(q)
                        || stack@.contains(q),
                forall|q: usize| #[trigger] st0.contains(q) ==> stack@.contains(q),
                forall|i: int| 0 <= i < stack@.len() ==> #[trigger] stack@[i] < g.ports@.len()
                    && connected(g, start, stack@[i]),
            decreases g.edges@.len() - e,
        {
            assert(g.edges@[e as int].source < g.ports@.len());
            let src = g.edges[e].source;
            let tgt = g.edges[e].target;
            let ghost s0 = stack@;
            if tgt == port && !component_contains(component_ids, src) {
                proof {
                    assert(edge_joins(g, e as int, port, src));
                    lemma_connected_extend(g, start, port, src);
                }
                stack.push(src);
            }
            let ghost s1 = stack@;
            if src == port && !component_contains(component_ids, tgt) {
                proof {
                    assert(edge_joins(g, e as int, port, tgt));
                    lemma_connected_extend(g, start, port, tgt);
                }
                stack.push(tgt);
            }
            proof {
                assert forall|q: usize| #[trigger] s0.contains(q) implies stack@.contains(q) by {
                    if s1 != s0 {
                        lemma_push_keeps(s0, src, q);
                    }
                    if stack@ != s1 {
                        lemma_push_keeps(s1, tgt, q);
                    }
                }
                assert forall|q: usize| #[trigger] s1.contains(q) implies stack@.contains(q) by {
                    if stack@ != s1 {
                        lemma_push_keeps(s1, tgt, q);
                    }
                }
                if s1 != s0 {
                    assert(s1[s1.len() - 1] == src);
                }
                if stack@ != s1 {
                    assert(stack@[stack@.len() - 1] == tgt);
                }
            }
            e += 1;
        }
        let ghost st1 = stack@;
        let pn = g.ports[port].node;
        assert(g.ports@[port as int].node matches Some(k) ==> k < g.nodes@.len());
        match pn {
            Some(n) => {
                if g.nodes[n].node_type == NodeType::LongEdge {
                    let mut i: usize = 0;
                    while i < g.nodes[n].ports.len()
                        invariant
                            g.wf(),
                            g.ports_listed(),
                            port < g.ports@.len(),
                            n < g.nodes@.len(),
                            g.ports@[port as int].node == Some(n),
                            g.nodes@[n as int].node_type == NodeType::LongEdge,
                            connected(g, start, port),
                            i <= g.nodes@[n as int].ports@.len(),
                            forall|j: int|
                                0 <= j < i && #[trigger] g.nodes@[n as int].ports@[j] != port
                                    ==> component_ids@.contains_key(g.nodes@[n as int].ports@[j])
                                    || stack@.contains(g.nodes@[n as int].ports@[j]),
                            forall|q: usize| #[trigger] st1.contains(q) ==> stack@.contains(q),
                            forall|k: int| 0 <= k < stack@.len() ==> #[trigger] stack@[k] < g.ports@.len()
                                && connected(g, start, stack@[k]),
                        decreases g.nodes@[n as int].ports@.len() - i,
                    {
                        let sibling = g.nodes[n].ports[i];
                        let ghost s0 = stack@;
                        if sibling != port && !component_contains(component_ids, sibling) {
                            proof {
                                assert(g.nodes@[n as int].ports@.contains(sibling));
                                assert(siblings(g, port, sibling));
                                lemma_connected_extend(g, start, port, sibling);
                            }
                            stack.push(sibling);
                            proof {
                                assert forall|q: usize| #[trigger] s0.contains(q) implies stack@.contains(q) by {
                                    lemma_push_keeps(s0, sibling, q);
                                }
                                assert(stack@[stack@.len() - 1] == sibling);
                            }
                        }
                        i += 1;
                    }
                }
            },
            None => {},
        }
        proof {
            assert forall|q: usize| #[trigger] joined(g, port, q) implies component_ids@.contains_key(q)
                || stack@.contains(q) by {
                if exists|f: int| 0 <= f < g.edges@.len() && #[trigger] edge_joins(g, f, port, q) {
                    let f = choose|f: int| 0 <= f < g.edges@.len() && #[trigger] edge_joins(g, f, port, q);
                    assert(edge_joins(g, f, port, q));
                } else {
                    assert(siblings(g, port, q));
                    let n = g.ports@[port as int].node.unwrap();
                    let j = choose|j: int| 0 <= j < g.nodes@[n as int].ports@.len() && g.nodes@[n as int].ports@[j] == q;
                    assert(q == g.nodes@[n as int].ports@[j]);
                }
            }
        }
    }
    proof {
        assert forall|p: usize| #[trigger] component_ids@.contains_key(p) implies {
            &&& p < g.ports@.len()
            &&& 0 <= component_ids@[p] < rs.len()
            &&& connected(g, rs[component_ids@[p] as int], p)
            &&& closed_at(g, component_ids@, p)
        } by {
            if m0.contains_key(p) {
                assert(closed_at(g, m0, p));
                assert forall|q: usize| #[trigger] joined(g, p, q) implies component_ids@.contains_key(q)
                    && component_ids@[q] == component_ids@[p] by {
                    assert(m0.contains_key(q));
                }
            } else {
                assert forall|q: usize| #[trigger] joined(g, p, q) implies component_ids@.contains_key(q)
                    && component_ids@[q] == component_ids@[p] by {
                    assert(stack@.len() == 0);
                    assert(component_ids@.contains_key(q) || stack@.contains(q));
                    if m0.contains_key(q) {
                        lemma_joined_sym(g, p, q);
                        assert(closed_at(g, m0, q));
                        assert(m0.contains_key(p));
                    }
                }
            }
        }
        assert(stack@.len() == 0 ==> !stack@.contains(start));
        assert(m0.dom().insert(start).subset_of(component_ids@.dom()));
        vstd::set_lib::lemma_len_subset(m0.dom().insert(start), component_ids@.dom());
    }
}

/// The ports of the nodes of the list, node by node.
pub open spec fn ports_of_nodes(g: &LGraph, ns: Seq<usize>) -> Seq<usize>
    decreases ns.len(),
{
    if ns.len() == 0 {
        Seq::empty()
    } else {
        ports_of_nodes(g, ns.drop_last()) + g.nodes@[ns.last() as int].ports@
    }
}

/// The ports of the nodes in the layers, layer by layer and node by node.
pub open spec fn layer_port_seq(g: &LGraph) -> Seq<usize> {
    ports_of_nodes(g, layer_nodes_before(g, g.layers@.len() as int))
}

/// Port `p` is connected to none of the roots.
pub open spec fn new_root(g: &LGraph, roots: Seq<usize>, p: usize) -> bool {
    forall|j: int| 0 <= j < roots.len() ==> !connected(g, #[trigger] roots[j], p)
}

/// The ports of the list that start a component: each port connected to
/// none of the ports before it that do, in order.
pub open spec fn first_roots(g: &LGraph, ps: Seq<usize>) -> Seq<usize>
    decreases ps.len(),
{
    if ps.len() == 0 {
        Seq::empty()
    } else {
        let prev = first_roots(g, ps.drop_last());
        if new_root(g, prev, ps.last()) {
            prev.push(ps.last())
        } else {
            prev
        }
    }
}

/// Port `j` of node `i` of layer `l`.
pub open spec fn layer_port(g: &LGraph, l: int, i: int, j: int) -> usize {
    g.nodes@[g.layers@[l]@[i] as int].ports@[j]
}

/// Port `j` of node `i` of layer `l` exists.
pub open spec fn is_layer_port_at(g: &LGraph, l: int, i: int, j: int) -> bool {
    &&& 0 <= l < g.layers@.len()
    &&& 0 <= i < g.layers@[l]@.len()
    &&& 0 <= j < g.nodes@[g.layers@[l]@[i] as int].ports@.len()
}

/// `p` is a port of a node that lies in a layer.
pub open spec fn is_layer_port(g: &LGraph, p: usize) -> bool {
    exists|l: int, i: int, j: int| is_layer_port_at(g, l, i, j) && #[trigger] layer_port(g, l, i, j) == p
}

/// The ports of the nodes in the layers, layer by layer and node by node.
fn collect_layer_ports(g: &LGraph) -> (res: Vec<usize>)
    requires
        g.wf(),
    ensures
        forall|k: int| 0 <= k < res@.len() ==> #[trigger] is_layer_port(g, res@[k]),
        forall|k: int| 0 <= k < res@.len() ==> #[trigger] res@[k] < g.ports@.len(),
        forall|l: int, i: int, j: int|
            is_layer_port_at(g, l, i, j) ==> res@.contains(#[trigger] layer_port(g, l, i, j)),
        res@ == layer_port_seq(g),
{
    let mut res: Vec<usize> = Vec::new();
    let mut l: usize = 0;
    while l < g.layers.len()
        invariant
            g.wf(),
            l <= g.layers@.len(),
            forall|k: int| 0 <= k < res@.len() ==> #[trigger] is_layer_port(g, res@[k]),
            forall|k: int| 0 <= k < res@.len() ==> #[trigger] res@[k] < g.ports@.len(),
            forall|l2: int, i: int, j: int|
                is_layer_port_at(g, l2, i, j) && l2 < l ==> res@.contains(
                    #[trigger] layer_port(g, l2, i, j),
                ),
            res@ == ports_of_nodes(g, layer_nodes_before(g, l as int)),
        decreases g.layers@.len() - l,
    {
        let mut i: usize = 0;
        assert(g.layers@[l as int]@.take(0) == Seq::<usize>::empty());
        assert(layer_nodes_before(g, l as int) + Seq::<usize>::empty() == layer_nodes_before(g, l as int));
        while i < g.layers[l].len()
            invariant
                g.wf(),
                l < g.layers@.len(),
                i <= g.layers@[l as int]@.len(),
                forall|k: int| 0 <= k < res@.len() ==> #[trigger] is_layer_port(g, res@[k]),
                forall|k: int| 0 <= k < res@.len() ==> #[trigger] res@[k] < g.ports@.len(),
                forall|l2: int, i2: int, j: int|
                    is_layer_port_at(g, l2, i2, j) && (l2 < l || (l2 == l && i2 < i))
                        ==> res@.contains(#[trigger] layer_port(g, l2, i2, j)),
                res@ == ports_of_nodes(g, layer_nodes_before(g, l as int) + g.layers@[l as int]@.take(i as int)),
            decreases g.layers@[l as int]@.len() - i,
        {
            let n = g.layers[l][i];
            assert(g.layers@[l as int]@[i as int] < g.nodes@.len());
            let mut j: usize = 0;
            assert(g.nodes@[n as int].ports@.take(0) == Seq::<usize>::empty());
            while j < g.nodes[n].ports.len()
                invariant
                    g.wf(),
                    l < g.layers@.len(),
                    i < g.layers@[l as int]@.len(),
                    n == g.layers@[l as int]@[i as int],
                    n < g.nodes@.len(),
                    j <= g.nodes@[n as int].ports@.len(),
                    forall|k: int| 0 <= k < res@.len() ==> #[trigger] is_layer_port(g, res@[k]),
                    forall|k: int| 0 <= k < res@.len() ==> #[trigger] res@[k] < g.ports@.len(),
                    forall|l2: int, i2: int, j2: int|
                        is_layer_port_at(g, l2, i2, j2) && (l2 < l || (l2 == l && (i2 < i || (i2
                            == i && j2 < j)))) ==> res@.contains(#[trigger] layer_port(g, l2, i2, j2)),
                    res@ == ports_of_nodes(g, layer_nodes_before(g, l as int) + g.layers@[l as int]@.take(i as int))
                        + g.nodes@[n as int].ports@.take(j as int),
                decreases g.nodes@[n as int].ports@.len() - j,
            {
                let p = g.nodes[n].ports[j];
                let ghost r0 = res@;
                assert(layer_port(g, l as int, i as int, j as int) == p);
                assert(is_layer_port_at(g, l as int, i as int, j as int));
                assert(g.nodes@[n as int].ports@[j as int] < g.ports@.len());
                res.push(p);
                assert(res@[r0.len() as int] == p);
                assert forall|x: usize| r0.contains(x) implies res@.contains(x) by {
                    lemma_push_keeps(r0, p, x);
                }
                assert(g.nodes@[n as int].ports@.take(j as int + 1) == g.nodes@[n as int].ports@.take(j as int).push(p));
                j += 1;
            }
            proof {
                let before = layer_nodes_before(g, l as int) + g.layers@[l as int]@.take(i as int);
                let after = layer_nodes_before(g, l as int) + g.layers@[l as int]@.take(i as int + 1);
                assert(g.layers@[l as int]@.take(i as int + 1) == g.layers@[l as int]@.take(i as int).push(n));
                assert(after == before.push(n));
                assert(after.drop_last() == before);
                assert(g.nodes@[n as int].ports@.take(j as int) == g.nodes@[n as int].ports@);
            }
            i += 1;
        }
        proof {
            assert(g.layers@[l as int]@.take(i as int) == g.layers@[l as int]@);
            assert(layer_nodes_before(g, l as int + 1) == layer_nodes_before(g, l as int) + g.layers@[l as int]@);
        }
        l += 1;
    }
    res
}

/// Labels the ports by the component they lie in: each port of a node in a
/// layer, and each port connected to one, gets the label of its component.
/// The components are numbered from 0 in the order in which their first
/// port is met among the ports of the layers (see `first_roots`).
pub fn identify_hyperedges(g: &LGraph) -> (m: FxHashMap<usize, i32>)
    requires
        g.wf(),
        g.ports_listed(),
        g.ports@.len() <= i32::MAX,
    ensures
        forall|p: usize, q: usize|
            #[trigger] m@.contains_key(p) && #[trigger] connected(g, p, q) ==> m@.contains_key(q)
                && m@[q] == m@[p],
        forall|p: usize, q: usize|
            #[trigger] m@.contains_key(p) && #[trigger] m@.contains_key(q) && m@[q] == m@[p]
                ==> connected(g, p, q),
        forall|p: usize| is_layer_port(g, p) ==> #[trigger] m@.contains_key(p),
        forall|p: usize| #[trigger]
            m@.contains_key(p) ==> exists|r: usize| is_layer_port(g, r) && #[trigger] connected(
                g,
                r,
                p,
            ),
        forall|p: usize| #[trigger]
            m@.contains_key(p) ==> 0 <= m@[p] < first_roots(g, layer_port_seq(g)).len() && connected(
                g,
                first_roots(g, layer_port_seq(g))[m@[p] as int],
                p,
            ),
{
    let ports = collect_layer_ports(g);
    let mut component_ids: FxHashMap<usize, i32> = FxHashMap::default();
    let ghost mut roots: Seq<usize> = Seq::empty();
    let mut next_id: i32 = 0;
    let np = g.ports.len();
    let mut k: usize = 0;
    while k < ports.len()
        invariant
            g.wf(),
            g.ports_listed(),
            np == g.ports@.len(),
            g.ports@.len() <= i32::MAX,
            forall|x: int| 0 <= x < ports@.len() ==> #[trigger] is_layer_port(g, ports@[x]),
            forall|x: int| 0 <= x < ports@.len() ==> #[trigger] ports@[x] < g.ports@.len(),
            k <= ports@.len(),
            labels_ok(g, component_ids@, roots),
            next_id == roots.len(),
            component_ids@.dom().len() <= g.ports@.len(),
            forall|r: int| 0 <= r < roots.len() ==> #[trigger] is_layer_port(g, roots[r]),
            forall|x: int| 0 <= x < k ==> #[trigger] component_ids@.contains_key(ports@[x]),
            ports@ == layer_port_seq(g),
            roots == first_roots(g, ports@.take(k as int)),
            forall|j: int| 0 <= j < roots.len() ==> #[trigger] component_ids@.contains_key(roots[j]),
        decreases ports@.len() - k,
    {
        let p = ports[k];
        proof {
            let t = ports@.take(k as int + 1);
            assert(t.drop_last() == ports@.take(k as int));
            assert(t.last() == p);
            if component_ids@.contains_key(p) {
                assert(!new_root(g, roots, p)) by {
                    let j = component_ids@[p] as int;
                    assert(connected(g, roots[j], p));
                }
            } else {
                assert forall|j: int| 0 <= j < roots.len() implies !connected(g, #[trigger] roots[j], p) by {
                    if connected(g, roots[j], p) {
                        lemma_labels_are_components(g, component_ids@, roots, roots[j], p);
                    }
                }
            }
        }
        if !component_contains(&component_ids, p) {
            let ghost m0 = component_ids@;
            mark_hyperedge_component(g, p, next_id, &mut component_ids, Ghost(roots));
            proof {
                lemma_labels_bounded(g, component_ids@);
                assert forall|x: int| 0 <= x < k implies #[trigger] component_ids@.contains_key(ports@[x]) by {
                    assert(m0.contains_key(ports@[x]));
                }
                assert(is_layer_port(g, ports@[k as int]));
                let r0 = roots;
                roots = roots.push(p);
                assert forall|j: int| 0 <= j < roots.len() implies #[trigger] component_ids@.contains_key(roots[j]) by {
                    if j < r0.len() {
                        assert(roots[j] == r0[j]);
                        assert(m0.contains_key(r0[j]));
                    }
                }
            }
            next_id = next_id + 1;
        }
        k += 1;
    }
    proof {
        assert(ports@.take(ports@.len() as int) == ports@);
        assert forall|p: usize| #[trigger] component_ids@.contains_key(p) implies 0 <= component_ids@[p] < first_roots(
            g,
            layer_port_seq(g),
        ).len() && connected(g, first_roots(g, layer_port_seq(g))[component_ids@[p] as int], p) by {}
        assert forall|p: usize, q: usize|
            #[trigger] component_ids@.contains_key(p) && #[trigger] connected(g, p, q) implies component_ids@.contains_key(q)
                && component_ids@[q] == component_ids@[p] by {
            lemma_labels_are_components(g, component_ids@, roots, p, q);
        }
        assert forall|p: usize, q: usize|
            #[trigger] component_ids@.contains_key(p) && #[trigger] component_ids@.contains_key(q)
                && component_ids@[q] == component_ids@[p] implies connected(g, p, q) by {
            lemma_labels_are_components(g, component_ids@, roots, p, q);
        }
        assert forall|p: usize| is_layer_port(g, p) implies #[trigger] component_ids@.contains_key(p) by {
            let (l, i, j) = choose|l: int, i: int, j: int| is_layer_port_at(g, l, i, j) && #[trigger] layer_port(g, l, i, j) == p;
            assert(ports@.contains(layer_port(g, l, i, j)));
            let x = choose|x: int| 0 <= x < ports@.len() && ports@[x] == p;
            assert(component_ids@.contains_key(ports@[x]));
        }
        assert forall|p: usize| #[trigger] component_ids@.contains_key(p) implies exists|r: usize|
            is_layer_port(g, r) && #[trigger] connected(g, r, p) by {
            let r = roots[component_ids@[p] as int];
            assert(is_layer_port(g, r));
            assert(connected(g, r, p));
        }
    }
    component_ids
}

/// Whether two neighbouring long-edge dummies may be merged, and whether they
/// share their long edge's source and target port.
#[derive(Clone, Copy, Debug, PartialEq, Eq, Structural)]
pub struct MergeState {
    pub allow_merge: bool,
    pub same_source: bool,
    pub same_target: bool,
}

/// An optional flag, false when unset.
pub open spec fn flag(b: Option<bool>) -> bool {
    match b {
        Some(v) => v,
        None => false,
    }
}

/// Both ports are set and are the same port.
pub open spec fn same_port(a: Option<usize>, b: Option<usize>) -> bool {
    a matches Some(x) && b matches Some(y) && x == y
}

/// Both nodes have a first port and the two first ports carry the same
/// hyperedge label.
pub open spec fn first_ports_share_label(g: &LGraph, curr: int, last: int, ids: Map<usize, i32>) -> bool {
    &&& g.nodes@[curr].ports@.len() > 0
    &&& g.nodes@[last].ports@.len() > 0
    &&& ids.contains_key(g.nodes@[curr].ports@[0])
    &&& ids.contains_key(g.nodes@[last].ports@[0])
    &&& ids[g.nodes@[curr].ports@[0]] == ids[g.nodes@[last].ports@[0]]
}

/// The merge decision for long-edge dummy `curr` and its upper neighbour
/// `last`: without label dummies on either long edge they merge when their
/// first ports lie in one hyperedge; otherwise when they share the source
/// and both lie before their label dummies, or share the target and both lie
/// after them.
pub open spec fn spec_check_merge_allowed(
    g: &LGraph,
    curr: int,
    last: int,
    ids: Map<usize, i32>,
) -> MergeState {
    let c = g.nodes@[curr];
    let l = g.nodes@[last];
    let curr_has = flag(c.long_edge_has_label_dummies);
    let last_has = flag(l.long_edge_has_label_dummies);
    let same_source = same_port(c.long_edge_source, l.long_edge_source);
    let same_target = same_port(c.long_edge_target, l.long_edge_target);
    if !curr_has && !last_has {
        MergeState {
            allow_merge: first_ports_share_label(g, curr, last, ids),
            same_source,
            same_target,
        }
    } else {
        let curr_before = flag(c.long_edge_before_label_dummy);
        let last_before = flag(l.long_edge_before_label_dummy);
        let source_ok = (!curr_has || curr_before) && (!last_has || last_before);
        let target_ok = (!curr_has || !curr_before) && (!last_has || !last_before);
        MergeState {
            allow_merge: (same_source && source_ok) || (same_target && target_ok),
            same_source,
            same_target,
        }
    }
}

/// Two ports are both set and the same port.
fn same_port_exec(a: Option<usize>, b: Option<usize>) -> (res: bool)
    ensures
        res == same_port(a, b),
{
    match (a, b) {
        (Some(x), Some(y)) => x == y,
        _ => false,
    }
}

/// Whether the long-edge dummy `curr` may be merged into its upper
/// neighbour `last`, given the hyperedge label of each port.
pub fn check_merge_allowed(
    g: &LGraph,
    curr_node: usize,
    last_node: usize,
    hyperedge_ids: &FxHashMap<usize, i32>,
) -> (res: MergeState)
    requires
        curr_node < g.nodes@.len(),
        last_node < g.nodes@.len(),
    ensures
        res == spec_check_merge_allowed(g, curr_node as int, last_node as int, hyperedge_ids@),
{
    let c = &g.nodes[curr_node];
    let l = &g.nodes[last_node];
    let curr_has = match c.long_edge_has_label_dummies {
        Some(v) => v,
        None => false,
    };
    let last_has = match l.long_edge_has_label_dummies {
        Some(v) => v,
        None => false,
    };
    let same_source = same_port_exec(c.long_edge_source, l.long_edge_source);
    let same_target = same_port_exec(c.long_edge_target, l.long_edge_target);
    if !curr_has && !last_has {
        let allow_merge = if c.ports.len() > 0 && l.ports.len() > 0 {
            let curr_id = component_get(hyperedge_ids, c.ports[0]);
            let last_id = component_get(hyperedge_ids, l.ports[0]);
            match (curr_id, last_id) {
                (Some(a), Some(b)) => a == b,
                _ => false,
            }
        } else {
            false
        };
        return MergeState { allow_merge, same_source, same_target };
    }
    let curr_before = match c.long_edge_before_label_dummy {
        Some(v) => v,
        None => false,
    };
    let last_before = match l.long_edge_before_label_dummy {
        Some(v) => v,
        None => false,
    };
    let source_ok = (!curr_has || curr_before) && (!last_has || last_before);
    let target_ok = (!curr_has || !curr_before) && (!last_has || !last_before);
    MergeState {
        allow_merge: (same_source && source_ok) || (same_target && target_ok),
        same_source,
        same_target,
    }
}

/// The edge after the edges of the merged node were moved: an end at one of
/// `from` moves to `inp` (a target) or `out` (a source).
pub open spec fn moved_edge(e: LEdge, from: Seq<usize>, inp: usize, out: usize) -> LEdge {
    LEdge {
        source: if from.contains(e.source) {
            out
        } else {
            e.source
        },
        target: if from.contains(e.target) {
            inp
        } else {
            e.target
        },
        reversed: e.reversed,
    }
}

/// Two nodes agree on everything but the ends of their long edge.
pub open spec fn same_but_long_edge_ends(a: LNode, b: LNode) -> bool {
    &&& a.node_type == b.node_type
    &&& a.ports == b.ports
    &&& a.layer == b.layer
    &&& a.id == b.id
    &&& a.layer_constraint == b.layer_constraint
    &&& a.in_layer_constraint == b.in_layer_constraint
    &&& a.edge_constraint == b.edge_constraint
    &&& a.port_constraints == b.port_constraints
    &&& a.origin == b.origin
    &&& a.in_layer_layout_unit == b.in_layer_layout_unit
    &&& a.in_layer_successor_constraints == b.in_layer_successor_constraints
    &&& a.ext_port_side == b.ext_port_side
    &&& a.layer_id == b.layer_id
    &&& a.position_id == b.position_id
    &&& a.long_edge_has_label_dummies == b.long_edge_has_label_dummies
    &&& a.long_edge_before_label_dummy == b.long_edge_before_label_dummy
    &&& a.layer_split == b.layer_split
    &&& a.reset_on_long_edges == b.reset_on_long_edges
    &&& a.minimize_edge_length == b.minimize_edge_length
    &&& a.breaking_point_info == b.breaking_point_info
    &&& a.comment_box == b.comment_box
    &&& a.comment_conn_port == b.comment_conn_port
    &&& a.alignment == b.alignment
    &&& a.label_placement == b.label_placement
    &&& a.ext_port_replaced_dummy == b.ext_port_replaced_dummy
    &&& a.represented_labels == b.represented_labels
}

/// `new` is `old` after the long-edge dummy `source` was merged into
/// `target`: nothing changes when `target` lacks a western or an eastern
/// port; otherwise the edges at `source`'s ports move to `target`'s first
/// western port (incoming) and first eastern port (outgoing), and `target`
/// forgets the long edge's source and target ports unless they are kept.
pub open spec fn merged(
    old: &LGraph,
    new: &LGraph,
    source: int,
    target: int,
    keep_source_port: bool,
    keep_target_port: bool,
) -> bool {
    let west = old.ports_on_side(target, PortSide::West);
    let east = old.ports_on_side(target, PortSide::East);
    if west.len() == 0 || east.len() == 0 {
        new.nodes == old.nodes && new.edges == old.edges
    } else {
        &&& new.edges@.len() == old.edges@.len()
        &&& forall|e: int|
            0 <= e < old.edges@.len() ==> #[trigger] new.edges@[e] == moved_edge(
                old.edges@[e],
                old.nodes@[source].ports@,
                west[0],
                east[0],
            )
        &&& new.nodes@.len() == old.nodes@.len()
        &&& forall|n: int| 0 <= n < old.nodes@.len() && n != target ==> #[trigger] new.nodes@[n] == old.nodes@[n]
        &&& same_but_long_edge_ends(new.nodes@[target], old.nodes@[target])
        &&& new.nodes@[target].long_edge_source == if keep_source_port {
            old.nodes@[target].long_edge_source
        } else {
            None
        }
        &&& new.nodes@[target].long_edge_target == if keep_target_port {
            old.nodes@[target].long_edge_target
        } else {
            None
        }
    }
}

/// Whether the list holds the value.
fn list_contains(v: &Vec<usize>, x: usize) -> (res: bool)
    ensures
        res == v@.contains(x),
{
    let mut i: usize = 0;
    while i < v.len()
        invariant
            i <= v@.len(),
            forall|j: int| 0 <= j < i ==> v@[j] != x,
        decreases v@.len() - i,
    {
        if v[i] == x {
            assert(v@[i as int] == x);
            return true;
        }
        i += 1;
    }
    false
}

/// Merges the long-edge dummy `merge_source` into `merge_target`: the edges
/// of the source's ports move to the target's first western and eastern
/// ports, and the target forgets the long edge's ends unless kept.
#[verifier::spinoff_prover]
pub fn merge_nodes(
    g: &mut LGraph,
    merge_source: usize,
    merge_target: usize,
    keep_source_port: bool,
    keep_target_port: bool,
)
    requires
        old(g).wf(),
        merge_source < old(g).nodes@.len(),
        merge_target < old(g).nodes@.len(),
    ensures
        final(g).wf(),
        final(g).ports == old(g).ports,
        final(g).layers == old(g).layers,
        final(g).layerless_nodes == old(g).layerless_nodes,
        merged(
            old(g),
            final(g),
            merge_source as int,
            merge_target as int,
            keep_source_port,
            keep_target_port,
        ),
{
    let west = g.port_side_view(merge_target, PortSide::West);
    let east = g.port_side_view(merge_target, PortSide::East);
    if west.len() == 0 || east.len() == 0 {
        return;
    }
    let input_port = west[0];
    let output_port = east[0];
    let ghost g0 = *g;
    proof {
        let pred_w = |p: usize| g0.ports@[p as int].side == PortSide::West;
        let pred_e = |p: usize| g0.ports@[p as int].side == PortSide::East;
        assert(west@[0] == input_port);
        assert(west@.contains(input_port));
        assert(east@[0] == output_port);
        assert(east@.contains(output_port));
        g0.nodes@[merge_target as int].ports@.lemma_filter_contains_rev(pred_w, input_port);
        g0.nodes@[merge_target as int].ports@.lemma_filter_contains_rev(pred_e, output_port);
        assert(g0.nodes@[merge_target as int].ports@.contains(input_port));
        assert(g0.nodes@[merge_target as int].ports@.contains(output_port));
    }
    assert(input_port < g.ports@.len());
    assert(output_port < g.ports@.len());
    let from = copy_list(&g.nodes[merge_source].ports);
    let mut e: usize = 0;
    while e < g.edges.len()
        invariant
            g0.wf(),
            g.wf(),
            input_port < g.ports@.len(),
            output_port < g.ports@.len(),
            from@ == g0.nodes@[merge_source as int].ports@,
            g.nodes == g0.nodes,
            g.ports == g0.ports,
            g.layers == g0.layers,
            g.layerless_nodes == g0.layerless_nodes,
            g.edges@.len() == g0.edges@.len(),
            e <= g.edges@.len(),
            forall|f: int| 0 <= f < e ==> #[trigger] g.edges@[f] == moved_edge(
                g0.edges@[f],
                from@,
                input_port,
                output_port,
            ),
            forall|f: int| e <= f < g.edges@.len() ==> #[trigger] g.edges@[f] == g0.edges@[f],
        decreases g.edges@.len() - e,
    {
        let src = g.edges[e].source;
        let tgt = g.edges[e].target;
        if list_contains(&from, tgt) {
            g.edges[e].target = input_port;
        }
        if list_contains(&from, src) {
            g.edges[e].source = output_port;
        }
        assert(g.edges@[e as int].source < g.ports@.len() && g.edges@[e as int].target
            < g.ports@.len());
        assert forall|f: int| 0 <= f < g.edges@.len() implies #[trigger] g.edges@[f].source
            < g.ports@.len() && g.edges@[f].target < g.ports@.len() by {
            if f != e {
                assert(g0.edges@[f].source < g0.ports@.len());
            }
        }
        e += 1;
    }
    if !keep_source_port {
        g.nodes[merge_target].long_edge_source = None;
    }
    if !keep_target_port {
        g.nodes[merge_target].long_edge_target = None;
    }
    assert(forall|n: int, i: int|
        0 <= n < g.nodes@.len() && 0 <= i < g.nodes@[n].ports@.len() ==> #[trigger] g.nodes@[n].ports@[i]
            == g0.nodes@[n].ports@[i]);
}

/// `m` labels the components of the port graph of `g`: ports connected to a
/// labelled port carry its label, ports with one label are connected, every
/// port of a node in a layer is labelled, and each labelled port is
/// connected to such a port.
pub open spec fn component_labels(g: &LGraph, m: Map<usize, i32>) -> bool {
    &&& forall|p: usize, q: usize|
        #[trigger] m.contains_key(p) && #[trigger] connected(g, p, q) ==> m.contains_key(q) && m[q]
            == m[p]
    &&& forall|p: usize, q: usize|
        #[trigger] m.contains_key(p) && #[trigger] m.contains_key(q) && m[q] == m[p] ==> connected(
            g,
            p,
            q,
        )
    &&& forall|p: usize| is_layer_port(g, p) ==> #[trigger] m.contains_key(p)
    &&& forall|p: usize| #[trigger]
        m.contains_key(p) ==> exists|r: usize| is_layer_port(g, r) && #[trigger] connected(g, r, p)
}

/// `b` is `a` with node `n`, which stands at position `i` of layer `l`,
/// taken out of that layer.
pub open spec fn removed_from_layer(a: &LGraph, b: &LGraph, l: int, i: int, n: int) -> bool {
    &&& b.ports == a.ports
    &&& b.edges == a.edges
    &&& b.layerless_nodes == a.layerless_nodes
    &&& b.layers@.len() == a.layers@.len()
    &&& b.layers@[l]@ == a.layers@[l]@.remove(i)
    &&& forall|k: int| 0 <= k < a.layers@.len() && k != l ==> #[trigger] b.layers@[k] == a.layers@[k]
    &&& b.nodes@.len() == a.nodes@.len()
    &&& forall|m: int| 0 <= m < a.nodes@.len() && m != n ==> #[trigger] b.nodes@[m] == a.nodes@[m]
    &&& same_but_layer(b.nodes@[n], a.nodes@[n])
    &&& b.nodes@[n].layer is None
}

/// The scan at position `i` of layer `l`: when the node there and the one
/// above it are long-edge dummies that may merge, the node is merged into
/// the one above and taken out of the layer, and the scan stays at `i`;
/// otherwise nothing changes and the scan moves on.
pub open spec fn scan_step(
    ids: Map<usize, i32>,
    a: &LGraph,
    b: &LGraph,
    l: int,
    i: int,
    stays: bool,
) -> bool {
    let curr = a.layers@[l]@[i] as int;
    let last = a.layers@[l]@[i - 1] as int;
    let st = spec_check_merge_allowed(a, curr, last, ids);
    if a.nodes@[curr].node_type == NodeType::LongEdge && a.nodes@[last].node_type
        == NodeType::LongEdge && st.allow_merge {
        &&& stays
        &&& exists|mid: LGraph|
            merged(a, &mid, curr, last, st.same_source, st.same_target) && mid.ports == a.ports
                && mid.layers == a.layers && mid.layerless_nodes == a.layerless_nodes
                && removed_from_layer(&mid, b, l, i, curr)
    } else {
        &&& !stays
        &&& *b == *a
    }
}

/// One move of the scan from position `pa` in `a` to position `pb` in `b`:
/// inside a layer a scan step; past its end, on to the second position of
/// the next layer.
pub open spec fn scan_move(
    ids: Map<usize, i32>,
    a: &LGraph,
    b: &LGraph,
    pa: (int, int),
    pb: (int, int),
) -> bool {
    let (l, i) = pa;
    &&& 0 <= l < a.layers@.len()
    &&& 1 <= i
    &&& if i < a.layers@[l]@.len() {
        ||| scan_step(ids, a, b, l, i, true) && pb == (l, i)
        ||| scan_step(ids, a, b, l, i, false) && pb == (l, i + 1)
    } else {
        *b == *a && pb == (l + 1, 1int)
    }
}

/// A run of the scan: graphs and positions from the start, each reached
/// from the one before by a move.
pub open spec fn scan_run(ids: Map<usize, i32>, gs: Seq<LGraph>, ps: Seq<(int, int)>) -> bool {
    &&& gs.len() == ps.len()
    &&& gs.len() > 0
    &&& forall|k: int| 0 <= k < gs.len() - 1 ==> #[trigger] scan_move(ids, &gs[k], &gs[k + 1], ps[k], ps[k + 1])
}

/// Whether the node is a long-edge dummy.
fn is_long_edge_dummy(g: &LGraph, n: usize) -> (res: bool)
    requires
        n < g.nodes@.len(),
    ensures
        res == (g.nodes@[n as int].node_type == NodeType::LongEdge),
{
    g.nodes[n].node_type == NodeType::LongEdge
}

/// Takes node `n`, which stands at position `i` of layer `l`, out of the
/// layer.
pub fn remove_from_layer(g: &mut LGraph, l: usize, i: usize, n: usize)
    requires
        old(g).wf(),
        l < old(g).layers@.len(),
        i < old(g).layers@[l as int]@.len(),
        old(g).layers@[l as int]@[i as int] == n,
    ensures
        final(g).wf(),
        removed_from_layer(old(g), final(g), l as int, i as int, n as int),
{
    let ghost g0 = *g;
    let nl = g.layers.len();
    assert(n < g.nodes@.len());
    assert(g0.layers@[l as int]@[i as int] < g0.nodes@.len());
    assert(g0.nodes@[n as int].layer == Some(l));
    let mut layer = take_layer(g, l);
    layer.remove(i);
    g.layers[l] = layer;
    g.nodes[n].layer = None;
    proof {
        let ol = g0.layers@[l as int]@;
        assert forall|k: int, j: int|
            0 <= k < g.layers@.len() && 0 <= j < g.layers@[k]@.len() implies {
                &&& #[trigger] g.layers@[k]@[j] < g.nodes@.len()
                &&& g.nodes@[g.layers@[k]@[j] as int].layer == Some(k as usize)
            } by {
            if k == l {
                let j2 = if j < i { j } else { j + 1 };
                assert(g.layers@[k]@[j] == ol[j2]);
                assert(ol[j2] < g0.nodes@.len());
                assert(ol.no_duplicates());
                assert(ol[j2] != n);
            } else {
                assert(g0.layers@[k]@[j] < g0.nodes@.len());
                assert(g0.nodes@[g0.layers@[k]@[j] as int].layer == Some(k as usize));
                assert(g.layers@[k]@[j] != n);
            }
        }
        assert forall|k: int| 0 <= k < g.layers@.len() implies #[trigger] g.layers@[k]@.no_duplicates() by {
            if k == l {
                assert forall|a: int, b: int| 0 <= a < g.layers@[k]@.len() && 0 <= b < g.layers@[k]@.len() && a != b implies g.layers@[k]@[a] != g.layers@[k]@[b] by {
                    let a2 = if a < i { a } else { a + 1 };
                    let b2 = if b < i { b } else { b + 1 };
                    assert(ol.no_duplicates());
                    assert(g.layers@[k]@[a] == ol[a2] && g.layers@[k]@[b] == ol[b2]);
                }
            } else {
                assert(g0.layers@[k]@.no_duplicates());
            }
        }
        assert forall|m: int, j: int|
            0 <= m < g.nodes@.len() && 0 <= j < g.nodes@[m].ports@.len() implies {
                &&& #[trigger] g.nodes@[m].ports@[j] < g.ports@.len()
                &&& g.ports@[g.nodes@[m].ports@[j] as int].node == Some(m as usize)
            } by {
            assert(g.nodes@[m].ports@[j] == g0.nodes@[m].ports@[j]);
        }
        assert(g.layers@[l as int]@ == ol.remove(i as int));
    }
}

impl HyperedgeDummyMerger {
    /// Labels the hyperedges, then scans each layer from the top: whenever a
    /// long-edge dummy and the one above it may merge, the lower is merged
    /// into the upper and leaves the layer, and the scan looks at the same
    /// position again.
    pub fn process(&self, g: &mut LGraph)
        requires
            old(g).wf(),
            old(g).ports_listed(),
            old(g).ports@.len() <= i32::MAX,
        ensures
            final(g).wf(),
            exists|ids: Map<usize, i32>| {
                &&& component_labels(old(g), ids)
                &&& exists|gs: Seq<LGraph>, ps: Seq<(int, int)>| {
                    &&& scan_run(ids, gs, ps)
                    &&& gs[0] == *old(g)
                    &&& ps[0] == (0int, 1int)
                    &&& gs.last() == *final(g)
                    &&& ps.last().0 == old(g).layers@.len()
                }
            },
    {
        let ghost g0 = *g;
        let ids = identify_hyperedges(g);
        assert(component_labels(&g0, ids@));
        let ghost mut gs: Seq<LGraph> = seq![*g];
        let ghost mut ps: Seq<(int, int)> = seq![(0int, 1int)];
        let mut l: usize = 0;
        while l < g.layers.len()
            invariant
                g.wf(),
                g.layers@.len() == g0.layers@.len(),
                l <= g.layers@.len(),
                scan_run(ids@, gs, ps),
                gs[0] == g0,
                ps[0] == (0int, 1int),
                gs.last() == *g,
                ps.last() == (l as int, 1int),
            decreases g.layers@.len() - l,
        {
            let mut i: usize = 1;
            while i < g.layers[l].len()
                invariant
                    g.wf(),
                    g.layers@.len() == g0.layers@.len(),
                    l < g.layers@.len(),
                    1 <= i,
                    scan_run(ids@, gs, ps),
                    gs[0] == g0,
                    ps[0] == (0int, 1int),
                    gs.last() == *g,
                    ps.last() == (l as int, i as int),
                decreases g.layers@[l as int]@.len() - i,
            {
                let ghost before = *g;
                let curr = g.layers[l][i];
                let last = g.layers[l][i - 1];
                assert(curr < g.nodes@.len() && last < g.nodes@.len()) by {
                    assert(g.layers@[l as int]@[i as int] < g.nodes@.len());
                    assert(g.layers@[l as int]@[i - 1] < g.nodes@.len());
                }
                let mut merged_here = false;
                if is_long_edge_dummy(g, curr) && is_long_edge_dummy(g, last) {
                    let state = check_merge_allowed(g, curr, last, &ids);
                    if state.allow_merge {
                        merge_nodes(g, curr, last, state.same_source, state.same_target);
                        let ghost mid = *g;
                        assert(g.layers@[l as int]@[i as int] == curr);
                        remove_from_layer(g, l, i, curr);
                        merged_here = true;
                        assert(scan_step(ids@, &before, g, l as int, i as int, true)) by {
                            assert(merged(&before, &mid, curr as int, last as int, state.same_source, state.same_target));
                            assert(removed_from_layer(&mid, g, l as int, i as int, curr as int));
                        }
                    }
                }
                let ghost gs0 = gs;
                let ghost ps0 = ps;
                if !merged_here {
                    assert(scan_step(ids@, &before, g, l as int, i as int, false));
                    i += 1;
                }
                proof {
                    gs = gs.push(*g);
                    ps = ps.push((l as int, i as int));
                    assert(scan_move(ids@, &gs[gs.len() - 2], &gs[gs.len() - 1], ps[ps.len() - 2], ps[ps.len() - 1]));
                    assert forall|k: int| 0 <= k < gs.len() - 1 implies #[trigger] scan_move(ids@, &gs[k], &gs[k + 1], ps[k], ps[k + 1]) by {
                        if k < gs.len() - 2 {
                            assert(gs[k] == gs0[k] && gs[k + 1] == gs0[k + 1]);
                            assert(ps[k] == ps0[k] && ps[k + 1] == ps0[k + 1]);
                        }
                    }
                }
            }
            let ghost gs0 = gs;
            let ghost ps0 = ps;
            proof {
                gs = gs.push(*g);
                ps = ps.push((l as int + 1, 1int));
                assert(scan_move(ids@, &gs[gs.len() - 2], &gs[gs.len() - 1], ps[ps.len() - 2], ps[ps.len() - 1]));
                assert forall|k: int| 0 <= k < gs.len() - 1 implies #[trigger] scan_move(ids@, &gs[k], &gs[k + 1], ps[k], ps[k + 1]) by {
                    if k < gs.len() - 2 {
                        assert(gs[k] == gs0[k] && gs[k + 1] == gs0[k + 1]);
                        assert(ps[k] == ps0[k] && ps[k + 1] == ps0[k + 1]);
                    }
                }
            }
            l += 1;
        }
    }
}

/// The long-edge dummy lies after a label dummy of its edge: its edge has
/// label dummies and it is not marked as lying before them.
pub open spec fn lies_after_label(g: &LGraph, n: int) -> bool {
    g.nodes@[n].long_edge_has_label_dummies == Some(true) && g.nodes@[n].long_edge_before_label_dummy != Some(true)
}

/// The long-edge dummy lies before the label dummy of its edge.
pub open spec fn lies_before_label(g: &LGraph, n: int) -> bool {
    g.nodes@[n].long_edge_has_label_dummies == Some(true) && g.nodes@[n].long_edge_before_label_dummy == Some(true)
}

/// The edge of the long-edge dummy has no label dummies.
pub open spec fn without_label(g: &LGraph, n: int) -> bool {
    g.nodes@[n].long_edge_has_label_dummies != Some(true)
}

/// Which two dummies may merge: two dummies merge at their common source
/// only when neither lies after a label dummy, and at their common target
/// only when neither lies before one; so a dummy after a label dummy merges
/// only with one of the same target, and one before a label dummy only with
/// one of the same source. Two dummies on the same side of their label
/// dummies with that common end do merge, and the decision does not depend
/// on which of the two is the upper one.
pub proof fn lemma_merge_respects_label_dummies(g: &LGraph, curr: int, last: int, ids: Map<usize, i32>)
    ensures
        (lies_after_label(g, curr) || lies_after_label(g, last)) && spec_check_merge_allowed(g, curr, last, ids).allow_merge
            ==> (g.nodes@[curr].long_edge_target is Some && g.nodes@[curr].long_edge_target == g.nodes@[last].long_edge_target),
        (lies_before_label(g, curr) || lies_before_label(g, last)) && spec_check_merge_allowed(g, curr, last, ids).allow_merge
            ==> (g.nodes@[curr].long_edge_source is Some && g.nodes@[curr].long_edge_source == g.nodes@[last].long_edge_source),
        (lies_before_label(g, curr) || without_label(g, curr)) && (lies_before_label(g, last) || without_label(g, last))
            && !(without_label(g, curr) && without_label(g, last)) && (g.nodes@[curr].long_edge_source is Some
            && g.nodes@[curr].long_edge_source == g.nodes@[last].long_edge_source) ==> spec_check_merge_allowed(g, curr, last, ids).allow_merge,
        (lies_after_label(g, curr) || without_label(g, curr)) && (lies_after_label(g, last) || without_label(g, last))
            && !(without_label(g, curr) && without_label(g, last)) && (g.nodes@[curr].long_edge_target is Some
            && g.nodes@[curr].long_edge_target == g.nodes@[last].long_edge_target) ==> spec_check_merge_allowed(g, curr, last, ids).allow_merge,
        spec_check_merge_allowed(g, curr, last, ids).allow_merge == spec_check_merge_allowed(g, last, curr, ids).allow_merge,
{
}

} // verus!

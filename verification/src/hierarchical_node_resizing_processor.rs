//! Hierarchical node resizing, its graph work: the nodes leave their layers
//! for the list of layerless nodes and the layers are cleared; and the edges
//! of external port dummies, as the resizing gathers them. The sizes and
//! positions are left to the caller.
use vstd::prelude::*;

use crate::graph::{LGraph, same_but_layer};
use crate::hierarchical_port_constraint_processor::layer_nodes_before;
use crate::hierarchical_port_orthogonal_edge_router::all_layer_nodes;

verus! {

/// Resizes a hierarchical node to the size of its laid out content.
pub struct HierarchicalNodeResizingProcessor;

/// The edges `es`, followed by those of `more` not among them yet, each
/// once, in order of first appearance.
pub open spec fn append_new(es: Seq<usize>, more: Seq<usize>) -> Seq<usize>
    decreases more.len(),
{
    if more.len() == 0 {
        es
    } else {
        let prev = append_new(es, more.drop_last());
        if prev.contains(more.last()) {
            prev
        } else {
            prev.push(more.last())
        }
    }
}

/// The distinct edges at the given ports, port by port, each port's
/// entering edges before its leaving ones.
pub open spec fn edges_at_ports(g: &LGraph, ports: Seq<usize>) -> Seq<usize>
    decreases ports.len(),
{
    if ports.len() == 0 {
        Seq::empty()
    } else {
        let p = ports.last() as int;
        append_new(append_new(edges_at_ports(g, ports.drop_last()), g.incoming_of(p)), g.outgoing_of(p))
    }
}

/// Appends to `acc` the edges of `more` it does not hold yet.
fn append_new_exec(acc: &mut Vec<usize>, more: &Vec<usize>)
    ensures
        final(acc)@ == append_new(old(acc)@, more@),
{
    let ghost a0 = acc@;
    let mut i: usize = 0;
    while i < more.len()
        invariant
            i <= more@.len(),
            acc@ == append_new(a0, more@.take(i as int)),
        decreases more@.len() - i,
    {
        let e = more[i];
        assert(more@.take(i as int + 1).drop_last() == more@.take(i as int));
        assert(more@.take(i as int + 1).last() == e);
        let mut seen = false;
        let mut j: usize = 0;
        while j < acc.len()
            invariant
                j <= acc@.len(),
                seen == acc@.take(j as int).contains(e),
            decreases acc@.len() - j,
        {
            assert(acc@.take(j as int + 1) == acc@.take(j as int).push(acc@[j as int]));
            proof {
                let t0 = acc@.take(j as int);
                let t1 = acc@.take(j as int + 1);
                if t0.contains(e) {
                    let k = choose|k: int| 0 <= k < t0.len() && t0[k] == e;
                    assert(t1[k] == e);
                }
                if acc@[j as int] == e {
                    assert(t1[j as int] == e);
                }
                if t1.contains(e) && !t0.contains(e) {
                    let k = choose|k: int| 0 <= k < t1.len() && t1[k] == e;
                    if k < j {
                        assert(t0[k] == e);
                    }
                }
            }
            if acc[j] == e {
                seen = true;
            }
            j += 1;
        }
        assert(acc@.take(acc@.len() as int) == acc@);
        if !seen {
            acc.push(e);
        }
        i += 1;
    }
    assert(more@.take(more@.len() as int) == more@);
}

/// The distinct edges at the node's ports, port by port, entering before
/// leaving.
pub fn external_dummy_edges(g: &LGraph, node: usize) -> (res: Vec<usize>)
    requires
        node < g.nodes@.len(),
    ensures
        res@ == edges_at_ports(g, g.nodes@[node as int].ports@),
{
    let ghost ports = g.nodes@[node as int].ports@;
    let mut all: Vec<usize> = Vec::new();
    let mut i: usize = 0;
    while i < g.nodes[node].ports.len()
        invariant
            node < g.nodes@.len(),
            ports == g.nodes@[node as int].ports@,
            i <= ports.len(),
            all@ == edges_at_ports(g, ports.take(i as int)),
        decreases ports.len() - i,
    {
        let p = g.nodes[node].ports[i];
        assert(ports.take(i as int + 1).drop_last() == ports.take(i as int));
        assert(ports.take(i as int + 1).last() == p);
        let incoming = g.incoming_edges(p);
        let outgoing = g.outgoing_edges(p);
        append_new_exec(&mut all, &incoming);
        append_new_exec(&mut all, &outgoing);
        i += 1;
    }
    assert(ports.take(ports.len() as int) == ports);
    all
}

/// The number of distinct edges at the node's ports.
pub fn external_dummy_edge_count(g: &LGraph, node: usize) -> (res: usize)
    requires
        node < g.nodes@.len(),
    ensures
        res == edges_at_ports(g, g.nodes@[node as int].ports@).len(),
{
    external_dummy_edges(g, node).len()
}

impl HierarchicalNodeResizingProcessor {
    /// Moves the nodes of all layers, layer by layer, to the end of the
    /// layerless nodes, takes every layerless node out of its layer, and
    /// clears the layers.
    pub fn process(&self, g: &mut LGraph)
        requires
            old(g).wf(),
        ensures
            final(g).wf(),
            old(g).layers_listed() ==> final(g).layers_listed(),
            final(g).layers@.len() == 0,
            final(g).layerless_nodes@ == old(g).layerless_nodes@ + layer_nodes_before(old(g), old(g).layers@.len() as int),
            final(g).ports == old(g).ports,
            final(g).edges == old(g).edges,
            final(g).nodes@.len() == old(g).nodes@.len(),
            forall|n: int|
                0 <= n < old(g).nodes@.len() ==> {
                    &&& same_but_layer(#[trigger] final(g).nodes@[n], old(g).nodes@[n])
                    &&& final(g).nodes@[n].layer == if final(g).layerless_nodes@.contains(n as usize) {
                        None
                    } else {
                        old(g).nodes@[n].layer
                    }
                },
    {
        let ghost g0 = *g;
        let placed = all_layer_nodes(g);
        let mut all: Vec<usize> = Vec::new();
        let mut i: usize = 0;
        while i < g.layerless_nodes.len()
            invariant
                *g == g0,
                g.wf(),
                i <= g.layerless_nodes@.len(),
                all@ == g.layerless_nodes@.take(i as int),
            decreases g.layerless_nodes@.len() - i,
        {
            assert(g.layerless_nodes@.take(i as int + 1) == g.layerless_nodes@.take(i as int).push(g.layerless_nodes@[i as int]));
            all.push(g.layerless_nodes[i]);
            i += 1;
        }
        assert(g.layerless_nodes@.take(i as int) == g.layerless_nodes@);
        let mut j: usize = 0;
        while j < placed.len()
            invariant
                *g == g0,
                j <= placed@.len(),
                all@ == g0.layerless_nodes@ + placed@.take(j as int),
            decreases placed@.len() - j,
        {
            assert(placed@.take(j as int + 1) == placed@.take(j as int).push(placed@[j as int]));
            all.push(placed[j]);
            j += 1;
        }
        assert(placed@.take(j as int) == placed@);
        let ghost target = all@;
        proof {
            assert forall|k: int| 0 <= k < target.len() implies #[trigger] target[k] < g0.nodes@.len() by {
                if k < g0.layerless_nodes@.len() {
                    assert(target[k] == g0.layerless_nodes@[k]);
                } else {
                    assert(target[k] == placed@[k - g0.layerless_nodes@.len()]);
                }
            }
        }
        g.layers = Vec::new();
        let mut k: usize = 0;
        while k < all.len()
            invariant
                all@ == target,
                forall|x: int| 0 <= x < target.len() ==> #[trigger] target[x] < g0.nodes@.len(),
                k <= target.len(),
                g.layers@.len() == 0,
                g.ports == g0.ports,
                g.edges == g0.edges,
                g.layerless_nodes == g0.layerless_nodes,
                g.nodes@.len() == g0.nodes@.len(),
                forall|n: int|
                    0 <= n < g0.nodes@.len() ==> {
                        &&& same_but_layer(#[trigger] g.nodes@[n], g0.nodes@[n])
                        &&& g.nodes@[n].layer == if target.take(k as int).contains(n as usize) {
                            None
                        } else {
                            g0.nodes@[n].layer
                        }
                    },
            decreases target.len() - k,
        {
            let n = all[k];
            g.nodes[n].layer = None;
            proof {
                assert(target.take(k as int + 1) == target.take(k as int).push(n));
                assert forall|m: int| 0 <= m < g0.nodes@.len() implies {
                    &&& same_but_layer(#[trigger] g.nodes@[m], g0.nodes@[m])
                    &&& g.nodes@[m].layer == if target.take(k as int + 1).contains(m as usize) {
                        None
                    } else {
                        g0.nodes@[m].layer
                    }
                } by {
                    assert(g0.nodes@.len() == g0.nodes.len());
                    assert(m as usize as int == m);
                    let t0 = target.take(k as int);
                    let t1 = target.take(k as int + 1);
                    assert(t1 == t0.push(n));
                    if t0.contains(m as usize) {
                        let x = choose|x: int| 0 <= x < t0.len() && #[trigger] t0[x] == m as usize;
                        assert(t1[x] == m as usize);
                    }
                    if t1.contains(m as usize) && m != n {
                        let x = choose|x: int| 0 <= x < t1.len() && #[trigger] t1[x] == m as usize;
                        assert(t0[x] == m as usize);
                    }
                    if m == n {
                        assert(t1[k as int] == n);
                    }
                }
            }
            k += 1;
        }
        assert(target.take(k as int) == target);
        g.layerless_nodes = all;
        proof {
            assert forall|n: int, x: int| 0 <= n < g.nodes@.len() && 0 <= x < g.nodes@[n].ports@.len() implies {
                &&& #[trigger] g.nodes@[n].ports@[x] < g.ports@.len()
                &&& g.ports@[g.nodes@[n].ports@[x] as int].node == Some(n as usize)
            } by {
                assert(same_but_layer(g.nodes@[n], g0.nodes@[n]));
                assert(g0.nodes@[n].ports@[x] < g0.ports@.len());
            }
            if g0.layers_listed() {
                assert forall|n: int| 0 <= n < g.nodes@.len() implies (#[trigger] g.nodes@[n].layer matches Some(l) ==> (l
                    < g.layers@.len() && g.layers@[l as int]@.contains(n as usize))) by {
                    if let Some(l) = g0.nodes@[n].layer {
                        assert(g0.layers@[l as int]@.contains(n as usize));
                        let i = choose|i: int| 0 <= i < g0.layers@[l as int]@.len() && g0.layers@[l as int]@[i] == n as usize;
                        crate::hierarchical_port_constraint_processor::lemma_layer_in_layer_nodes(&g0, g0.layers@.len() as int, l as int, i);
                        let y = choose|y: int| 0 <= y < placed@.len() && placed@[y] == n as usize;
                        assert(target[g0.layerless_nodes@.len() + y] == n as usize);
                        assert(target.contains(n as usize));
                    }
                }
            }
        }
    }
}

} // verus!

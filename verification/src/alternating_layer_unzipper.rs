//! The per-layer settings and the node placement of layer unzipping, which
//! spreads the nodes of a layer alternately over several layers.
use vstd::prelude::*;

use crate::graph::{lemma_filter_facts, LGraph, LNode, NodeType, take_layer};
pub use crate::graph::same_but_layer;

verus! {

/// Splits layers into several layers whose nodes alternate.
pub struct AlternatingLayerUnzipper;

/// The number of layers a layer is split into when no node of it says
/// otherwise.
pub const DEFAULT_LAYER_SPLIT: i32 = 2;

/// The smallest layer split that a node of the list sets, if any sets one.
pub open spec fn min_layer_split(g: &LGraph, nodes: Seq<usize>) -> Option<i32>
    decreases nodes.len(),
{
    if nodes.len() == 0 {
        None
    } else {
        let rest = min_layer_split(g, nodes.drop_last());
        match g.nodes@[nodes.last() as int].layer_split {
            Some(v) => match rest {
                Some(r) => Some(if v < r {
                    v
                } else {
                    r
                }),
                None => Some(v),
            },
            None => rest,
        }
    }
}

/// The number of layers the layer is split into: the smallest value its
/// nodes set, or the default when none sets one.
pub open spec fn spec_layer_split(g: &LGraph, l: int) -> i32 {
    match min_layer_split(g, g.layers@[l]@) {
        Some(v) => v,
        None => DEFAULT_LAYER_SPLIT,
    }
}

/// Some node of the layer sets the flag to the given value.
pub open spec fn some_node_sets(g: &LGraph, l: int, reset: bool, value: bool) -> bool {
    exists|i: int|
        0 <= i < g.layers@[l]@.len() && #[trigger] flag_of(g, g.layers@[l]@[i], reset) == Some(value)
}

/// The reset-on-long-edges flag (`reset`) or the minimize-edge-length flag
/// of a node.
pub open spec fn flag_of(g: &LGraph, n: usize, reset: bool) -> Option<bool> {
    if reset {
        g.nodes@[n as int].reset_on_long_edges
    } else {
        g.nodes@[n as int].minimize_edge_length
    }
}

/// The number of layers the given layer is split into.
pub fn get_layer_split_property(g: &LGraph, l: usize) -> (res: i32)
    requires
        g.wf(),
        l < g.layers@.len(),
    ensures
        res == spec_layer_split(g, l as int),
{
    let mut layer_split: i32 = i32::MAX;
    let mut property_unset = true;
    let ghost nodes = g.layers@[l as int]@;
    let mut i: usize = 0;
    while i < g.layers[l].len()
        invariant
            g.wf(),
            l < g.layers@.len(),
            nodes == g.layers@[l as int]@,
            i <= nodes.len(),
            property_unset == (min_layer_split(g, nodes.take(i as int)) is None),
            !property_unset ==> min_layer_split(g, nodes.take(i as int)) == Some(layer_split),
        decreases nodes.len() - i,
    {
        let n = g.layers[l][i];
        assert(nodes.take(i as int + 1).drop_last() == nodes.take(i as int));
        assert(nodes.take(i as int + 1).last() == n);
        assert(n < g.nodes@.len());
        match g.nodes[n].layer_split {
            Some(v) => {
                if property_unset || v < layer_split {
                    layer_split = v;
                }
                property_unset = false;
            },
            None => {},
        }
        i += 1;
    }
    assert(nodes.take(nodes.len() as int) == nodes);
    if property_unset {
        return DEFAULT_LAYER_SPLIT;
    }
    layer_split
}

/// Whether dummies of long edges restart the alternation: yes unless a node
/// of the layer switches it off.
pub fn get_reset_on_long_edges_property(g: &LGraph, l: usize) -> (res: bool)
    requires
        g.wf(),
        l < g.layers@.len(),
    ensures
        res == !some_node_sets(g, l as int, true, false),
{
    let mut i: usize = 0;
    while i < g.layers[l].len()
        invariant
            g.wf(),
            l < g.layers@.len(),
            i <= g.layers@[l as int]@.len(),
            forall|j: int| 0 <= j < i ==> #[trigger] flag_of(g, g.layers@[l as int]@[j], true) != Some(false),
        decreases g.layers@[l as int]@.len() - i,
    {
        let n = g.layers[l][i];
        assert(n < g.nodes@.len());
        if g.nodes[n].reset_on_long_edges == Some(false) {
            assert(flag_of(g, g.layers@[l as int]@[i as int], true) == Some(false));
            return false;
        }
        i += 1;
    }
    true
}

/// Whether the layer is only split when that shortens the edges: yes when a
/// node of the layer asks for it.
pub fn get_minimize_edge_length_property(g: &LGraph, l: usize) -> (res: bool)
    requires
        g.wf(),
        l < g.layers@.len(),
    ensures
        res == some_node_sets(g, l as int, false, true),
{
    let mut i: usize = 0;
    while i < g.layers[l].len()
        invariant
            g.wf(),
            l < g.layers@.len(),
            i <= g.layers@[l as int]@.len(),
            forall|j: int| 0 <= j < i ==> #[trigger] flag_of(g, g.layers@[l as int]@[j], false) != Some(true),
        decreases g.layers@[l as int]@.len() - i,
    {
        let n = g.layers[l][i];
        assert(n < g.nodes@.len());
        if g.nodes[n].minimize_edge_length == Some(true) {
            assert(flag_of(g, g.layers@[l as int]@[i as int], false) == Some(true));
            return true;
        }
        i += 1;
    }
    false
}

/// The node is a placeholder that the unzipping added.
pub open spec fn is_placeholder(g: &LGraph, n: usize) -> bool {
    g.nodes@[n as int].node_type == NodeType::Placeholder || g.nodes@[n as int].node_type
        == NodeType::NonshiftingPlaceholder
}

/// Puts a node that is in no layer into layer `l` at position `index`, or
/// at the end when the layer is shorter than that.
pub fn place_node_at_index(g: &mut LGraph, node: usize, l: usize, index: usize)
    requires
        old(g).wf(),
        node < old(g).nodes@.len(),
        l < old(g).layers@.len(),
        old(g).nodes@[node as int].layer is None,
    ensures
        final(g).wf(),
        final(g).ports == old(g).ports,
        final(g).edges == old(g).edges,
        final(g).layerless_nodes == old(g).layerless_nodes,
        final(g).layers@.len() == old(g).layers@.len(),
        final(g).layers@[l as int]@ == if index > old(g).layers@[l as int]@.len() {
            old(g).layers@[l as int]@.push(node)
        } else {
            old(g).layers@[l as int]@.insert(index as int, node)
        },
        forall|k: int| 0 <= k < old(g).layers@.len() && k != l ==> #[trigger] final(g).layers@[k]
            == old(g).layers@[k],
        final(g).nodes@.len() == old(g).nodes@.len(),
        final(g).nodes@[node as int].layer == Some(l),
        same_but_layer(final(g).nodes@[node as int], old(g).nodes@[node as int]),
        forall|n: int| 0 <= n < old(g).nodes@.len() && n != node ==> #[trigger] final(g).nodes@[n]
            == old(g).nodes@[n],
{
    let ghost g0 = *g;
    let mut layer = take_layer(g, l);
    let ghost old_layer = layer@;
    proof {
        assert forall|i: int| 0 <= i < old_layer.len() implies old_layer[i] != node by {
            assert(g0.layers@[l as int]@[i] < g0.nodes@.len());
            assert(g0.nodes@[g0.layers@[l as int]@[i] as int].layer == Some(l));
        }
    }
    if index > layer.len() {
        layer.push(node);
    } else {
        layer.insert(index, node);
    }
    proof {
        assert forall|i: int| 0 <= i < layer@.len() implies layer@[i] == node || old_layer.contains(layer@[i]) by {
            if layer@[i] != node {
                if index > old_layer.len() {
                    assert(layer@[i] == old_layer[i]);
                } else if i < index {
                    assert(layer@[i] == old_layer[i]);
                } else {
                    assert(layer@[i] == old_layer[i - 1]);
                }
            }
        }
    }
    g.nodes[node].layer = Some(l);
    g.layers[l] = layer;
    proof {
        assert forall|k: int, i: int|
            0 <= k < g.layers@.len() && 0 <= i < g.layers@[k]@.len() implies {
                &&& #[trigger] g.layers@[k]@[i] < g.nodes@.len()
                &&& g.nodes@[g.layers@[k]@[i] as int].layer == Some(k as usize)
            } by {
            if k == l {
                if g.layers@[k]@[i] != node {
                    let j = choose|j: int| 0 <= j < old_layer.len() && old_layer[j] == g.layers@[k]@[i];
                    assert(g0.layers@[l as int]@[j] < g0.nodes@.len());
                }
            } else {
                assert(g0.layers@[k]@[i] < g0.nodes@.len());
                assert(g0.nodes@[g0.layers@[k]@[i] as int].layer == Some(k as usize));
                assert(g.layers@[k]@[i] != node);
            }
        }
        assert forall|k: int| 0 <= k < g.layers@.len() implies #[trigger] g.layers@[k]@.no_duplicates() by {
            if k == l {
                assert forall|a: int, b: int| 0 <= a < layer@.len() && 0 <= b < layer@.len() && a != b implies layer@[a] != layer@[b] by {
                    assert(g0.layers@[l as int]@.no_duplicates());
                    let pa = if index > old_layer.len() { a } else if a < index { a } else { a - 1 };
                    let pb = if index > old_layer.len() { b } else if b < index { b } else { b - 1 };
                    if layer@[a] != node && layer@[b] != node {
                        assert(layer@[a] == old_layer[pa]);
                        assert(layer@[b] == old_layer[pb]);
                    }
                }
            }
        }
        assert forall|n: int, i: int|
            0 <= n < g.nodes@.len() && 0 <= i < g.nodes@[n].ports@.len() implies {
                &&& #[trigger] g.nodes@[n].ports@[i] < g.ports@.len()
                &&& g.ports@[g.nodes@[n].ports@[i] as int].node == Some(n as usize)
            } by {
            assert(g.nodes@[n].ports@[i] == g0.nodes@[n].ports@[i]);
        }
    }
}

/// The node is a placeholder that lies in the layer its layer field names.
pub open spec fn placed_placeholder(g: &LGraph, n: int) -> bool {
    &&& is_placeholder(g, n as usize)
    &&& g.nodes@[n].layer matches Some(l)
    &&& l < g.layers@.len()
    &&& g.layers@[l as int]@.contains(n as usize)
}

/// Takes the placeholders out of their layers.
pub fn remove_unconnected_placeholder_nodes(g: &mut LGraph)
    requires
        old(g).wf(),
    ensures
        final(g).wf(),
        final(g).ports == old(g).ports,
        final(g).edges == old(g).edges,
        final(g).layerless_nodes == old(g).layerless_nodes,
        final(g).layers@.len() == old(g).layers@.len(),
        forall|l: int| 0 <= l < old(g).layers@.len() ==> #[trigger] final(g).layers@[l]@
            == old(g).layers@[l]@.filter(|n: usize| !is_placeholder(old(g), n)),
        final(g).nodes@.len() == old(g).nodes@.len(),
        forall|n: int| 0 <= n < old(g).nodes@.len() ==> same_but_layer(#[trigger] final(g).nodes@[n], old(g).nodes@[n])
            && final(g).nodes@[n].layer == if placed_placeholder(old(g), n) {
                None
            } else {
                old(g).nodes@[n].layer
            },
{
    let ghost g0 = *g;
    let ghost keep = |n: usize| !is_placeholder(&g0, n);
    let nn = g.nodes.len();
    let mut l: usize = 0;
    while l < g.layers.len()
        invariant
            g0.wf(),
            g.wf(),
            keep == (|n: usize| !is_placeholder(&g0, n)),
            nn == g0.nodes@.len(),
            g.ports == g0.ports,
            g.edges == g0.edges,
            g.layerless_nodes == g0.layerless_nodes,
            g.layers@.len() == g0.layers@.len(),
            g.nodes@.len() == g0.nodes@.len(),
            l <= g.layers@.len(),
            forall|k: int| 0 <= k < l ==> #[trigger] g.layers@[k]@ == g0.layers@[k]@.filter(keep),
            forall|k: int| l <= k < g.layers@.len() ==> #[trigger] g.layers@[k] == g0.layers@[k],
            forall|n: int| 0 <= n < g0.nodes@.len() ==> same_but_layer(#[trigger] g.nodes@[n], g0.nodes@[n])
                && g.nodes@[n].layer == if placed_placeholder(&g0, n) && (g0.nodes@[n].layer matches Some(k) && k < l) {
                    None
                } else {
                    g0.nodes@[n].layer
                },
        decreases g.layers@.len() - l,
    {
        let old_list = take_layer(g, l);
        let ghost ol = old_list@;
        assert(ol == g0.layers@[l as int]@);
        let mut new_list: Vec<usize> = Vec::new();
        let mut i: usize = 0;
        while i < old_list.len()
            invariant
                g0.wf(),
                keep == (|n: usize| !is_placeholder(&g0, n)),
                nn == g0.nodes@.len(),
                l < g0.layers@.len(),
                ol == old_list@,
                ol == g0.layers@[l as int]@,
                g.nodes@.len() == g0.nodes@.len(),
                g.ports == g0.ports,
                g.edges == g0.edges,
                g.layerless_nodes == g0.layerless_nodes,
                g.layers@.len() == g0.layers@.len(),
                forall|k: int| 0 <= k < l ==> #[trigger] g.layers@[k]@ == g0.layers@[k]@.filter(keep),
                forall|k: int| l < k < g.layers@.len() ==> #[trigger] g.layers@[k] == g0.layers@[k],
                i <= ol.len(),
                new_list@ == ol.take(i as int).filter(keep),
                forall|n: int| 0 <= n < g0.nodes@.len() ==> same_but_layer(#[trigger] g.nodes@[n], g0.nodes@[n])
                    && g.nodes@[n].layer == if placed_placeholder(&g0, n) && (g0.nodes@[n].layer matches Some(k) && (k < l || (k == l && ol.take(i as int).contains(n as usize)))) {
                        None
                    } else {
                        g0.nodes@[n].layer
                    },
            decreases ol.len() - i,
        {
            let n = old_list[i];
            assert(ol.take(i as int + 1).drop_last() == ol.take(i as int));
            assert(ol.take(i as int + 1) == ol.take(i as int).push(n));
            reveal_with_fuel(Seq::filter, 1);
            assert(g0.layers@[l as int]@[i as int] < g0.nodes@.len());
            assert(g0.nodes@[n as int].layer == Some(l));
            let t = g.nodes[n].node_type;
            if t == NodeType::Placeholder || t == NodeType::NonshiftingPlaceholder {
                g.nodes[n].layer = None;
            } else {
                new_list.push(n);
            }
            proof {
                assert(ol.contains(n));
                assert forall|m: int| 0 <= m < g0.nodes@.len() implies same_but_layer(#[trigger] g.nodes@[m], g0.nodes@[m])
                    && g.nodes@[m].layer == if placed_placeholder(&g0, m) && (g0.nodes@[m].layer matches Some(k) && (k < l || (k == l && ol.take(i as int + 1).contains(m as usize)))) {
                        None
                    } else {
                        g0.nodes@[m].layer
                    } by {
                    if m != n as int {
                        let t1 = ol.take(i as int + 1);
                        let t0 = ol.take(i as int);
                        assert(t1.contains(m as usize) == t0.contains(m as usize)) by {
                            if t1.contains(m as usize) {
                                let j = choose|j: int| 0 <= j < t1.len() && t1[j] == m as usize;
                                if j == i {
                                    assert(t1[j] == n);
                                }
                                assert(j < i);
                                assert(t0[j] == m as usize);
                            }
                            if t0.contains(m as usize) {
                                let j = choose|j: int| 0 <= j < t0.len() && t0[j] == m as usize;
                                assert(t1[j] == m as usize);
                            }
                        }
                    } else {
                        assert(ol.take(i as int + 1)[i as int] == n);
                    }
                }
            }
            i += 1;
        }
        assert(ol.take(ol.len() as int) == ol);
        proof {
            lemma_filter_facts(g0.layers@[l as int]@, keep);
            crate::in_layer_constraint_processor::lemma_filter_no_duplicates(ol, keep);
        }
        g.layers[l] = new_list;
        proof {
            assert forall|k: int, i2: int|
                0 <= k < g.layers@.len() && 0 <= i2 < g.layers@[k]@.len() implies {
                    &&& #[trigger] g.layers@[k]@[i2] < g.nodes@.len()
                    &&& g.nodes@[g.layers@[k]@[i2] as int].layer == Some(k as usize)
                } by {
                if k == l {
                    let x = g.layers@[k]@[i2];
                    assert(ol.filter(keep).contains(x));
                    ol.lemma_filter_contains_rev(keep, x);
                    let j = choose|j: int| 0 <= j < ol.len() && ol[j] == x;
                    assert(g0.layers@[l as int]@[j] < g0.nodes@.len());
                    assert(!placed_placeholder(&g0, x as int));
                } else if k < l {
                    let x = g.layers@[k]@[i2];
                    assert(g0.layers@[k]@.filter(keep).contains(x));
                    g0.layers@[k]@.lemma_filter_contains_rev(keep, x);
                    let j = choose|j: int| 0 <= j < g0.layers@[k]@.len() && g0.layers@[k]@[j] == x;
                    assert(g0.layers@[k]@[j] < g0.nodes@.len());
                } else {
                    assert(g0.layers@[k]@[i2] < g0.nodes@.len());
                    assert(g0.nodes@[g0.layers@[k]@[i2] as int].layer == Some(k as usize));
                }
            }
            assert forall|k: int| 0 <= k < g.layers@.len() implies #[trigger] g.layers@[k]@.no_duplicates() by {
                if k < l {
                    crate::in_layer_constraint_processor::lemma_filter_no_duplicates(g0.layers@[k]@, keep);
                } else if k == l {
                    assert(g.layers@[k]@ == ol.filter(keep));
                } else {
                    assert(g.layers@[k] == g0.layers@[k]);
                    assert(g0.layers@[k]@.no_duplicates());
                }
            }
            assert forall|n: int, i2: int|
                0 <= n < g.nodes@.len() && 0 <= i2 < g.nodes@[n].ports@.len() implies {
                    &&& #[trigger] g.nodes@[n].ports@[i2] < g.ports@.len()
                    &&& g.ports@[g.nodes@[n].ports@[i2] as int].node == Some(n as usize)
                } by {
                assert(same_but_layer(g.nodes@[n], g0.nodes@[n]));
                assert(g.nodes@[n].ports@[i2] == g0.nodes@[n].ports@[i2]);
            }
            assert forall|n: int| 0 <= n < g0.nodes@.len() implies same_but_layer(#[trigger] g.nodes@[n], g0.nodes@[n])
                && g.nodes@[n].layer == if placed_placeholder(&g0, n) && (g0.nodes@[n].layer matches Some(k) && k < l + 1) {
                    None
                } else {
                    g0.nodes@[n].layer
                } by {
                if placed_placeholder(&g0, n) && g0.nodes@[n].layer == Some(l) {
                    assert(g0.layers@[l as int]@.contains(n as usize));
                }
            }
        }
        l += 1;
    }
    assert forall|n: int| 0 <= n < g0.nodes@.len() implies same_but_layer(#[trigger] g.nodes@[n], g0.nodes@[n])
        && g.nodes@[n].layer == if placed_placeholder(&g0, n) {
            None
        } else {
            g0.nodes@[n].layer
        } by {}
}

} // verus!

//! Executable tests of the well-formedness conditions of the layered graph,
//! for callers that build a graph from outside data.
use vstd::prelude::*;

use crate::graph::LGraph;
use crate::hierarchical_port_orthogonal_edge_router::stand_ins_valid;

verus! {

/// Every edge ends at ports of the graph.
fn edges_valid(g: &LGraph) -> (res: bool)
    ensures
        res == forall|e: int|
            0 <= e < g.edges@.len() ==> #[trigger] g.edges@[e].source < g.ports@.len() && g.edges@[e].target
                < g.ports@.len(),
{
    let mut e: usize = 0;
    while e < g.edges.len()
        invariant
            e <= g.edges@.len(),
            forall|x: int| 0 <= x < e ==> #[trigger] g.edges@[x].source < g.ports@.len() && g.edges@[x].target
                < g.ports@.len(),
        decreases g.edges@.len() - e,
    {
        if g.edges[e].source >= g.ports.len() || g.edges[e].target >= g.ports.len() {
            return false;
        }
        e += 1;
    }
    true
}

/// Every port that names a node names a node of the graph.
fn port_nodes_valid(g: &LGraph) -> (res: bool)
    ensures
        res == forall|p: int|
            0 <= p < g.ports@.len() ==> (#[trigger] g.ports@[p].node matches Some(n) ==> n < g.nodes@.len()),
{
    let mut p: usize = 0;
    while p < g.ports.len()
        invariant
            p <= g.ports@.len(),
            forall|x: int| 0 <= x < p ==> (#[trigger] g.ports@[x].node matches Some(n) ==> n < g.nodes@.len()),
        decreases g.ports@.len() - p,
    {
        if let Some(n) = g.ports[p].node {
            if n >= g.nodes.len() {
                return false;
            }
        }
        p += 1;
    }
    true
}

/// The ports of every node are ports of the graph that name that node.
fn node_ports_valid(g: &LGraph) -> (res: bool)
    ensures
        res == forall|n: int, i: int|
            0 <= n < g.nodes@.len() && 0 <= i < g.nodes@[n].ports@.len() ==> {
                &&& #[trigger] g.nodes@[n].ports@[i] < g.ports@.len()
                &&& g.ports@[g.nodes@[n].ports@[i] as int].node == Some(n as usize)
            },
{
    let mut n: usize = 0;
    while n < g.nodes.len()
        invariant
            n <= g.nodes@.len(),
            forall|m: int, i: int|
                0 <= m < n && 0 <= i < g.nodes@[m].ports@.len() ==> {
                    &&& #[trigger] g.nodes@[m].ports@[i] < g.ports@.len()
                    &&& g.ports@[g.nodes@[m].ports@[i] as int].node == Some(m as usize)
                },
        decreases g.nodes@.len() - n,
    {
        let mut i: usize = 0;
        while i < g.nodes[n].ports.len()
            invariant
                n < g.nodes@.len(),
                i <= g.nodes@[n as int].ports@.len(),
                forall|m: int, j: int|
                    0 <= m < n && 0 <= j < g.nodes@[m].ports@.len() ==> {
                        &&& #[trigger] g.nodes@[m].ports@[j] < g.ports@.len()
                        &&& g.ports@[g.nodes@[m].ports@[j] as int].node == Some(m as usize)
                    },
                forall|j: int|
                    0 <= j < i ==> {
                        &&& #[trigger] g.nodes@[n as int].ports@[j] < g.ports@.len()
                        &&& g.ports@[g.nodes@[n as int].ports@[j] as int].node == Some(n)
                    },
            decreases g.nodes@[n as int].ports@.len() - i,
        {
            let p = g.nodes[n].ports[i];
            if p >= g.ports.len() {
                return false;
            }
            if g.ports[p].node != Some(n) {
                return false;
            }
            i += 1;
        }
        n += 1;
    }
    true
}

/// The nodes of every layer are nodes of the graph that record that layer.
fn layer_nodes_valid(g: &LGraph) -> (res: bool)
    ensures
        res == forall|l: int, i: int|
            0 <= l < g.layers@.len() && 0 <= i < g.layers@[l]@.len() ==> {
                &&& #[trigger] g.layers@[l]@[i] < g.nodes@.len()
                &&& g.nodes@[g.layers@[l]@[i] as int].layer == Some(l as usize)
            },
{
    let mut l: usize = 0;
    while l < g.layers.len()
        invariant
            l <= g.layers@.len(),
            forall|k: int, i: int|
                0 <= k < l && 0 <= i < g.layers@[k]@.len() ==> {
                    &&& #[trigger] g.layers@[k]@[i] < g.nodes@.len()
                    &&& g.nodes@[g.layers@[k]@[i] as int].layer == Some(k as usize)
                },
        decreases g.layers@.len() - l,
    {
        let mut i: usize = 0;
        while i < g.layers[l].len()
            invariant
                l < g.layers@.len(),
                i <= g.layers@[l as int]@.len(),
                forall|k: int, j: int|
                    0 <= k < l && 0 <= j < g.layers@[k]@.len() ==> {
                        &&& #[trigger] g.layers@[k]@[j] < g.nodes@.len()
                        &&& g.nodes@[g.layers@[k]@[j] as int].layer == Some(k as usize)
                    },
                forall|j: int|
                    0 <= j < i ==> {
                        &&& #[trigger] g.layers@[l as int]@[j] < g.nodes@.len()
                        &&& g.nodes@[g.layers@[l as int]@[j] as int].layer == Some(l)
                    },
            decreases g.layers@[l as int]@.len() - i,
        {
            let n = g.layers[l][i];
            if n >= g.nodes.len() {
                return false;
            }
            if g.nodes[n].layer != Some(l) {
                return false;
            }
            i += 1;
        }
        l += 1;
    }
    true
}

/// No list of the layers holds a node twice.
fn layers_distinct(g: &LGraph) -> (res: bool)
    ensures
        res == forall|l: int| 0 <= l < g.layers@.len() ==> #[trigger] g.layers@[l]@.no_duplicates(),
{
    let mut l: usize = 0;
    while l < g.layers.len()
        invariant
            l <= g.layers@.len(),
            forall|k: int| 0 <= k < l ==> #[trigger] g.layers@[k]@.no_duplicates(),
        decreases g.layers@.len() - l,
    {
        let ghost s = g.layers@[l as int]@;
        let mut i: usize = 0;
        while i < g.layers[l].len()
            invariant
                l < g.layers@.len(),
                s == g.layers@[l as int]@,
                i <= s.len(),
                forall|a: int, b: int| 0 <= a < i && 0 <= b < s.len() && a != b ==> s[a] != s[b],
            decreases s.len() - i,
        {
            let mut j: usize = 0;
            while j < g.layers[l].len()
                invariant
                    l < g.layers@.len(),
                    s == g.layers@[l as int]@,
                    i < s.len(),
                    j <= s.len(),
                    forall|a: int, b: int| 0 <= a < i && 0 <= b < s.len() && a != b ==> s[a] != s[b],
                    forall|b: int| 0 <= b < j && b != i ==> s[i as int] != s[b],
                decreases s.len() - j,
            {
                if j != i && g.layers[l][i] == g.layers[l][j] {
                    assert(!g.layers@[l as int]@.no_duplicates());
                    return false;
                }
                j += 1;
            }
            i += 1;
        }
        l += 1;
    }
    true
}

/// Every node waiting for a layer is a node of the graph.
fn layerless_valid(g: &LGraph) -> (res: bool)
    ensures
        res == forall|l: int| 0 <= l < g.layerless_nodes@.len() ==> #[trigger] g.layerless_nodes@[l] < g.nodes@.len(),
{
    let mut l: usize = 0;
    while l < g.layerless_nodes.len()
        invariant
            l <= g.layerless_nodes@.len(),
            forall|k: int| 0 <= k < l ==> #[trigger] g.layerless_nodes@[k] < g.nodes@.len(),
        decreases g.layerless_nodes@.len() - l,
    {
        if g.layerless_nodes[l] >= g.nodes.len() {
            return false;
        }
        l += 1;
    }
    true
}

/// Whether the graph is well formed (see `LGraph::wf`).
pub fn is_well_formed(g: &LGraph) -> (res: bool)
    ensures
        res == g.wf(),
{
    let small = g.edges.len() <= usize::MAX / 2;
    assert(small == (g.edges@.len() * 2 <= usize::MAX));
    small && edges_valid(g) && port_nodes_valid(g) && node_ports_valid(g) && layer_nodes_valid(g) && layers_distinct(g)
        && layerless_valid(g)
}

/// Whether each node that names a layer is listed in it (see
/// `LGraph::layers_listed`).
pub fn layers_are_listed(g: &LGraph) -> (res: bool)
    ensures
        res == g.layers_listed(),
{
    let mut n: usize = 0;
    while n < g.nodes.len()
        invariant
            n <= g.nodes@.len(),
            forall|m: int| 0 <= m < n ==> (#[trigger] g.nodes@[m].layer matches Some(l) ==> (l < g.layers@.len()
                && g.layers@[l as int]@.contains(m as usize))),
        decreases g.nodes@.len() - n,
    {
        if let Some(l) = g.nodes[n].layer {
            if l >= g.layers.len() {
                return false;
            }
            let mut i: usize = 0;
            let mut found = false;
            while i < g.layers[l].len()
                invariant
                    l < g.layers@.len(),
                    i <= g.layers@[l as int]@.len(),
                    found == exists|j: int| 0 <= j < i && g.layers@[l as int]@[j] == n,
                decreases g.layers@[l as int]@.len() - i,
            {
                if g.layers[l][i] == n {
                    found = true;
                }
                i += 1;
            }
            if !found {
                return false;
            }
        }
        n += 1;
    }
    true
}

/// Whether every node that stands in for a dummy names a node of the
/// graph (see `stand_ins_valid`).
pub fn stand_ins_are_valid(g: &LGraph) -> (res: bool)
    ensures
        res == stand_ins_valid(g),
{
    let mut n: usize = 0;
    while n < g.nodes.len()
        invariant
            n <= g.nodes@.len(),
            forall|m: int| 0 <= m < n ==> (#[trigger] g.nodes@[m].ext_port_replaced_dummy matches Some(d) ==> d
                < g.nodes@.len()),
        decreases g.nodes@.len() - n,
    {
        if let Some(d) = g.nodes[n].ext_port_replaced_dummy {
            if d >= g.nodes.len() {
                return false;
            }
        }
        n += 1;
    }
    true
}

} // verus!

//! Records for every normal node the layer and position it ended up in.
use vstd::prelude::*;

use crate::graph::{LGraph, NodeType};

verus! {

/// The number of normal nodes in a list of nodes.
pub open spec fn normal_count(g: &LGraph, s: Seq<usize>) -> nat
    decreases s.len(),
{
    if s.len() == 0 {
        0
    } else {
        normal_count(g, s.drop_last()) + if g.nodes@[s.last() as int].node_type == NodeType::Normal {
            1nat
        } else {
            0nat
        }
    }
}

/// The number of layers before layer `l` that hold a normal node.
pub open spec fn layers_with_normal_nodes(g: &LGraph, l: int) -> nat
    decreases l,
{
    if l <= 0 {
        0
    } else {
        layers_with_normal_nodes(g, l - 1) + if normal_count(g, g.layers@[l - 1]@) > 0 {
            1nat
        } else {
            0nat
        }
    }
}

/// Numbers layers and positions of normal nodes.
pub struct ConstraintsPostprocessor;

/// Only the layer and position ids of nodes may differ.
pub open spec fn same_except_ids(a: &LGraph, b: &LGraph) -> bool {
    &&& a.ports == b.ports
    &&& a.edges == b.edges
    &&& a.layers == b.layers
    &&& a.layerless_nodes == b.layerless_nodes
    &&& a.nodes@.len() == b.nodes@.len()
    &&& forall|n: int|
        0 <= n < a.nodes@.len() ==> {
            &&& #[trigger] a.nodes@[n].node_type == b.nodes@[n].node_type
            &&& a.nodes@[n].ports == b.nodes@[n].ports
            &&& a.nodes@[n].layer == b.nodes@[n].layer
            &&& a.nodes@[n].id == b.nodes@[n].id
            &&& a.nodes@[n].layer_constraint == b.nodes@[n].layer_constraint
            &&& a.nodes@[n].in_layer_constraint == b.nodes@[n].in_layer_constraint
            &&& a.nodes@[n].edge_constraint == b.nodes@[n].edge_constraint
            &&& a.nodes@[n].port_constraints == b.nodes@[n].port_constraints
            &&& a.nodes@[n].origin == b.nodes@[n].origin
            &&& a.nodes@[n].in_layer_layout_unit == b.nodes@[n].in_layer_layout_unit
            &&& a.nodes@[n].in_layer_successor_constraints
                == b.nodes@[n].in_layer_successor_constraints
            &&& a.nodes@[n].ext_port_side == b.nodes@[n].ext_port_side
            &&& a.nodes@[n].long_edge_source == b.nodes@[n].long_edge_source
            &&& a.nodes@[n].long_edge_target == b.nodes@[n].long_edge_target
            &&& a.nodes@[n].long_edge_has_label_dummies == b.nodes@[n].long_edge_has_label_dummies
            &&& a.nodes@[n].long_edge_before_label_dummy
                == b.nodes@[n].long_edge_before_label_dummy
            &&& a.nodes@[n].layer_split == b.nodes@[n].layer_split
            &&& a.nodes@[n].reset_on_long_edges == b.nodes@[n].reset_on_long_edges
            &&& a.nodes@[n].minimize_edge_length == b.nodes@[n].minimize_edge_length
            &&& a.nodes@[n].breaking_point_info == b.nodes@[n].breaking_point_info
            &&& a.nodes@[n].comment_box == b.nodes@[n].comment_box
            &&& a.nodes@[n].comment_conn_port == b.nodes@[n].comment_conn_port
            &&& a.nodes@[n].alignment == b.nodes@[n].alignment
            &&& a.nodes@[n].label_placement == b.nodes@[n].label_placement
            &&& a.nodes@[n].ext_port_replaced_dummy == b.nodes@[n].ext_port_replaced_dummy
            &&& a.nodes@[n].represented_labels == b.nodes@[n].represented_labels
        }
}

/// Changing only ids keeps a graph well formed.
pub proof fn lemma_same_except_ids_wf(a: &LGraph, b: &LGraph)
    requires
        a.wf(),
        same_except_ids(a, b),
    ensures
        b.wf(),
{
    assert forall|n: int, i: int|
        0 <= n < b.nodes@.len() && 0 <= i < b.nodes@[n].ports@.len() implies {
        &&& #[trigger] b.nodes@[n].ports@[i] < b.ports@.len()
        &&& b.ports@[b.nodes@[n].ports@[i] as int].node == Some(n as usize)
    } by {
        assert(a.nodes@[n].node_type == b.nodes@[n].node_type);
        assert(a.nodes@[n].ports == b.nodes@[n].ports);
        assert(a.nodes@[n].ports@[i] < a.ports@.len());
    }
    assert forall|l: int, i: int|
        0 <= l < b.layers@.len() && 0 <= i < b.layers@[l]@.len() implies {
        &&& #[trigger] b.layers@[l]@[i] < b.nodes@.len()
        &&& b.nodes@[b.layers@[l]@[i] as int].layer == Some(l as usize)
    } by {
        assert(a.layers@[l]@[i] < a.nodes@.len());
        assert(a.nodes@[a.layers@[l]@[i] as int].node_type == b.nodes@[a.layers@[l]@[i] as int].node_type);
        assert(a.nodes@[a.layers@[l]@[i] as int].layer == b.nodes@[b.layers@[l]@[i] as int].layer);
    }
    assert forall|p: int| 0 <= p < b.ports@.len() implies (#[trigger] b.ports@[p].node matches Some(
        n,
    ) ==> n < b.nodes@.len()) by {
        assert(a.ports@[p] == b.ports@[p]);
    }
}

impl ConstraintsPostprocessor {
    /// Gives every normal node the number of earlier layers with normal nodes
    /// as layer id, and the number of normal nodes above it in its layer as
    /// position id; other nodes keep theirs.
    pub fn process(&self, g: &mut LGraph)
        requires
            old(g).wf(),
            old(g).layers@.len() <= i32::MAX,
            forall|l: int|
                0 <= l < old(g).layers@.len() ==> #[trigger] old(g).layers@[l]@.len() <= i32::MAX,
        ensures
            final(g).wf(),
            same_except_ids(old(g), final(g)),
            forall|l: int, i: int|
                0 <= l < old(g).layers@.len() && 0 <= i < old(g).layers@[l]@.len()
                    && old(g).nodes@[old(g).layers@[l]@[i] as int].node_type == NodeType::Normal ==> {
                    let n = #[trigger] old(g).layers@[l]@[i] as int;
                    &&& final(g).nodes@[n].layer_id == Some(layers_with_normal_nodes(old(g), l) as i32)
                    &&& final(g).nodes@[n].position_id == Some(
                        normal_count(old(g), old(g).layers@[l]@.take(i)) as i32,
                    )
                },
            forall|n: int|
                0 <= n < old(g).nodes@.len() && (old(g).nodes@[n].node_type != NodeType::Normal
                    || old(g).nodes@[n].layer is None) ==> {
                    &&& #[trigger] final(g).nodes@[n].layer_id == old(g).nodes@[n].layer_id
                    &&& final(g).nodes@[n].position_id == old(g).nodes@[n].position_id
                },
    {
        let ghost old_g = *g;
        let mut layer_index: i32 = 0;
        let mut l: usize = 0;
        while l < g.layers.len()
            invariant
                old_g.wf(),
                old_g.layers@.len() <= i32::MAX,
                forall|k: int|
                    0 <= k < old_g.layers@.len() ==> #[trigger] old_g.layers@[k]@.len() <= i32::MAX,
                same_except_ids(&old_g, g),
                l <= g.layers@.len(),
                layer_index == layers_with_normal_nodes(&old_g, l as int),
                layer_index <= l,
                forall|k: int, i: int|
                    0 <= k < l && 0 <= i < old_g.layers@[k]@.len()
                        && old_g.nodes@[old_g.layers@[k]@[i] as int].node_type == NodeType::Normal
                        ==> {
                        let n = #[trigger] old_g.layers@[k]@[i] as int;
                        &&& g.nodes@[n].layer_id == Some(layers_with_normal_nodes(&old_g, k) as i32)
                        &&& g.nodes@[n].position_id == Some(
                            normal_count(&old_g, old_g.layers@[k]@.take(i)) as i32,
                        )
                    },
                forall|n: int|
                    0 <= n < old_g.nodes@.len() && (old_g.nodes@[n].node_type != NodeType::Normal
                        || old_g.nodes@[n].layer is None || old_g.nodes@[n].layer.unwrap() >= l)
                        ==> {
                        &&& #[trigger] g.nodes@[n].layer_id == old_g.nodes@[n].layer_id
                        &&& g.nodes@[n].position_id == old_g.nodes@[n].position_id
                    },
            decreases g.layers@.len() - l,
        {
            let mut position_index: i32 = 0;
            let mut has_normal_node = false;
            let mut i: usize = 0;
            let ghost layer = old_g.layers@[l as int]@;
            let ghost g_before = *g;
            assert(layer.take(0) == Seq::<usize>::empty());
            while i < g.layers[l].len()
                invariant
                    old_g.wf(),
                    l < old_g.layers@.len(),
                    layer == old_g.layers@[l as int]@,
                    layer.len() <= i32::MAX,
                    same_except_ids(&old_g, g),
                    layer_index == layers_with_normal_nodes(&old_g, l as int),
                    i <= layer.len(),
                    position_index == normal_count(&old_g, layer.take(i as int)),
                    position_index <= i,
                    has_normal_node == (position_index > 0),
                    forall|k: int, j: int|
                        0 <= k < l && 0 <= j < old_g.layers@[k]@.len()
                            && old_g.nodes@[old_g.layers@[k]@[j] as int].node_type == NodeType::Normal
                            ==> {
                            let n = #[trigger] old_g.layers@[k]@[j] as int;
                            &&& g.nodes@[n].layer_id == Some(
                                layers_with_normal_nodes(&old_g, k) as i32,
                            )
                            &&& g.nodes@[n].position_id == Some(
                                normal_count(&old_g, old_g.layers@[k]@.take(j)) as i32,
                            )
                        },
                    forall|j: int|
                        0 <= j < i && old_g.nodes@[layer[j] as int].node_type == NodeType::Normal
                            ==> {
                            let n = #[trigger] layer[j] as int;
                            &&& g.nodes@[n].layer_id == Some(layer_index)
                            &&& g.nodes@[n].position_id == Some(
                                normal_count(&old_g, layer.take(j)) as i32,
                            )
                        },
                    forall|n: int|
                        0 <= n < old_g.nodes@.len() && (old_g.nodes@[n].node_type
                            != NodeType::Normal || old_g.nodes@[n].layer is None
                            || old_g.nodes@[n].layer.unwrap() > l || (old_g.nodes@[n].layer.unwrap()
                            == l && !layer.take(i as int).contains(n as usize))) ==> {
                            &&& #[trigger] g.nodes@[n].layer_id == old_g.nodes@[n].layer_id
                            &&& g.nodes@[n].position_id == old_g.nodes@[n].position_id
                        },
                decreases layer.len() - i,
            {
                let nid = g.layers[l][i];
                assert(layer.take(i as int + 1).drop_last() == layer.take(i as int));
                assert(layer.take(i as int + 1) == layer.take(i as int).push(nid));
                if g.nodes[nid].node_type == NodeType::Normal {
                    has_normal_node = true;
                    g.nodes[nid].layer_id = Some(layer_index);
                    g.nodes[nid].position_id = Some(position_index);
                    position_index += 1;
                }
                proof {
                    assert(old_g.nodes@[nid as int].layer == Some(l));
                    assert forall|n: int|
                        0 <= n < old_g.nodes@.len() && (old_g.nodes@[n].node_type
                            != NodeType::Normal || old_g.nodes@[n].layer is None
                            || old_g.nodes@[n].layer.unwrap() > l || (old_g.nodes@[n].layer.unwrap()
                            == l && !layer.take(i as int + 1).contains(n as usize))) implies {
                        &&& #[trigger] g.nodes@[n].layer_id == old_g.nodes@[n].layer_id
                        &&& g.nodes@[n].position_id == old_g.nodes@[n].position_id
                    } by {
                        if n == nid as int {
                            assert(layer.take(i as int + 1)[i as int] == nid);
                        } else {
                            if old_g.nodes@[n].layer.is_some() && old_g.nodes@[n].layer.unwrap() == l
                                && !layer.take(i as int + 1).contains(n as usize) {
                                assert forall|j: int| 0 <= j < i implies layer.take(i as int)[j]
                                    != n as usize by {
                                    assert(layer.take(i as int + 1)[j] == layer.take(i as int)[j]);
                                }
                            }
                        }
                    }
                    assert forall|k: int, j: int|
                        0 <= k < l && 0 <= j < old_g.layers@[k]@.len()
                            && old_g.nodes@[old_g.layers@[k]@[j] as int].node_type == NodeType::Normal
                            implies {
                        let n = #[trigger] old_g.layers@[k]@[j] as int;
                        &&& g.nodes@[n].layer_id == Some(layers_with_normal_nodes(&old_g, k) as i32)
                        &&& g.nodes@[n].position_id == Some(
                            normal_count(&old_g, old_g.layers@[k]@.take(j)) as i32,
                        )
                    } by {
                        let n = old_g.layers@[k]@[j];
                        assert(old_g.nodes@[n as int].layer == Some(k as usize));
                    }
                    assert forall|j: int|
                        0 <= j < i + 1 && old_g.nodes@[layer[j] as int].node_type == NodeType::Normal
                            implies {
                        let n = #[trigger] layer[j] as int;
                        &&& g.nodes@[n].layer_id == Some(layer_index)
                        &&& g.nodes@[n].position_id == Some(normal_count(&old_g, layer.take(j)) as i32)
                    } by {
                        if j < i {
                            assert(layer[j] != nid) by {
                                assert(layer.no_duplicates());
                            }
                        }
                    }
                }
                i += 1;
            }
            proof {
                assert(layer.take(layer.len() as int) == layer);
                assert forall|n: int|
                    0 <= n < old_g.nodes@.len() && (old_g.nodes@[n].node_type != NodeType::Normal
                        || old_g.nodes@[n].layer is None || old_g.nodes@[n].layer.unwrap() >= l
                        + 1) implies {
                    &&& #[trigger] g.nodes@[n].layer_id == old_g.nodes@[n].layer_id
                    &&& g.nodes@[n].position_id == old_g.nodes@[n].position_id
                } by {
                }
                assert forall|k: int, j: int|
                    0 <= k < l + 1 && 0 <= j < old_g.layers@[k]@.len()
                        && old_g.nodes@[old_g.layers@[k]@[j] as int].node_type == NodeType::Normal
                        implies {
                    let n = #[trigger] old_g.layers@[k]@[j] as int;
                    &&& g.nodes@[n].layer_id == Some(layers_with_normal_nodes(&old_g, k) as i32)
                    &&& g.nodes@[n].position_id == Some(
                        normal_count(&old_g, old_g.layers@[k]@.take(j)) as i32,
                    )
                } by {
                    if k == l {
                        assert(layer[j] == old_g.layers@[k]@[j]);
                    }
                }
            }
            if has_normal_node {
                layer_index += 1;
            }
            l += 1;
        }
        proof {
            lemma_same_except_ids_wf(&old_g, g);
            assert forall|n: int|
                0 <= n < old_g.nodes@.len() && (old_g.nodes@[n].node_type != NodeType::Normal
                    || old_g.nodes@[n].layer is None) implies {
                &&& #[trigger] g.nodes@[n].layer_id == old_g.nodes@[n].layer_id
                &&& g.nodes@[n].position_id == old_g.nodes@[n].position_id
            } by {
            }
        }
    }
}

} // verus!

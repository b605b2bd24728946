//! The greedy switch heuristic: switches neighbouring nodes of a layer while
//! that reduces crossings.
use vstd::prelude::*;

use crate::graph::{LGraph, NodeType, copy_i32s, copy_layers};
use crate::greedyswitch::crossing_matrix_filler::CrossMinType;
use crate::greedyswitch::switch_decider::ParentCrossingContext;

verus! {

/// What the heuristic knows of the parent graph of a nested graph.
pub struct ParentContext {
    pub parent_node_order: Vec<Vec<usize>>,
    pub parent_port_positions: Vec<i32>,
    /// The node of the parent graph that holds this graph.
    pub parent_node: usize,
}

/// The greedy switch crossing minimization heuristic.
pub struct GreedySwitchHeuristic {
    pub greedy_switch_type: CrossMinType,
    pub port_positions: Vec<i32>,
    pub n_ports: usize,
    pub has_parent: bool,
    pub dont_sweep_into: bool,
    pub parent_context: Option<ParentContext>,
}

/// The same lists of lists.
pub open spec fn same_layers(a: Seq<Vec<usize>>, b: Seq<Vec<usize>>) -> bool {
    a.len() == b.len() && forall|i: int| 0 <= i < a.len() ==> #[trigger] a[i]@ == b[i]@
}

impl GreedySwitchHeuristic {
    /// A heuristic of the given kind, with no ports counted yet.
    pub fn new(greedy_type: CrossMinType, has_parent: bool) -> (res: Self)
        ensures
            res.greedy_switch_type == greedy_type,
            res.port_positions@.len() == 0,
            res.n_ports == 0,
            res.has_parent == has_parent,
            !res.dont_sweep_into,
            res.parent_context is None,
    {
        GreedySwitchHeuristic {
            greedy_switch_type: greedy_type,
            port_positions: Vec::new(),
            n_ports: 0,
            has_parent,
            dont_sweep_into: false,
            parent_context: None,
        }
    }

    /// Whether the heuristic may look into the parent graph.
    pub fn set_dont_sweep_into(&mut self, dont_sweep_into: bool)
        ensures
            final(self).dont_sweep_into == dont_sweep_into,
            final(self).greedy_switch_type == old(self).greedy_switch_type,
            final(self).port_positions == old(self).port_positions,
            final(self).n_ports == old(self).n_ports,
            final(self).has_parent == old(self).has_parent,
            final(self).parent_context == old(self).parent_context,
    {
        self.dont_sweep_into = dont_sweep_into;
    }

    /// Records the order and port positions of the parent graph.
    pub fn update_parent_context(
        &mut self,
        parent_node_order: Vec<Vec<usize>>,
        parent_port_positions: Vec<i32>,
        parent_node: usize,
    )
        ensures
            final(self).parent_context == Some(
                ParentContext { parent_node_order, parent_port_positions, parent_node },
            ),
            final(self).dont_sweep_into == old(self).dont_sweep_into,
            final(self).greedy_switch_type == old(self).greedy_switch_type,
            final(self).port_positions == old(self).port_positions,
            final(self).n_ports == old(self).n_ports,
            final(self).has_parent == old(self).has_parent,
    {
        self.parent_context = Some(
            ParentContext { parent_node_order, parent_port_positions, parent_node },
        );
    }

    /// The layer a sweep starts at: the first for a forward sweep, else the last.
    pub fn start_index(&self, forward_sweep: bool, length: usize) -> (res: usize)
        ensures
            res == if forward_sweep || length == 0 {
                0
            } else {
                (length - 1) as usize
            },
    {
        if forward_sweep {
            0
        } else if length == 0 {
            0
        } else {
            length - 1
        }
    }

    /// Only the two-sided heuristic never worsens the crossing count.
    pub fn always_improves(&self) -> (res: bool)
        ensures
            res == (self.greedy_switch_type != CrossMinType::OneSidedGreedySwitch),
    {
        self.greedy_switch_type != CrossMinType::OneSidedGreedySwitch
    }

    /// The heuristic makes no random choices.
    pub fn is_deterministic(&self) -> (res: bool)
        ensures
            res,
    {
        true
    }

    /// Counts one more port of the graph.
    pub fn init_at_port_level(&mut self)
        requires
            old(self).n_ports < usize::MAX,
        ensures
            final(self).n_ports == old(self).n_ports + 1,
            final(self).greedy_switch_type == old(self).greedy_switch_type,
            final(self).port_positions == old(self).port_positions,
            final(self).has_parent == old(self).has_parent,
            final(self).dont_sweep_into == old(self).dont_sweep_into,
            final(self).parent_context == old(self).parent_context,
    {
        self.n_ports = self.n_ports + 1;
    }

    /// Makes room for a position of every counted port.
    pub fn init_after_traversal(&mut self)
        ensures
            final(self).port_positions@ == Seq::new(old(self).n_ports as nat, |i: int| 0i32),
            final(self).n_ports == old(self).n_ports,
            final(self).greedy_switch_type == old(self).greedy_switch_type,
            final(self).has_parent == old(self).has_parent,
            final(self).dont_sweep_into == old(self).dont_sweep_into,
            final(self).parent_context == old(self).parent_context,
    {
        let mut positions: Vec<i32> = Vec::new();
        let mut i: usize = 0;
        while i < self.n_ports
            invariant
                i <= self.n_ports,
                positions@ == Seq::new(i as nat, |k: int| 0i32),
            decreases self.n_ports - i,
        {
            positions.push(0);
            i += 1;
        }
        self.port_positions = positions;
    }

    /// Whether switches in the free layer also count the crossings they cause
    /// in the parent graph: only for the two-sided heuristic of a nested graph
    /// that may sweep into its parent, and only when the free layer starts
    /// with an external port dummy.
    pub open spec fn spec_counts_parent_crossings(&self, g: &LGraph, free_layer: Seq<usize>) -> bool {
        &&& self.greedy_switch_type != CrossMinType::OneSidedGreedySwitch
        &&& self.has_parent
        &&& !self.dont_sweep_into
        &&& free_layer.len() > 0
        &&& g.nodes@[free_layer[0] as int].node_type == NodeType::ExternalPort
    }

    /// The parent crossing context for sweeping the layer `free_layer_index`:
    /// present when parent crossings count, a parent context was recorded and
    /// its node lies in a layer of the parent graph.
    pub fn parent_crossing_context(
        &self,
        g: &LGraph,
        parent_graph: &LGraph,
        order: &Vec<Vec<usize>>,
        free_layer_index: usize,
    ) -> (res: Option<ParentCrossingContext>)
        requires
            free_layer_index < order@.len(),
            forall|i: int|
                0 <= i < order@[free_layer_index as int]@.len()
                    ==> #[trigger] order@[free_layer_index as int]@[i] < g.nodes@.len(),
        ensures
            match res {
                Some(ctx) => {
                    &&& self.spec_counts_parent_crossings(g, order@[free_layer_index as int]@)
                    &&& self.parent_context matches Some(pc)
                    &&& pc.parent_node < parent_graph.nodes@.len()
                    &&& parent_graph.nodes@[pc.parent_node as int].layer == Some(
                        ctx.parent_layer_index,
                    )
                    &&& same_layers(ctx.parent_node_order@, pc.parent_node_order@)
                    &&& ctx.parent_port_positions@ == pc.parent_port_positions@
                    &&& ctx.right_most_layer == (free_layer_index + 1 == order@.len())
                },
                None => !self.spec_counts_parent_crossings(g, order@[free_layer_index as int]@)
                    || self.parent_context is None || ({
                    &&& self.parent_context matches Some(pc)
                    &&& (pc.parent_node >= parent_graph.nodes@.len()
                        || parent_graph.nodes@[pc.parent_node as int].layer is None)
                }),
            },
    {
        let free_layer = &order[free_layer_index];
        let one_sided = self.greedy_switch_type == CrossMinType::OneSidedGreedySwitch;
        let first_is_external_port = free_layer.len() > 0 && g.nodes[free_layer[0]].node_type
            == NodeType::ExternalPort;
        let count_parent_crossings = !one_sided && self.has_parent && !self.dont_sweep_into
            && first_is_external_port;
        if !count_parent_crossings {
            return None;
        }
        match &self.parent_context {
            Some(parent) => {
                if parent.parent_node < parent_graph.nodes.len() {
                    match parent_graph.nodes[parent.parent_node].layer {
                        Some(parent_layer_index) => Some(
                            ParentCrossingContext::new(
                                copy_layers(&parent.parent_node_order),
                                copy_i32s(&parent.parent_port_positions),
                                parent_layer_index,
                                free_layer_index == order.len() - 1,
                            ),
                        ),
                        None => None,
                    }
                } else {
                    None
                }
            },
            None => None,
        }
    }
}

} // verus!

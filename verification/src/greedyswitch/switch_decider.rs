//! Decides whether switching two neighbouring nodes reduces crossings.
use vstd::prelude::*;

use crate::graph::{LGraph, NodeType, PortSide, degree, port_degree};
use crate::greedyswitch::crossing_matrix_filler::{CrossingMatrixFiller, fresh_counts};
use crate::greedyswitch::north_south_edge_neighbouring_node_crossings_counter::{
    NorthSouthEdgeNeighbouringNodeCrossingsCounter,
    ns_counts,
    ns_positions,
};

verus! {

/// The side whose crossings a one-sided count considers.
#[derive(Clone, Copy, Debug, PartialEq, Eq, Structural)]
pub enum CrossingCountSide {
    West,
    East,
}

/// The node order and port positions of the parent graph, used to count the
/// crossings that switching two external port dummies causes outside.
pub struct ParentCrossingContext {
    pub parent_node_order: Vec<Vec<usize>>,
    pub parent_port_positions: Vec<i32>,
    pub parent_layer_index: usize,
    pub right_most_layer: bool,
}

impl ParentCrossingContext {
    /// Bundles the parent graph's order and port positions.
    pub fn new(
        parent_node_order: Vec<Vec<usize>>,
        parent_port_positions: Vec<i32>,
        parent_layer_index: usize,
        right_most_layer: bool,
    ) -> (res: Self)
        ensures
            res.parent_node_order == parent_node_order,
            res.parent_port_positions == parent_port_positions,
            res.parent_layer_index == parent_layer_index,
            res.right_most_layer == right_most_layer,
    {
        ParentCrossingContext {
            parent_node_order,
            parent_port_positions,
            parent_layer_index,
            right_most_layer,
        }
    }
}

/// The upper node must stay above the lower one.
pub open spec fn successor_constrained(g: &LGraph, upper: usize, lower: usize) -> bool {
    g.nodes@[upper as int].in_layer_successor_constraints@.contains(lower)
}

/// A port of the node on the side has a north/south dummy or edges.
pub open spec fn edges_on_side(g: &LGraph, n: usize, side: PortSide) -> bool {
    exists|i: int|
        0 <= i < g.ports_on_side(n as int, side).len() && {
            let p = #[trigger] g.ports_on_side(n as int, side)[i];
            g.ports@[p as int].port_dummy is Some || degree(g, p as int) > 0
        }
}

/// The node belongs to a layout unit led by another node.
pub open spec fn in_multi_node_unit(g: &LGraph, n: usize) -> bool {
    match g.nodes@[n as int].in_layer_layout_unit {
        Some(unit) => unit != n,
        None => false,
    }
}

/// The nodes belong to different layout units (or only one has a unit).
pub open spec fn different_layout_units(g: &LGraph, upper: usize, lower: usize) -> bool {
    match (g.nodes@[upper as int].in_layer_layout_unit, g.nodes@[lower as int].in_layer_layout_unit) {
        (Some(a), Some(b)) => a != b,
        (None, None) => false,
        _ => true,
    }
}

/// Switching would break a layout unit or an edge on the facing sides, unless
/// one of the nodes is a long edge dummy.
pub open spec fn layout_unit_constrained(g: &LGraph, upper: usize, lower: usize) -> bool {
    let neither_long_edge = g.nodes@[upper as int].node_type != NodeType::LongEdge
        && g.nodes@[lower as int].node_type != NodeType::LongEdge;
    let units = in_multi_node_unit(g, upper) || in_multi_node_unit(g, lower) || edges_on_side(
        g,
        upper,
        PortSide::South,
    ) || edges_on_side(g, lower, PortSide::North);
    neither_long_edge && ((units && different_layout_units(g, upper, lower)) || edges_on_side(
        g,
        upper,
        PortSide::North,
    ) || edges_on_side(g, lower, PortSide::South))
}

/// One node is a normal node and the other a north/south port dummy.
pub open spec fn normal_and_north_south(g: &LGraph, upper: usize, lower: usize) -> bool {
    (g.nodes@[upper as int].node_type == NodeType::NorthSouthPort && g.nodes@[lower as int].node_type
        == NodeType::Normal) || (g.nodes@[lower as int].node_type == NodeType::NorthSouthPort
        && g.nodes@[upper as int].node_type == NodeType::Normal)
}

/// Some constraint forbids putting `lower` above `upper`.
pub open spec fn switch_prevented(g: &LGraph, upper: usize, lower: usize) -> bool {
    successor_constrained(g, upper, lower) || layout_unit_constrained(g, upper, lower)
        || normal_and_north_south(g, upper, lower)
}

/// Whether a constraint forbids switching the two nodes.
pub fn constraints_prevent_switch(g: &LGraph, upper_node: usize, lower_node: usize) -> (res: bool)
    requires
        g.wf(),
        upper_node < g.nodes@.len(),
        lower_node < g.nodes@.len(),
    ensures
        res == switch_prevented(g, upper_node, lower_node),
{
    have_successor_constraints(g, upper_node, lower_node) || have_layout_unit_constraints(
        g,
        upper_node,
        lower_node,
    ) || are_normal_and_north_south_port_dummy(g, upper_node, lower_node)
}

/// The crossings of one order of the two nodes: the between-layer count of
/// the crossing matrix, the in-layer counts on the western and eastern
/// sides, the count of north/south edges, and, where one was made, the count
/// in the parent graph.
pub open spec fn order_crossings(matrix: i32, west: i32, east: i32, north_south: i32, parent: Option<i32>) -> int {
    matrix + west + east + north_south + match parent {
        Some(c) => c as int,
        None => 0,
    }
}

/// Whether switching the two nodes reduces crossings, given the counts of
/// both orders (each pair is upper-above-lower, then lower-above-upper): no
/// constraint may prevent the switch, and the crossings with `upper` above
/// `lower` must exceed those of the other order.
pub fn switch_reduces_crossings(
    g: &LGraph,
    upper_node: usize,
    lower_node: usize,
    matrix: (i32, i32),
    west_in_layer: (i32, i32),
    east_in_layer: (i32, i32),
    north_south: (i32, i32),
    parent: Option<(i32, i32)>,
) -> (res: bool)
    requires
        g.wf(),
        upper_node < g.nodes@.len(),
        lower_node < g.nodes@.len(),
    ensures
        res == (!switch_prevented(g, upper_node, lower_node) && order_crossings(
            matrix.0,
            west_in_layer.0,
            east_in_layer.0,
            north_south.0,
            match parent {
                Some(c) => Some(c.0),
                None => None,
            },
        ) > order_crossings(
            matrix.1,
            west_in_layer.1,
            east_in_layer.1,
            north_south.1,
            match parent {
                Some(c) => Some(c.1),
                None => None,
            },
        )),
{
    if constraints_prevent_switch(g, upper_node, lower_node) {
        return false;
    }
    let mut upper_lower: i64 = matrix.0 as i64 + west_in_layer.0 as i64 + east_in_layer.0 as i64
        + north_south.0 as i64;
    let mut lower_upper: i64 = matrix.1 as i64 + west_in_layer.1 as i64 + east_in_layer.1 as i64
        + north_south.1 as i64;
    match parent {
        Some(c) => {
            upper_lower = upper_lower + c.0 as i64;
            lower_upper = lower_upper + c.1 as i64;
        },
        None => {},
    }
    upper_lower > lower_upper
}

/// Whether the upper node must stay above the lower one.
pub fn have_successor_constraints(g: &LGraph, upper_node: usize, lower_node: usize) -> (res: bool)
    requires
        upper_node < g.nodes@.len(),
    ensures
        res == successor_constrained(g, upper_node, lower_node),
{
    let constraints = &g.nodes[upper_node].in_layer_successor_constraints;
    let mut i: usize = 0;
    while i < constraints.len()
        invariant
            i <= constraints@.len(),
            constraints@ == g.nodes@[upper_node as int].in_layer_successor_constraints@,
            forall|k: int| 0 <= k < i ==> constraints@[k] != lower_node,
        decreases constraints@.len() - i,
    {
        if constraints[i] == lower_node {
            return true;
        }
        i += 1;
    }
    false
}

/// Whether layout units or edges on the facing sides forbid the switch.
pub fn have_layout_unit_constraints(g: &LGraph, upper_node: usize, lower_node: usize) -> (res: bool)
    requires
        g.wf(),
        upper_node < g.nodes@.len(),
        lower_node < g.nodes@.len(),
    ensures
        res == layout_unit_constrained(g, upper_node, lower_node),
{
    let neither_long_edge = g.nodes[upper_node].node_type != NodeType::LongEdge
        && g.nodes[lower_node].node_type != NodeType::LongEdge;
    let are_in_different_layout_units = match (
        g.nodes[upper_node].in_layer_layout_unit,
        g.nodes[lower_node].in_layer_layout_unit,
    ) {
        (Some(a), Some(b)) => a != b,
        (None, None) => false,
        _ => true,
    };
    let nodes_have_layout_units = part_of_multi_node_layout_unit(g, upper_node)
        || part_of_multi_node_layout_unit(g, lower_node);
    let upper_has_northern_edges = has_edges_on_side(g, upper_node, PortSide::North);
    let lower_has_southern_edges = has_edges_on_side(g, lower_node, PortSide::South);
    let nodes_have_layout_units = nodes_have_layout_units || has_edges_on_side(
        g,
        upper_node,
        PortSide::South,
    ) || has_edges_on_side(g, lower_node, PortSide::North);
    let has_layout_unit_constraint = (nodes_have_layout_units && are_in_different_layout_units)
        || upper_has_northern_edges || lower_has_southern_edges;
    neither_long_edge && has_layout_unit_constraint
}

/// Whether a port on the node's side has a north/south dummy or edges.
pub fn has_edges_on_side(g: &LGraph, n: usize, side: PortSide) -> (res: bool)
    requires
        g.wf(),
        n < g.nodes@.len(),
    ensures
        res == edges_on_side(g, n, side),
{
    let ports = g.port_side_view(n, side);
    let mut i: usize = 0;
    while i < ports.len()
        invariant
            g.wf(),
            n < g.nodes@.len(),
            ports@ == g.ports_on_side(n as int, side),
            i <= ports@.len(),
            forall|k: int|
                0 <= k < i ==> {
                    let p = #[trigger] ports@[k];
                    !(g.ports@[p as int].port_dummy is Some || degree(g, p as int) > 0)
                },
        decreases ports@.len() - i,
    {
        let p = ports[i];
        proof {
            assert(g.nodes@[n as int].ports@.filter(
                |p: usize| g.ports@[p as int].side == side,
            ).contains(p));
            g.nodes@[n as int].ports@.lemma_filter_contains_rev(
                |p: usize| g.ports@[p as int].side == side,
                p,
            );
        }
        if g.ports[p].port_dummy.is_some() || port_degree(g, p) > 0 {
            return true;
        }
        i += 1;
    }
    false
}

/// Whether the node belongs to a layout unit led by another node.
pub fn part_of_multi_node_layout_unit(g: &LGraph, n: usize) -> (res: bool)
    requires
        n < g.nodes@.len(),
    ensures
        res == in_multi_node_unit(g, n),
{
    match g.nodes[n].in_layer_layout_unit {
        Some(unit) => unit != n,
        None => false,
    }
}

/// Whether one node is normal and the other a north/south port dummy.
pub fn are_normal_and_north_south_port_dummy(g: &LGraph, upper_node: usize, lower_node: usize) -> (res:
    bool)
    requires
        upper_node < g.nodes@.len(),
        lower_node < g.nodes@.len(),
    ensures
        res == normal_and_north_south(g, upper_node, lower_node),
{
    (is_north_south_port_node(g, upper_node) && is_normal_node(g, lower_node)) || (
    is_north_south_port_node(g, lower_node) && is_normal_node(g, upper_node))
}

/// Whether the node is a normal node.
pub fn is_normal_node(g: &LGraph, n: usize) -> (res: bool)
    requires
        n < g.nodes@.len(),
    ensures
        res == (g.nodes@[n as int].node_type == NodeType::Normal),
{
    g.nodes[n].node_type == NodeType::Normal
}

/// Whether the node is a north/south port dummy.
pub fn is_north_south_port_node(g: &LGraph, n: usize) -> (res: bool)
    requires
        n < g.nodes@.len(),
    ensures
        res == (g.nodes@[n as int].node_type == NodeType::NorthSouthPort),
{
    g.nodes[n].node_type == NodeType::NorthSouthPort
}

/// The between-layer count of the filler for `x` above `y`: the count of
/// the pair when both ids index the matrix, 0 otherwise.
pub open spec fn matrix_count(f: &CrossingMatrixFiller, g: &LGraph, x: usize, y: usize) -> int {
    if f.in_matrix(g, x) && f.in_matrix(g, y) {
        fresh_counts(f.counter(), f.mode().0, f.mode().1, x, y).0 as int
    } else {
        0
    }
}

/// Decides whether switching two neighbouring nodes of the free layer
/// reduces crossings. It holds the crossing matrix filler and the counter of
/// north/south edges; the in-layer and parent-graph counts are made by the
/// layer-sweep crossings counter and handed to its decision.
pub struct SwitchDecider {
    north_south_counter: NorthSouthEdgeNeighbouringNodeCrossingsCounter,
    crossing_matrix_filler: CrossingMatrixFiller,
}

impl SwitchDecider {
    /// The crossing matrix filler.
    pub closed spec fn filler(&self) -> CrossingMatrixFiller {
        self.crossing_matrix_filler
    }

    /// The port positions of the north/south counter.
    pub closed spec fn ns_positions(&self) -> Seq<Option<usize>> {
        self.north_south_counter.positions()
    }

    /// A decider for the free layer with the given filler.
    pub fn new(g: &LGraph, free_layer: &Vec<usize>, crossing_matrix_filler: CrossingMatrixFiller) -> (res: Self)
        requires
            g.wf(),
            forall|i: int| 0 <= i < free_layer@.len() ==> #[trigger] free_layer@[i] < g.nodes@.len(),
        ensures
            res.filler() == crossing_matrix_filler,
            res.ns_positions() == ns_positions(g, Seq::new(g.ports@.len(), |i: int| None::<usize>), free_layer@),
    {
        let north_south_counter = NorthSouthEdgeNeighbouringNodeCrossingsCounter::new(g, free_layer);
        SwitchDecider { north_south_counter, crossing_matrix_filler }
    }

    /// Whether switching `upper_node` and `lower_node` reduces crossings
    /// (see `switch_reduces_crossings`): the between-layer counts come from
    /// the filler (see `matrix_count`), the north/south counts from the
    /// counter; `west_in_layer`, `east_in_layer` and `parent` are the
    /// in-layer counts of both sides and the parent-graph count, each for
    /// both orders. A constraint that prevents the switch answers at once.
    pub fn does_switch_reduce_crossings(
        &mut self,
        g: &LGraph,
        upper_node: usize,
        lower_node: usize,
        west_in_layer: (i32, i32),
        east_in_layer: (i32, i32),
        parent: Option<(i32, i32)>,
    ) -> (res: bool)
        requires
            g.wf(),
            upper_node < g.nodes@.len(),
            lower_node < g.nodes@.len(),
            old(self).filler().inv(),
            old(self).filler().id_names(g, upper_node),
            old(self).filler().id_names(g, lower_node),
        ensures
            final(self).filler().inv(),
            final(self).filler().free_layer() == old(self).filler().free_layer(),
            final(self).filler().mode() == old(self).filler().mode(),
            final(self).filler().counter().same_setup(&old(self).filler().counter()),
            final(self).ns_positions() == old(self).ns_positions(),
            res == (!switch_prevented(g, upper_node, lower_node) && {
                let ns = ns_counts(g, old(self).ns_positions(), upper_node, lower_node);
                order_crossings(
                    matrix_count(&old(self).filler(), g, upper_node, lower_node) as i32,
                    west_in_layer.0,
                    east_in_layer.0,
                    ns.0,
                    match parent {
                        Some(c) => Some(c.0),
                        None => None,
                    },
                ) > order_crossings(
                    matrix_count(&old(self).filler(), g, lower_node, upper_node) as i32,
                    west_in_layer.1,
                    east_in_layer.1,
                    ns.1,
                    match parent {
                        Some(c) => Some(c.1),
                        None => None,
                    },
                )
            }),
    {
        if constraints_prevent_switch(g, upper_node, lower_node) {
            proof {
                self.crossing_matrix_filler.counter().lemma_same_setup_refl();
            }
            return false;
        }
        self.north_south_counter.count_crossings(g, upper_node, lower_node);
        let ns_ul = self.north_south_counter.upper_lower_crossings();
        let ns_lu = self.north_south_counter.lower_upper_crossings();
        let ghost c0 = self.crossing_matrix_filler.counter();
        let ul = self.crossing_matrix_filler.crossing_matrix_entry(g, upper_node, lower_node);
        let ghost c1 = self.crossing_matrix_filler.counter();
        let lu = self.crossing_matrix_filler.crossing_matrix_entry(g, lower_node, upper_node);
        proof {
            c1.lemma_same_setup_counts(&c0);
            let f0 = old(self).filler();
            assert(fresh_counts(c1, f0.mode().0, f0.mode().1, lower_node, upper_node) == fresh_counts(
                c0,
                f0.mode().0,
                f0.mode().1,
                lower_node,
                upper_node,
            ));
            assert(ul as int == matrix_count(&f0, g, upper_node, lower_node));
            assert(lu as int == matrix_count(&f0, g, lower_node, upper_node));
            self.crossing_matrix_filler.counter().lemma_same_setup_trans(&c1, &c0);
        }
        switch_reduces_crossings(g, upper_node, lower_node, (ul, lu), west_in_layer, east_in_layer, (ns_ul, ns_lu), parent)
    }
}

} // verus!

//! Counts the crossings that north/south port dummies cause with their
//! neighbours in the same layer.
use vstd::prelude::*;

use crate::graph::{
    LGraph,
    NodeType,
    Origin,
    PortSide,
    degree,
    in_north_south_east_west_order,
    nsew_order,
    origin_node,
    origin_node_of,
    origin_port,
    origin_port_of,
    port_degree,
};
use crate::greedyswitch::between_layer_edge_two_node_crossings_counter::{
    assign_indices,
    clamp_i32,
    lemma_assign_indices,
};

verus! {

/// The port positions of a layer: for each node in turn, its southern ports
/// and then its northern ports, each side numbered from zero in
/// north-south-east-west order.
pub open spec fn ns_positions(g: &LGraph, table: Seq<Option<usize>>, layer: Seq<usize>) -> Seq<
    Option<usize>,
>
    decreases layer.len(),
{
    if layer.len() == 0 {
        table
    } else {
        let prev = ns_positions(g, table, layer.drop_last());
        let n = layer.last() as int;
        assign_indices(
            assign_indices(prev, nsew_order(g, n, PortSide::South)),
            nsew_order(g, n, PortSide::North),
        )
    }
}

/// The node has the given type.
pub open spec fn has_type(g: &LGraph, n: usize, t: NodeType) -> bool {
    g.nodes@[n as int].node_type == t
}

/// The two dummies were not created for the same node.
pub open spec fn different_origins(g: &LGraph, upper: usize, lower: usize) -> bool {
    !(origin_node(g, upper as int) is Some && origin_node(g, upper as int) == origin_node(
        g,
        lower as int,
    ))
}

/// The dummy was created for a northern port.
pub open spec fn north_of_normal_node(g: &LGraph, n: usize) -> bool {
    match origin_port(g, n as int) {
        Some(q) => q < g.ports@.len() && g.ports@[q as int].side == PortSide::North,
        None => false,
    }
}

/// The position of the port that a dummy was created for, or 0.
pub open spec fn origin_port_position(g: &LGraph, pos: Seq<Option<usize>>, n: usize) -> int {
    match origin_port(g, n as int) {
        Some(q) => if q < pos.len() {
            match pos[q as int] {
                Some(k) => k as int,
                None => 0,
            }
        } else {
            0
        },
        None => 0,
    }
}

/// The degree of the first port of a node on a side, or 0.
pub open spec fn first_port_degree(g: &LGraph, n: usize, side: PortSide) -> i32 {
    let ps = g.ports_on_side(n as int, side);
    if ps.len() == 0 {
        0
    } else {
        clamp_i32(degree(g, ps[0] as int))
    }
}

/// The number of ports of a node on a side that have a north/south dummy.
pub open spec fn ns_edge_count(g: &LGraph, n: usize, side: PortSide) -> i32 {
    clamp_i32(
        g.ports_on_side(n as int, side).filter(|p: usize| g.ports@[p as int].port_dummy is Some).len(),
    )
}

/// The crossings of two dummies of one node, the first further from it.
pub open spec fn two_dummy_counts(
    g: &LGraph,
    pos: Seq<Option<usize>>,
    further: usize,
    closer: usize,
) -> (i32, i32) {
    if origin_port_position(g, pos, further) > origin_port_position(g, pos, closer) {
        (first_port_degree(g, closer, PortSide::East), first_port_degree(g, further, PortSide::West))
    } else {
        (first_port_degree(g, closer, PortSide::West), first_port_degree(g, further, PortSide::East))
    }
}

/// The counts after the case of two north/south dummies of one node.
pub open spec fn counts_after_two_dummies(
    g: &LGraph,
    pos: Seq<Option<usize>>,
    u: usize,
    l: usize,
    acc: (i32, i32),
) -> (i32, i32) {
    if has_type(g, u, NodeType::NorthSouthPort) && has_type(g, l, NodeType::NorthSouthPort)
        && !different_origins(g, u, l) {
        if north_of_normal_node(g, u) {
            two_dummy_counts(g, pos, u, l)
        } else {
            two_dummy_counts(g, pos, l, u)
        }
    } else {
        acc
    }
}

/// The counts after the case of a north/south dummy next to a long edge dummy.
pub open spec fn counts_after_long_edge(g: &LGraph, u: usize, l: usize, acc: (i32, i32)) -> (
    i32,
    i32,
) {
    if has_type(g, u, NodeType::NorthSouthPort) && has_type(g, l, NodeType::LongEdge) {
        if north_of_normal_node(g, u) {
            (1, acc.1)
        } else {
            (acc.0, 1)
        }
    } else if has_type(g, l, NodeType::NorthSouthPort) && has_type(g, u, NodeType::LongEdge) {
        if north_of_normal_node(g, l) {
            (acc.0, 1)
        } else {
            (1, acc.1)
        }
    } else {
        acc
    }
}

/// The counts after the case of a normal node with north/south ports next to
/// a long edge dummy.
pub open spec fn counts_after_normal_node(g: &LGraph, u: usize, l: usize, acc: (i32, i32)) -> (
    i32,
    i32,
) {
    let first = if has_type(g, u, NodeType::Normal) && has_type(g, l, NodeType::LongEdge) {
        (ns_edge_count(g, u, PortSide::South), ns_edge_count(g, u, PortSide::North))
    } else {
        acc
    };
    if has_type(g, l, NodeType::Normal) && has_type(g, u, NodeType::LongEdge) {
        (ns_edge_count(g, l, PortSide::North), ns_edge_count(g, l, PortSide::South))
    } else {
        first
    }
}

/// The crossings with `u` above `l` and with `l` above `u`.
pub open spec fn ns_counts(g: &LGraph, pos: Seq<Option<usize>>, u: usize, l: usize) -> (i32, i32) {
    counts_after_normal_node(
        g,
        u,
        l,
        counts_after_long_edge(g, u, l, counts_after_two_dummies(g, pos, u, l, (0i32, 0i32))),
    )
}

/// Counts crossings between north/south dummies and neighbouring nodes.
pub struct NorthSouthEdgeNeighbouringNodeCrossingsCounter {
    upper_lower_crossings: i32,
    lower_upper_crossings: i32,
    port_positions: Vec<Option<usize>>,
    layer: Vec<usize>,
}

impl NorthSouthEdgeNeighbouringNodeCrossingsCounter {
    /// The port positions recorded for the layer.
    pub closed spec fn positions(&self) -> Seq<Option<usize>> {
        self.port_positions@
    }

    /// The counts last computed.
    pub closed spec fn counts(&self) -> (i32, i32) {
        (self.upper_lower_crossings, self.lower_upper_crossings)
    }

    /// A counter for the given layer.
    pub fn new(g: &LGraph, nodes: &Vec<usize>) -> (res: Self)
        requires
            g.wf(),
            forall|i: int| 0 <= i < nodes@.len() ==> #[trigger] nodes@[i] < g.nodes@.len(),
        ensures
            res.counts() == (0i32, 0i32),
            res.positions() == ns_positions(
                g,
                Seq::new(g.ports@.len(), |i: int| None::<usize>),
                nodes@,
            ),
    {
        let mut port_positions: Vec<Option<usize>> = Vec::new();
        let mut k: usize = 0;
        while k < g.ports.len()
            invariant
                k <= g.ports@.len(),
                port_positions@ == Seq::new(k as nat, |i: int| None::<usize>),
            decreases g.ports@.len() - k,
        {
            port_positions.push(None);
            k += 1;
        }
        let mut counter = NorthSouthEdgeNeighbouringNodeCrossingsCounter {
            upper_lower_crossings: 0,
            lower_upper_crossings: 0,
            port_positions,
            layer: nodes.clone(),
        };
        counter.initialize_port_positions(g, nodes);
        counter
    }

    fn initialize_port_positions(&mut self, g: &LGraph, nodes: &Vec<usize>)
        requires
            g.wf(),
            forall|i: int| 0 <= i < nodes@.len() ==> #[trigger] nodes@[i] < g.nodes@.len(),
        ensures
            final(self).counts() == old(self).counts(),
            final(self).port_positions@ == ns_positions(g, old(self).port_positions@, nodes@),
    {
        let ghost init = self.port_positions@;
        let mut i: usize = 0;
        assert(nodes@.take(0) == Seq::<usize>::empty());
        while i < nodes.len()
            invariant
                g.wf(),
                forall|i: int| 0 <= i < nodes@.len() ==> #[trigger] nodes@[i] < g.nodes@.len(),
                i <= nodes@.len(),
                self.counts() == old(self).counts(),
                init == old(self).port_positions@,
                self.port_positions@ == ns_positions(g, init, nodes@.take(i as int)),
            decreases nodes@.len() - i,
        {
            assert(nodes@.take(i as int + 1).drop_last() == nodes@.take(i as int));
            self.set_port_ids_on(g, nodes[i], PortSide::South);
            self.set_port_ids_on(g, nodes[i], PortSide::North);
            i += 1;
        }
        assert(nodes@.take(nodes@.len() as int) == nodes@);
    }

    fn set_port_ids_on(&mut self, g: &LGraph, n: usize, side: PortSide)
        requires
            g.wf(),
            n < g.nodes@.len(),
        ensures
            final(self).counts() == old(self).counts(),
            final(self).port_positions@ == assign_indices(
                old(self).port_positions@,
                nsew_order(g, n as int, side),
            ),
    {
        let ports = in_north_south_east_west_order(g, n, side);
        let ghost init = self.port_positions@;
        let mut i: usize = 0;
        assert(ports@.take(0) == Seq::<usize>::empty());
        while i < ports.len()
            invariant
                i <= ports@.len(),
                self.counts() == old(self).counts(),
                self.port_positions@ == assign_indices(init, ports@.take(i as int)),
            decreases ports@.len() - i,
        {
            let p = ports[i];
            assert(ports@.take(i as int + 1).drop_last() == ports@.take(i as int));
            if p < self.port_positions.len() {
                self.port_positions.set(p, Some(i));
            }
            i += 1;
        }
        assert(ports@.take(ports@.len() as int) == ports@);
    }

    /// Counts the crossings of the two nodes in both orders.
    pub fn count_crossings(&mut self, g: &LGraph, upper_node: usize, lower_node: usize)
        requires
            g.wf(),
            upper_node < g.nodes@.len(),
            lower_node < g.nodes@.len(),
        ensures
            final(self).positions() == old(self).positions(),
            final(self).counts() == ns_counts(g, old(self).positions(), upper_node, lower_node),
    {
        self.upper_lower_crossings = 0;
        self.lower_upper_crossings = 0;
        self.process_if_two_north_south_nodes(g, upper_node, lower_node);
        self.process_if_north_south_long_edge_dummy_crossing(g, upper_node, lower_node);
        self.process_if_normal_node_with_ns_ports_and_long_edge_dummy(g, upper_node, lower_node);
    }

    /// The crossings with the upper node above the lower one.
    pub fn upper_lower_crossings(&self) -> (res: i32)
        ensures
            res == self.counts().0,
    {
        self.upper_lower_crossings
    }

    /// The crossings with the lower node above the upper one.
    pub fn lower_upper_crossings(&self) -> (res: i32)
        ensures
            res == self.counts().1,
    {
        self.lower_upper_crossings
    }

    fn process_if_two_north_south_nodes(&mut self, g: &LGraph, upper_node: usize, lower_node: usize)
        requires
            g.wf(),
            upper_node < g.nodes@.len(),
            lower_node < g.nodes@.len(),
        ensures
            final(self).positions() == old(self).positions(),
            final(self).counts() == counts_after_two_dummies(
                g,
                old(self).positions(),
                upper_node,
                lower_node,
                old(self).counts(),
            ),
    {
        if self.is_north_south(g, upper_node) && self.is_north_south(g, lower_node)
            && !self.have_different_origins(g, upper_node, lower_node) {
            if self.is_north_of_normal_node(g, upper_node) {
                self.count_crossings_of_two_north_south_dummies(g, upper_node, lower_node);
            } else {
                self.count_crossings_of_two_north_south_dummies(g, lower_node, upper_node);
            }
        }
    }

    fn count_crossings_of_two_north_south_dummies(
        &mut self,
        g: &LGraph,
        further_from_normal: usize,
        closer_to_normal: usize,
    )
        requires
            g.wf(),
            further_from_normal < g.nodes@.len(),
            closer_to_normal < g.nodes@.len(),
        ensures
            final(self).positions() == old(self).positions(),
            final(self).counts() == two_dummy_counts(
                g,
                old(self).positions(),
                further_from_normal,
                closer_to_normal,
            ),
    {
        if self.origin_port_position_of(g, further_from_normal) > self.origin_port_position_of(
            g,
            closer_to_normal,
        ) {
            self.upper_lower_crossings = first_port_degree_of(g, closer_to_normal, PortSide::East);
            self.lower_upper_crossings = first_port_degree_of(g, further_from_normal, PortSide::West);
        } else {
            self.upper_lower_crossings = first_port_degree_of(g, closer_to_normal, PortSide::West);
            self.lower_upper_crossings = first_port_degree_of(g, further_from_normal, PortSide::East);
        }
    }

    fn process_if_north_south_long_edge_dummy_crossing(
        &mut self,
        g: &LGraph,
        upper_node: usize,
        lower_node: usize,
    )
        requires
            g.wf(),
            upper_node < g.nodes@.len(),
            lower_node < g.nodes@.len(),
        ensures
            final(self).positions() == old(self).positions(),
            final(self).counts() == counts_after_long_edge(
                g,
                upper_node,
                lower_node,
                old(self).counts(),
            ),
    {
        if self.is_north_south(g, upper_node) && self.is_long_edge_dummy(g, lower_node) {
            if self.is_north_of_normal_node(g, upper_node) {
                self.upper_lower_crossings = 1;
            } else {
                self.lower_upper_crossings = 1;
            }
        } else if self.is_north_south(g, lower_node) && self.is_long_edge_dummy(g, upper_node) {
            if self.is_north_of_normal_node(g, lower_node) {
                self.lower_upper_crossings = 1;
            } else {
                self.upper_lower_crossings = 1;
            }
        }
    }

    fn process_if_normal_node_with_ns_ports_and_long_edge_dummy(
        &mut self,
        g: &LGraph,
        upper_node: usize,
        lower_node: usize,
    )
        requires
            g.wf(),
            upper_node < g.nodes@.len(),
            lower_node < g.nodes@.len(),
        ensures
            final(self).positions() == old(self).positions(),
            final(self).counts() == counts_after_normal_node(
                g,
                upper_node,
                lower_node,
                old(self).counts(),
            ),
    {
        if self.is_normal(g, upper_node) && self.is_long_edge_dummy(g, lower_node) {
            self.upper_lower_crossings = self.number_of_north_south_edges(
                g,
                upper_node,
                PortSide::South,
            );
            self.lower_upper_crossings = self.number_of_north_south_edges(
                g,
                upper_node,
                PortSide::North,
            );
        }
        if self.is_normal(g, lower_node) && self.is_long_edge_dummy(g, upper_node) {
            self.upper_lower_crossings = self.number_of_north_south_edges(
                g,
                lower_node,
                PortSide::North,
            );
            self.lower_upper_crossings = self.number_of_north_south_edges(
                g,
                lower_node,
                PortSide::South,
            );
        }
    }

    fn number_of_north_south_edges(&self, g: &LGraph, n: usize, side: PortSide) -> (res: i32)
        requires
            g.wf(),
            n < g.nodes@.len(),
        ensures
            res == ns_edge_count(g, n, side),
    {
        let ports = g.port_side_view(n, side);
        let ghost pred = |p: usize| g.ports@[p as int].port_dummy is Some;
        let mut count: usize = 0;
        let mut i: usize = 0;
        assert(ports@.take(0) == Seq::<usize>::empty());
        while i < ports.len()
            invariant
                g.wf(),
                n < g.nodes@.len(),
                ports@ == g.ports_on_side(n as int, side),
                pred == (|p: usize| g.ports@[p as int].port_dummy is Some),
                i <= ports@.len(),
                count == ports@.take(i as int).filter(pred).len(),
                count <= i,
            decreases ports@.len() - i,
        {
            assert(ports@.take(i as int + 1).drop_last() == ports@.take(i as int));
            reveal_with_fuel(Seq::filter, 1);
            proof {
                let p = ports@[i as int];
                assert(g.nodes@[n as int].ports@.filter(
                    |p: usize| g.ports@[p as int].side == side,
                ).contains(p));
                g.nodes@[n as int].ports@.lemma_filter_contains_rev(
                    |p: usize| g.ports@[p as int].side == side,
                    p,
                );
                let k = choose|k: int|
                    0 <= k < g.nodes@[n as int].ports@.len() && g.nodes@[n as int].ports@[k] == p;
                assert(g.nodes@[n as int].ports@[k] < g.ports@.len());
            }
            if self.has_connected_north_south_edge(g, ports[i]) {
                count += 1;
            }
            i += 1;
        }
        assert(ports@.take(ports@.len() as int) == ports@);
        if count > i32::MAX as usize {
            i32::MAX
        } else {
            count as i32
        }
    }

    fn has_connected_north_south_edge(&self, g: &LGraph, p: usize) -> (res: bool)
        requires
            p < g.ports@.len(),
        ensures
            res == (g.ports@[p as int].port_dummy is Some),
    {
        g.ports[p].port_dummy.is_some()
    }

    fn have_different_origins(&self, g: &LGraph, upper_node: usize, lower_node: usize) -> (res: bool)
        requires
            upper_node < g.nodes@.len(),
            lower_node < g.nodes@.len(),
        ensures
            res == different_origins(g, upper_node, lower_node),
    {
        match origin_node_of(g, upper_node) {
            Some(origin) => match origin_node_of(g, lower_node) {
                Some(other) => origin != other,
                None => true,
            },
            None => true,
        }
    }

    fn origin_port_position_of(&self, g: &LGraph, n: usize) -> (res: usize)
        requires
            g.wf(),
            n < g.nodes@.len(),
        ensures
            res == origin_port_position(g, self.positions(), n),
    {
        match origin_port_of(g, n) {
            Some(q) => {
                if q < self.port_positions.len() {
                    match self.port_positions[q] {
                        Some(k) => k,
                        None => 0,
                    }
                } else {
                    0
                }
            },
            None => 0,
        }
    }

    fn is_north_of_normal_node(&self, g: &LGraph, n: usize) -> (res: bool)
        requires
            g.wf(),
            n < g.nodes@.len(),
        ensures
            res == north_of_normal_node(g, n),
    {
        match origin_port_of(g, n) {
            Some(q) => q < g.ports.len() && g.ports[q].side == PortSide::North,
            None => false,
        }
    }

    fn is_long_edge_dummy(&self, g: &LGraph, n: usize) -> (res: bool)
        requires
            n < g.nodes@.len(),
        ensures
            res == has_type(g, n, NodeType::LongEdge),
    {
        g.nodes[n].node_type == NodeType::LongEdge
    }

    fn is_north_south(&self, g: &LGraph, n: usize) -> (res: bool)
        requires
            n < g.nodes@.len(),
        ensures
            res == has_type(g, n, NodeType::NorthSouthPort),
    {
        g.nodes[n].node_type == NodeType::NorthSouthPort
    }

    fn is_normal(&self, g: &LGraph, n: usize) -> (res: bool)
        requires
            n < g.nodes@.len(),
        ensures
            res == has_type(g, n, NodeType::Normal),
    {
        g.nodes[n].node_type == NodeType::Normal
    }
}

/// The degree of the first port of a node on a side, or 0.
fn first_port_degree_of(g: &LGraph, n: usize, side: PortSide) -> (res: i32)
    requires
        g.wf(),
        n < g.nodes@.len(),
    ensures
        res == first_port_degree(g, n, side),
{
    let ports = g.port_side_view(n, side);
    if ports.len() == 0 {
        return 0;
    }
    proof {
        let p = ports@[0];
        assert(g.nodes@[n as int].ports@.filter(|p: usize| g.ports@[p as int].side == side).contains(
            p,
        ));
        g.nodes@[n as int].ports@.lemma_filter_contains_rev(
            |p: usize| g.ports@[p as int].side == side,
            p,
        );
    }
    let d = port_degree(g, ports[0]);
    if d > i32::MAX as usize {
        i32::MAX
    } else {
        d as i32
    }
}

/// The dummy stands for a port on the north side of its node: its first
/// port was made for a port of the graph that lies on the north side.
pub open spec fn stands_for_northern_port(g: &LGraph, n: usize) -> bool {
    g.nodes@[n as int].ports@.len() > 0 && (g.ports@[g.nodes@[n as int].ports@[0] as int].origin matches Origin::Port(q)
        && q < g.ports@.len() && g.ports@[q as int].side == PortSide::North)
}

/// A long edge passing a north/south port dummy crosses its edge exactly
/// when it runs on the node's side of the dummy: below a northern dummy and
/// above a southern one. So for a north/south dummy `u` and a long-edge
/// dummy `l`, the crossings with `u` above are 1 and with `l` above 0 when
/// `u` is northern, and the other way round when it is not; and the counts
/// of the two orders are those of the pair taken the other way round,
/// exchanged.
pub proof fn lemma_long_edge_crosses_on_the_node_side(g: &LGraph, pos: Seq<Option<usize>>, u: usize, l: usize)
    requires
        g.nodes@[u as int].node_type == NodeType::NorthSouthPort,
        g.nodes@[l as int].node_type == NodeType::LongEdge,
    ensures
        ns_counts(g, pos, u, l) == if stands_for_northern_port(g, u) {
            (1i32, 0i32)
        } else {
            (0i32, 1i32)
        },
        ns_counts(g, pos, l, u) == if stands_for_northern_port(g, u) {
            (0i32, 1i32)
        } else {
            (1i32, 0i32)
        },
        ns_counts(g, pos, u, l).0 == ns_counts(g, pos, l, u).1,
        ns_counts(g, pos, u, l).1 == ns_counts(g, pos, l, u).0,
{
}

/// A long edge passing a normal node crosses the edges of the node's
/// southern north/south dummies when it runs below the node and those of its
/// northern ones when it runs above; the counts of the two orders are those
/// of the pair taken the other way round, exchanged.
pub proof fn lemma_long_edge_crosses_normal_node_dummies(g: &LGraph, pos: Seq<Option<usize>>, u: usize, l: usize)
    requires
        g.nodes@[u as int].node_type == NodeType::Normal,
        g.nodes@[l as int].node_type == NodeType::LongEdge,
    ensures
        ns_counts(g, pos, u, l) == (
            clamp_i32(g.ports_on_side(u as int, PortSide::South).filter(|p: usize| g.ports@[p as int].port_dummy is Some).len()),
            clamp_i32(g.ports_on_side(u as int, PortSide::North).filter(|p: usize| g.ports@[p as int].port_dummy is Some).len()),
        ),
        ns_counts(g, pos, u, l).0 == ns_counts(g, pos, l, u).1,
        ns_counts(g, pos, u, l).1 == ns_counts(g, pos, l, u).0,
{
}

} // verus!

//! The layered graph that the intermediate processors work on.
//!
//! Nodes, ports and edges live in arenas and refer to each other by index.
//! A layer is the ordered list of the indices of its nodes.
use vstd::prelude::*;

use crate::graph_transformer::NodeLabelPlacement;

use crate::alternating_layer_unzipper::place_node_at_index;
use crate::hyperedge_dummy_merger::remove_from_layer;

verus! {

/// The alignment of a node.
#[derive(Clone, Copy, Debug, PartialEq, Eq, Structural)]
pub enum Alignment {
    Automatic,
    Left,
    Right,
    Top,
    Bottom,
    Center,
}

/// The side of a node that a port sits on.
#[derive(Clone, Copy, Debug, PartialEq, Eq, Structural)]
pub enum PortSide {
    Undefined,
    North,
    East,
    South,
    West,
}

/// The kind of a node of the layered graph.
#[derive(Clone, Copy, Debug, PartialEq, Eq, Structural)]
pub enum NodeType {
    Normal,
    LongEdge,
    ExternalPort,
    NorthSouthPort,
    Label,
    BreakingPoint,
    Placeholder,
    NonshiftingPlaceholder,
    BigNode,
}

/// The layer a node is constrained to.
#[derive(Clone, Copy, Debug, PartialEq, Eq, Structural)]
pub enum LayerConstraint {
    Unconstrained,
    First,
    FirstSeparate,
    Last,
    LastSeparate,
}

/// The position inside its layer a node is constrained to.
#[derive(Clone, Copy, Debug, PartialEq, Eq, Structural)]
pub enum InLayerConstraint {
    Unconstrained,
    Top,
    Bottom,
}

/// Which edges a node may have.
#[derive(Clone, Copy, Debug, PartialEq, Eq, Structural)]
pub enum EdgeConstraint {
    Unconstrained,
    IncomingOnly,
    OutgoingOnly,
}

/// The kind of ports whose edges are reversed.
#[derive(Clone, Copy, Debug, PartialEq, Eq, Structural)]
pub enum PortType {
    Undefined,
    Input,
    Output,
}

/// How freely the ports of a node may be placed.
#[derive(Clone, Copy, Debug, PartialEq, Eq, Structural)]
pub enum PortConstraints {
    Undefined,
    Free,
    FixedSide,
    FixedOrder,
    FixedRatio,
    FixedPos,
}

impl PortConstraints {
    pub open spec fn spec_is_side_fixed(self) -> bool {
        self is FixedSide || self is FixedOrder || self is FixedRatio || self is FixedPos
    }

    /// Whether the side of each port is fixed.
    pub fn is_side_fixed(&self) -> (res: bool)
        ensures
            res == self.spec_is_side_fixed(),
    {
        match self {
            PortConstraints::FixedSide | PortConstraints::FixedOrder
            | PortConstraints::FixedRatio | PortConstraints::FixedPos => true,
            _ => false,
        }
    }

    pub open spec fn spec_is_order_fixed(self) -> bool {
        self is FixedOrder || self is FixedRatio || self is FixedPos
    }

    /// Whether the order of the ports on each side is fixed.
    pub fn is_order_fixed(&self) -> (res: bool)
        ensures
            res == self.spec_is_order_fixed(),
    {
        match self {
            PortConstraints::FixedOrder | PortConstraints::FixedRatio | PortConstraints::FixedPos => true,
            _ => false,
        }
    }
}

/// What a dummy element was created for.
#[derive(Clone, Copy, Debug, PartialEq, Eq, Structural)]
pub enum Origin {
    Unset,
    Node(usize),
    Port(usize),
    Edge(usize),
}

/// A port of the layered graph.
pub struct LPort {
    /// The node the port belongs to.
    pub node: Option<usize>,
    pub side: PortSide,
    /// Whether the port has connections to nodes outside of its graph.
    pub connected_to_external_nodes: bool,
    /// The dummy node created for a north or south port.
    pub port_dummy: Option<usize>,
    pub origin: Origin,
    /// The fixed index of the port, if one was given.
    pub port_index: Option<i32>,
}

impl LPort {
    /// A fresh port that belongs to no node.
    pub fn new() -> (port: LPort)
        ensures
            port.node is None,
            port.side == PortSide::Undefined,
            port.connected_to_external_nodes,
            port.port_dummy is None,
            port.origin == Origin::Unset,
            port.port_index is None,
    {
        LPort {
            node: None,
            side: PortSide::Undefined,
            connected_to_external_nodes: true,
            port_dummy: None,
            origin: Origin::Unset,
            port_index: None,
        }
    }
}

/// An edge of the layered graph, from a source port to a target port.
pub struct LEdge {
    pub source: usize,
    pub target: usize,
    /// Whether the edge was reversed to break a cycle or honour a constraint.
    pub reversed: bool,
}

/// A node of the layered graph.
pub struct LNode {
    pub node_type: NodeType,
    /// The node's ports, in the order of the node.
    pub ports: Vec<usize>,
    /// The layer the node is in, if any.
    pub layer: Option<usize>,
    /// A scratch number that processors assign.
    pub id: i32,
    pub layer_constraint: Option<LayerConstraint>,
    pub in_layer_constraint: Option<InLayerConstraint>,
    pub edge_constraint: Option<EdgeConstraint>,
    pub port_constraints: Option<PortConstraints>,
    pub origin: Origin,
    pub in_layer_layout_unit: Option<usize>,
    pub in_layer_successor_constraints: Vec<usize>,
    pub ext_port_side: Option<PortSide>,
    pub layer_id: Option<i32>,
    pub position_id: Option<i32>,
    pub long_edge_source: Option<usize>,
    pub long_edge_target: Option<usize>,
    pub long_edge_has_label_dummies: Option<bool>,
    pub long_edge_before_label_dummy: Option<bool>,
    pub layer_split: Option<i32>,
    pub reset_on_long_edges: Option<bool>,
    pub minimize_edge_length: Option<bool>,
    /// The record of the breaking point this node marks, an index into the
    /// list of breaking point records.
    pub breaking_point_info: Option<usize>,
    /// Whether the node is a comment box, if that was set.
    pub comment_box: Option<bool>,
    /// The port of the node a comment box was attached to.
    pub comment_conn_port: Option<usize>,
    /// The alignment of the node, if one was set.
    pub alignment: Option<Alignment>,
    /// The external port dummy that this node stands in for.
    pub ext_port_replaced_dummy: Option<usize>,
    /// The labels a label dummy stands for, as indices into the list of
    /// labels.
    pub represented_labels: Option<Vec<usize>>,
    /// Where the node's labels go, if that was set.
    pub label_placement: Option<NodeLabelPlacement>,
}

impl LNode {
    /// A fresh node of the given type, without ports, layer or properties.
    pub fn new(node_type: NodeType) -> (node: LNode)
        ensures
            node.node_type == node_type,
            node.ports@.len() == 0,
            node.layer is None,
            node.id == 0,
            node.layer_constraint is None,
            node.in_layer_constraint is None,
            node.edge_constraint is None,
            node.port_constraints is None,
            node.origin == Origin::Unset,
            node.in_layer_layout_unit is None,
            node.in_layer_successor_constraints@.len() == 0,
            node.ext_port_side is None,
            node.layer_id is None,
            node.position_id is None,
            node.long_edge_source is None,
            node.long_edge_target is None,
            node.long_edge_has_label_dummies is None,
            node.long_edge_before_label_dummy is None,
            node.layer_split is None,
            node.reset_on_long_edges is None,
            node.minimize_edge_length is None,
            node.breaking_point_info is None,
            node.comment_box is None,
            node.comment_conn_port is None,
            node.alignment is None,
            node.ext_port_replaced_dummy is None,
            node.represented_labels is None,
            node.label_placement is None,
    {
        LNode {
            node_type,
            ports: Vec::new(),
            layer: None,
            id: 0,
            layer_constraint: None,
            in_layer_constraint: None,
            edge_constraint: None,
            port_constraints: None,
            origin: Origin::Unset,
            in_layer_layout_unit: None,
            in_layer_successor_constraints: Vec::new(),
            ext_port_side: None,
            layer_id: None,
            position_id: None,
            long_edge_source: None,
            long_edge_target: None,
            long_edge_has_label_dummies: None,
            long_edge_before_label_dummy: None,
            layer_split: None,
            reset_on_long_edges: None,
            minimize_edge_length: None,
            breaking_point_info: None,
            comment_box: None,
            comment_conn_port: None,
            alignment: None,
            ext_port_replaced_dummy: None,
            represented_labels: None,
            label_placement: None,
        }
    }
}

/// The layered graph: arenas of nodes, ports and edges, and the layers.
pub struct LGraph {
    pub nodes: Vec<LNode>,
    pub ports: Vec<LPort>,
    pub edges: Vec<LEdge>,
    /// Each layer lists its nodes from top to bottom.
    pub layers: Vec<Vec<usize>>,
    /// The nodes that are not yet placed in a layer.
    pub layerless_nodes: Vec<usize>,
}

impl LGraph {
    /// The edge arena holds at most half as many edges as a `usize` counts
    /// (an edge takes more than two bytes of memory); every index stored in
    /// the graph points into its arena, the ports of a
    /// node point back to it, and each layer holds distinct nodes that record
    /// that layer.
    pub open spec fn wf(&self) -> bool {
        &&& self.edges@.len() * 2 <= usize::MAX
        &&& forall|e: int|
            0 <= e < self.edges@.len() ==> #[trigger] self.edges@[e].source < self.ports@.len()
                && self.edges@[e].target < self.ports@.len()
        &&& forall|p: int|
            0 <= p < self.ports@.len() ==> (#[trigger] self.ports@[p].node matches Some(n) ==> n
                < self.nodes@.len())
        &&& forall|n: int, i: int|
            0 <= n < self.nodes@.len() && 0 <= i < self.nodes@[n].ports@.len() ==> {
                &&& #[trigger] self.nodes@[n].ports@[i] < self.ports@.len()
                &&& self.ports@[self.nodes@[n].ports@[i] as int].node == Some(n as usize)
            }
        &&& forall|l: int, i: int|
            0 <= l < self.layers@.len() && 0 <= i < self.layers@[l]@.len() ==> {
                &&& #[trigger] self.layers@[l]@[i] < self.nodes@.len()
                &&& self.nodes@[self.layers@[l]@[i] as int].layer == Some(l as usize)
            }
        &&& forall|l: int| 0 <= l < self.layers@.len() ==> #[trigger] self.layers@[l]@.no_duplicates()
        &&& forall|l: int|
            0 <= l < self.layerless_nodes@.len() ==> #[trigger] self.layerless_nodes@[l]
                < self.nodes@.len()
    }

    /// Each port that names a node is listed among that node's ports.
    pub open spec fn ports_listed(&self) -> bool {
        forall|p: int|
            0 <= p < self.ports@.len() ==> (#[trigger] self.ports@[p].node matches Some(n) ==> (n
                < self.nodes@.len() && self.nodes@[n as int].ports@.contains(p as usize)))
    }

    /// Each node that names a layer is listed in that layer.
    pub open spec fn layers_listed(&self) -> bool {
        forall|n: int|
            0 <= n < self.nodes@.len() ==> (#[trigger] self.nodes@[n].layer matches Some(l) ==> (l
                < self.layers@.len() && self.layers@[l as int]@.contains(n as usize)))
    }

    /// The node of the source port of an edge.
    pub open spec fn source_node(&self, e: int) -> Option<usize> {
        self.ports@[self.edges@[e].source as int].node
    }

    /// The node of the target port of an edge.
    pub open spec fn target_node(&self, e: int) -> Option<usize> {
        self.ports@[self.edges@[e].target as int].node
    }

    /// Source and target of the edge lie on the same node.
    pub open spec fn is_self_loop(&self, e: int) -> bool {
        self.source_node(e) == self.target_node(e)
    }

    /// The layer of a node, if it has one.
    pub open spec fn layer_of(&self, n: int) -> Option<usize> {
        self.nodes@[n].layer
    }

    /// Source and target lie on different nodes of the same layer.
    pub open spec fn is_in_layer_edge(&self, e: int) -> bool {
        &&& !self.is_self_loop(e)
        &&& self.source_node(e) matches Some(s)
        &&& self.target_node(e) matches Some(t)
        &&& self.layer_of(s as int) is Some
        &&& self.layer_of(s as int) == self.layer_of(t as int)
    }

    /// The edges leaving the given port, in the order of the edge arena.
    pub open spec fn outgoing_of(&self, p: int) -> Seq<usize> {
        Seq::new(self.edges@.len(), |e: int| e as usize).filter(
            |e: usize| self.edges@[e as int].source == p,
        )
    }

    /// The edges entering the given port, in the order of the edge arena.
    pub open spec fn incoming_of(&self, p: int) -> Seq<usize> {
        Seq::new(self.edges@.len(), |e: int| e as usize).filter(
            |e: usize| self.edges@[e as int].target == p,
        )
    }

    /// The ports of a node that sit on the given side, in the node's order.
    pub open spec fn ports_on_side(&self, n: int, side: PortSide) -> Seq<usize> {
        self.nodes@[n].ports@.filter(|p: usize| self.ports@[p as int].side == side)
    }

    /// Whether the edge runs between two layers and is no self loop.
    pub fn is_self_loop_exec(&self, e: usize) -> (res: bool)
        requires
            self.wf(),
            e < self.edges@.len(),
        ensures
            res == self.is_self_loop(e as int),
    {
        let s = self.edges[e].source;
        let t = self.edges[e].target;
        self.ports[s].node == self.ports[t].node
    }

    /// Whether the edge connects two different nodes of one layer.
    pub fn is_in_layer_edge_exec(&self, e: usize) -> (res: bool)
        requires
            self.wf(),
            e < self.edges@.len(),
        ensures
            res == self.is_in_layer_edge(e as int),
    {
        if self.is_self_loop_exec(e) {
            return false;
        }
        let s = self.edges[e].source;
        let t = self.edges[e].target;
        match (self.ports[s].node, self.ports[t].node) {
            (Some(sn), Some(tn)) => {
                self.nodes[sn].layer.is_some() && self.nodes[sn].layer == self.nodes[tn].layer
            },
            _ => false,
        }
    }

    /// The edges leaving the given port.
    pub fn outgoing_edges(&self, p: usize) -> (res: Vec<usize>)
        ensures
            res@ == self.outgoing_of(p as int),
    {
        let mut res: Vec<usize> = Vec::new();
        let ghost all = Seq::new(self.edges@.len(), |e: int| e as usize);
        let ghost pred = |e: usize| self.edges@[e as int].source == p;
        let mut e: usize = 0;
        while e < self.edges.len()
            invariant
                e <= self.edges@.len(),
                all == Seq::new(self.edges@.len(), |e: int| e as usize),
                pred == (|e: usize| self.edges@[e as int].source == p),
                res@ == all.take(e as int).filter(pred),
            decreases self.edges@.len() - e,
        {
            assert(all.take(e as int + 1).drop_last() == all.take(e as int));
            reveal_with_fuel(Seq::filter, 1);
            if self.edges[e].source == p {
                res.push(e);
            }
            e += 1;
        }
        assert(all.take(self.edges@.len() as int) == all);
        res
    }

    /// The edges entering the given port.
    pub fn incoming_edges(&self, p: usize) -> (res: Vec<usize>)
        ensures
            res@ == self.incoming_of(p as int),
    {
        let mut res: Vec<usize> = Vec::new();
        let ghost all = Seq::new(self.edges@.len(), |e: int| e as usize);
        let ghost pred = |e: usize| self.edges@[e as int].target == p;
        let mut e: usize = 0;
        while e < self.edges.len()
            invariant
                e <= self.edges@.len(),
                all == Seq::new(self.edges@.len(), |e: int| e as usize),
                pred == (|e: usize| self.edges@[e as int].target == p),
                res@ == all.take(e as int).filter(pred),
            decreases self.edges@.len() - e,
        {
            assert(all.take(e as int + 1).drop_last() == all.take(e as int));
            reveal_with_fuel(Seq::filter, 1);
            if self.edges[e].target == p {
                res.push(e);
            }
            e += 1;
        }
        assert(all.take(self.edges@.len() as int) == all);
        res
    }

    /// The ports of a node on the given side, in the node's order.
    pub fn port_side_view(&self, n: usize, side: PortSide) -> (res: Vec<usize>)
        requires
            self.wf(),
            n < self.nodes@.len(),
        ensures
            res@ == self.ports_on_side(n as int, side),
    {
        let ghost ps = self.nodes@[n as int].ports@;
        let ghost pred = |p: usize| self.ports@[p as int].side == side;
        let mut res: Vec<usize> = Vec::new();
        let mut i: usize = 0;
        while i < self.nodes[n].ports.len()
            invariant
                self.wf(),
                n < self.nodes@.len(),
                ps == self.nodes@[n as int].ports@,
                pred == (|p: usize| self.ports@[p as int].side == side),
                i <= ps.len(),
                res@ == ps.take(i as int).filter(pred),
            decreases ps.len() - i,
        {
            assert(ps.take(i as int + 1).drop_last() == ps.take(i as int));
            reveal_with_fuel(Seq::filter, 1);
            let p = self.nodes[n].ports[i];
            if self.ports[p].side == side {
                res.push(p);
            }
            i += 1;
        }
        assert(ps.take(ps.len() as int) == ps);
        res
    }
}

/// A copy of a list of node lists.
pub fn copy_layers(v: &Vec<Vec<usize>>) -> (res: Vec<Vec<usize>>)
    ensures
        res@.len() == v@.len(),
        forall|i: int| 0 <= i < v@.len() ==> #[trigger] res@[i]@ == v@[i]@,
{
    let mut res: Vec<Vec<usize>> = Vec::new();
    let mut i: usize = 0;
    while i < v.len()
        invariant
            i <= v@.len(),
            res@.len() == i,
            forall|k: int| 0 <= k < i ==> #[trigger] res@[k]@ == v@[k]@,
        decreases v@.len() - i,
    {
        let mut row: Vec<usize> = Vec::new();
        let mut j: usize = 0;
        while j < v[i].len()
            invariant
                i < v@.len(),
                j <= v@[i as int]@.len(),
                row@ == v@[i as int]@.take(j as int),
            decreases v@[i as int]@.len() - j,
        {
            row.push(v[i][j]);
            assert(v@[i as int]@.take(j as int + 1) == v@[i as int]@.take(j as int).push(
                v@[i as int]@[j as int],
            ));
            j += 1;
        }
        assert(v@[i as int]@.take(v@[i as int]@.len() as int) == v@[i as int]@);
        res.push(row);
        i += 1;
    }
    res
}

/// A copy of a list of numbers.
pub fn copy_i32s(v: &Vec<i32>) -> (res: Vec<i32>)
    ensures
        res@ == v@,
{
    let mut res: Vec<i32> = Vec::new();
    let mut j: usize = 0;
    while j < v.len()
        invariant
            j <= v@.len(),
            res@ == v@.take(j as int),
        decreases v@.len() - j,
    {
        res.push(v[j]);
        assert(v@.take(j as int + 1) == v@.take(j as int).push(v@[j as int]));
        j += 1;
    }
    assert(v@.take(v@.len() as int) == v@);
    res
}

/// The number of edges at a port.
pub open spec fn degree(g: &LGraph, p: int) -> nat {
    g.incoming_of(p).len() + g.outgoing_of(p).len()
}

/// The node a dummy node was created for.
pub open spec fn origin_node(g: &LGraph, n: int) -> Option<usize> {
    match g.nodes@[n].origin {
        Origin::Node(o) => Some(o),
        _ => None,
    }
}

/// The port that the first port of a dummy node was created for.
pub open spec fn origin_port(g: &LGraph, n: int) -> Option<usize> {
    if g.nodes@[n].ports@.len() == 0 {
        None
    } else {
        match g.ports@[g.nodes@[n].ports@[0] as int].origin {
            Origin::Port(q) => Some(q),
            _ => None,
        }
    }
}

/// The number of edges at a port.
pub fn port_degree(g: &LGraph, p: usize) -> (res: usize)
    requires
        g.wf(),
    ensures
        res == degree(g, p as int),
{
    let inc = g.incoming_edges(p);
    let out = g.outgoing_edges(p);
    proof {
        let all = Seq::new(g.edges@.len(), |e: int| e as usize);
        all.lemma_filter_len(|e: usize| g.edges@[e as int].target == p);
        all.lemma_filter_len(|e: usize| g.edges@[e as int].source == p);
    }
    inc.len() + out.len()
}

/// The node a dummy node was created for.
pub fn origin_node_of(g: &LGraph, n: usize) -> (res: Option<usize>)
    requires
        n < g.nodes@.len(),
    ensures
        res == origin_node(g, n as int),
{
    match g.nodes[n].origin {
        Origin::Node(o) => Some(o),
        _ => None,
    }
}

/// The port that the first port of a dummy node was created for.
pub fn origin_port_of(g: &LGraph, n: usize) -> (res: Option<usize>)
    requires
        g.wf(),
        n < g.nodes@.len(),
    ensures
        res == origin_port(g, n as int),
{
    if g.nodes[n].ports.len() == 0 {
        return None;
    }
    let p = g.nodes[n].ports[0];
    match g.ports[p].origin {
        Origin::Port(q) => Some(q),
        _ => None,
    }
}

/// The ports of a node on one side in north-south-east-west order: ports on
/// the eastern and northern side keep the node's order, those on the southern
/// and western side are reversed; an undefined side has no ports.
pub open spec fn nsew_order(g: &LGraph, n: int, side: PortSide) -> Seq<usize> {
    match side {
        PortSide::East | PortSide::North => g.ports_on_side(n, side),
        PortSide::South | PortSide::West => g.ports_on_side(n, side).reverse(),
        PortSide::Undefined => Seq::empty(),
    }
}

/// The ports of a node on one side in north-south-east-west order.
pub fn in_north_south_east_west_order(g: &LGraph, n: usize, side: PortSide) -> (res: Vec<usize>)
    requires
        g.wf(),
        n < g.nodes@.len(),
    ensures
        res@ == nsew_order(g, n as int, side),
{
    match side {
        PortSide::East | PortSide::North => g.port_side_view(n, side),
        PortSide::South | PortSide::West => {
            let view = g.port_side_view(n, side);
            let mut res: Vec<usize> = Vec::new();
            let mut i: usize = view.len();
            while i > 0
                invariant
                    i <= view@.len(),
                    res@ == view@.subrange(i as int, view@.len() as int).reverse(),
                decreases i,
            {
                i -= 1;
                res.push(view[i]);
                assert(res@ == view@.subrange(i as int, view@.len() as int).reverse());
            }
            res
        },
        PortSide::Undefined => Vec::new(),
    }
}

/// Two nodes agree on everything but their layer.
pub open spec fn same_but_layer(a: LNode, b: LNode) -> bool {
    &&& a.node_type == b.node_type
    &&& a.ports == b.ports
    &&& a.id == b.id
    &&& a.layer_constraint == b.layer_constraint
    &&& a.in_layer_constraint == b.in_layer_constraint
    &&& a.edge_constraint == b.edge_constraint
    &&& a.port_constraints == b.port_constraints
    &&& a.origin == b.origin
    &&& a.in_layer_layout_unit == b.in_layer_layout_unit
    &&& a.in_layer_successor_constraints == b.in_layer_successor_constraints
    &&& a.ext_port_side == b.ext_port_side
    &&& a.layer_id == b.layer_id
    &&& a.position_id == b.position_id
    &&& a.long_edge_source == b.long_edge_source
    &&& a.long_edge_target == b.long_edge_target
    &&& a.long_edge_has_label_dummies == b.long_edge_has_label_dummies
    &&& a.long_edge_before_label_dummy == b.long_edge_before_label_dummy
    &&& a.layer_split == b.layer_split
    &&& a.reset_on_long_edges == b.reset_on_long_edges
    &&& a.minimize_edge_length == b.minimize_edge_length
    &&& a.breaking_point_info == b.breaking_point_info
    &&& a.comment_box == b.comment_box
    &&& a.comment_conn_port == b.comment_conn_port
    &&& a.alignment == b.alignment
    &&& a.ext_port_replaced_dummy == b.ext_port_replaced_dummy
    &&& a.represented_labels == b.represented_labels
    &&& a.label_placement == b.label_placement
}

/// Takes the list of layer `l` out of the graph, leaving it empty.
pub fn take_layer(g: &mut LGraph, l: usize) -> (res: Vec<usize>)
    requires
        l < old(g).layers@.len(),
    ensures
        res@ == old(g).layers@[l as int]@,
        final(g).nodes == old(g).nodes,
        final(g).ports == old(g).ports,
        final(g).edges == old(g).edges,
        final(g).layerless_nodes == old(g).layerless_nodes,
        final(g).layers@.len() == old(g).layers@.len(),
        final(g).layers@[l as int]@.len() == 0,
        forall|k: int| 0 <= k < old(g).layers@.len() && k != l ==> #[trigger] final(g).layers@[k]
            == old(g).layers@[k],
{
    let empty: Vec<usize> = Vec::new();
    let res = copy_list(&g.layers[l]);
    g.layers[l] = empty;
    res
}

/// A copy of a list of nodes.
pub fn copy_list(v: &Vec<usize>) -> (res: Vec<usize>)
    ensures
        res@ == v@,
{
    let mut res: Vec<usize> = Vec::new();
    let mut j: usize = 0;
    while j < v.len()
        invariant
            j <= v@.len(),
            res@ == v@.take(j as int),
        decreases v@.len() - j,
    {
        res.push(v[j]);
        assert(v@.take(j as int + 1) == v@.take(j as int).push(v@[j as int]));
        j += 1;
    }
    assert(v@.take(v@.len() as int) == v@);
    res
}

/// Removing an element from a list without duplicates leaves a list without
/// duplicates that holds exactly the other elements.
pub proof fn lemma_remove_unique(s: Seq<usize>, i: int)
    requires
        s.no_duplicates(),
        0 <= i < s.len(),
    ensures
        s.remove(i).no_duplicates(),
        forall|x: usize| #[trigger] s.remove(i).contains(x) <==> (s.contains(x) && x != s[i]),
{
    let r = s.remove(i);
    assert forall|a: int, b: int| 0 <= a < r.len() && 0 <= b < r.len() && a != b implies r[a] != r[b] by {
        let a2 = if a < i { a } else { a + 1 };
        let b2 = if b < i { b } else { b + 1 };
        assert(r[a] == s[a2] && r[b] == s[b2]);
    }
    assert forall|x: usize| #[trigger] r.contains(x) <==> (s.contains(x) && x != s[i]) by {
        if r.contains(x) {
            let a = choose|a: int| 0 <= a < r.len() && r[a] == x;
            let a2 = if a < i { a } else { a + 1 };
            assert(s[a2] == x);
        }
        if s.contains(x) && x != s[i] {
            let a = choose|a: int| 0 <= a < s.len() && s[a] == x;
            if a < i {
                assert(r[a] == x);
            } else {
                assert(r[a - 1] == x);
            }
        }
    }
}


/// The lists of the layers, as sequences.
pub open spec fn layer_views(g: &LGraph) -> Seq<Seq<usize>> {
    g.layers@.map_values(|v: Vec<usize>| v@)
}

/// The layers after node `n` left the layer `from` that it recorded, if
/// any, and joined the end of layer `l`.
pub open spec fn moved_layers(ls: Seq<Seq<usize>>, from: Option<usize>, n: usize, l: int) -> Seq<
    Seq<usize>,
> {
    let left = match from {
        Some(k) => ls.update(k as int, ls[k as int].remove(ls[k as int].index_of(n))),
        None => ls,
    };
    left.update(l, left[l].push(n))
}

/// In a list without duplicates, the index of an element is where it is.
pub proof fn lemma_index_of_unique(s: Seq<usize>, i: int)
    requires
        s.no_duplicates(),
        0 <= i < s.len(),
    ensures
        s.index_of(s[i]) == i,
{
    assert(s.contains(s[i]));
    let j = s.index_of(s[i]);
    assert(0 <= j < s.len() && s[j] == s[i]);
}

/// Moves node `n` to the end of layer `l`, taking it out of the layer it
/// was in first (also when that is `l`).
pub fn set_layer(g: &mut LGraph, n: usize, l: usize)
    requires
        old(g).wf(),
        old(g).layers_listed(),
        n < old(g).nodes@.len(),
        l < old(g).layers@.len(),
    ensures
        final(g).wf(),
        final(g).layers_listed(),
        final(g).ports == old(g).ports,
        final(g).edges == old(g).edges,
        final(g).layerless_nodes == old(g).layerless_nodes,
        final(g).layers@.len() == old(g).layers@.len(),
        layer_views(final(g)) == moved_layers(
            layer_views(old(g)),
            old(g).nodes@[n as int].layer,
            n,
            l as int,
        ),
        final(g).nodes@.len() == old(g).nodes@.len(),
        final(g).nodes@[n as int].layer == Some(l),
        same_but_layer(final(g).nodes@[n as int], old(g).nodes@[n as int]),
        forall|m: int| 0 <= m < old(g).nodes@.len() && m != n ==> #[trigger] final(g).nodes@[m]
            == old(g).nodes@[m],
{
    let ghost g0 = *g;
    let ghost ls0 = layer_views(&g0);
    let ghost mut ls1 = ls0;
    match g.nodes[n].layer {
        Some(k) => {
            assert(g0.layers@[k as int]@.contains(n));
            let mut i: usize = 0;
            while i < g.layers[k].len() && g.layers[k][i] != n
                invariant
                    *g == g0,
                    k < g.layers@.len(),
                    g.layers@[k as int]@.contains(n),
                    i <= g.layers@[k as int]@.len(),
                    forall|j: int| 0 <= j < i ==> g.layers@[k as int]@[j] != n,
                decreases g.layers@[k as int]@.len() - i,
            {
                i += 1;
            }
            proof {
                if i == g.layers@[k as int]@.len() {
                    let j = choose|j: int| 0 <= j < g0.layers@[k as int]@.len() && g0.layers@[k as int]@[j] == n;
                    assert(false);
                }
                lemma_index_of_unique(g0.layers@[k as int]@, i as int);
            }
            remove_from_layer(g, k, i, n);
            proof {
                ls1 = ls0.update(k as int, ls0[k as int].remove(ls0[k as int].index_of(n)));
                assert(layer_views(g) =~= ls1) by {
                    assert forall|x: int| 0 <= x < ls1.len() implies #[trigger] layer_views(g)[x] == ls1[x] by {
                        if x != k {
                            assert(g.layers@[x] == g0.layers@[x]);
                        }
                    }
                }
            }
        },
        None => {
            assert(layer_views(g) == ls1);
        },
    }
    let ghost g1 = *g;
    let len = g.layers[l].len();
    place_node_at_index(g, n, l, len);
    proof {
        let target = moved_layers(ls0, g0.nodes@[n as int].layer, n, l as int);
        assert(g1.layers@[l as int]@.insert(len as int, n) =~= g1.layers@[l as int]@.push(n));
        assert(layer_views(g) =~= target) by {
            assert forall|x: int| 0 <= x < target.len() implies #[trigger] layer_views(g)[x] == target[x] by {
                if x != l {
                    assert(g.layers@[x] == g1.layers@[x]);
                }
            }
        }
        assert forall|m: int|
            0 <= m < g.nodes@.len() implies (#[trigger] g.nodes@[m].layer matches Some(j) ==> (j
                < g.layers@.len() && g.layers@[j as int]@.contains(m as usize))) by {
            assert(g0.nodes.len() == g0.nodes@.len());
            if m != n {
                if let Some(j) = g.nodes@[m].layer {
                    assert(g0.nodes@[m] == g.nodes@[m]);
                    assert(g0.layers@[j as int]@.contains(m as usize));
                    assert(j < g0.layers@.len());
                    assert(ls0[j as int] == g0.layers@[j as int]@);
                    if g0.nodes@[n as int].layer == Some(j) {
                        let i0 = g0.layers@[j as int]@.index_of(n);
                        assert(g0.layers@[j as int]@.contains(n));
                        assert(0 <= i0 < g0.layers@[j as int]@.len() && g0.layers@[j as int]@[i0] == n);
                        lemma_remove_unique(g0.layers@[j as int]@, i0);
                        assert(ls1[j as int] == g0.layers@[j as int]@.remove(i0));
                    } else {
                        assert(ls1[j as int] == ls0[j as int]);
                    }
                    assert(ls1[j as int].contains(m as usize));
                    if j == l {
                        assert(layer_views(g)[j as int] == ls1[j as int].push(n));
                        let q = choose|q: int| 0 <= q < ls1[j as int].len() && ls1[j as int][q] == m;
                        assert(layer_views(g)[j as int][q] == m);
                    } else {
                        assert(layer_views(g)[j as int] == ls1[j as int]);
                    }
                    assert(layer_views(g)[j as int] == g.layers@[j as int]@);
                }
            } else {
                assert(layer_views(g)[l as int] == g.layers@[l as int]@);
                assert(g.layers@[l as int]@[g.layers@[l as int]@.len() - 1] == n);
            }
        }
    }
}

/// The layer a node records once a layer was inserted at `at`.
pub open spec fn layer_after_insert(layer: Option<usize>, at: int) -> Option<usize> {
    match layer {
        Some(k) => if k >= at {
            Some((k + 1) as usize)
        } else {
            Some(k)
        },
        None => None,
    }
}

/// Inserts an empty layer at index `at`; the nodes of the layers from `at`
/// on record their layer one higher.
pub fn insert_layer(g: &mut LGraph, at: usize)
    requires
        old(g).wf(),
        old(g).layers_listed(),
        at <= old(g).layers@.len(),
        old(g).layers@.len() < usize::MAX,
    ensures
        final(g).wf(),
        final(g).layers_listed(),
        final(g).ports == old(g).ports,
        final(g).edges == old(g).edges,
        final(g).layerless_nodes == old(g).layerless_nodes,
        final(g).layers@.len() == old(g).layers@.len() + 1,
        layer_views(final(g)) == layer_views(old(g)).insert(at as int, Seq::<usize>::empty()),
        final(g).nodes@.len() == old(g).nodes@.len(),
        forall|m: int|
            0 <= m < old(g).nodes@.len() ==> same_but_layer(#[trigger] final(g).nodes@[m], old(g).nodes@[m])
                && final(g).nodes@[m].layer == layer_after_insert(old(g).nodes@[m].layer, at as int),
{
    let ghost g0 = *g;
    let mut m: usize = 0;
    while m < g.nodes.len()
        invariant
            g0.wf(),
            g0.layers_listed(),
            g0.layers@.len() < usize::MAX,
            g.ports == g0.ports,
            g.edges == g0.edges,
            g.layers == g0.layers,
            g.layerless_nodes == g0.layerless_nodes,
            g.nodes@.len() == g0.nodes@.len(),
            m <= g.nodes@.len(),
            forall|x: int|
                0 <= x < g0.nodes@.len() ==> same_but_layer(#[trigger] g.nodes@[x], g0.nodes@[x])
                    && g.nodes@[x].layer == if x < m {
                    layer_after_insert(g0.nodes@[x].layer, at as int)
                } else {
                    g0.nodes@[x].layer
                },
        decreases g.nodes@.len() - m,
    {
        match g.nodes[m].layer {
            Some(k) => {
                if k >= at {
                    assert(g0.nodes@[m as int].layer == Some(k));
                    assert(k < g0.layers@.len());
                    g.nodes[m].layer = Some(k + 1);
                }
            },
            None => {},
        }
        m += 1;
    }
    let ghost g1 = *g;
    let empty: Vec<usize> = Vec::new();
    g.layers.insert(at, empty);
    proof {
        let ls0 = layer_views(&g0);
        assert(layer_views(g) =~= ls0.insert(at as int, Seq::<usize>::empty())) by {
            assert forall|x: int| 0 <= x < layer_views(g).len() implies #[trigger] layer_views(g)[x]
                == ls0.insert(at as int, Seq::<usize>::empty())[x] by {
                if x < at {
                    assert(g.layers@[x] == g0.layers@[x]);
                } else if x > at {
                    assert(g.layers@[x] == g0.layers@[x - 1]);
                }
            }
        }
        assert forall|k: int, i: int|
            0 <= k < g.layers@.len() && 0 <= i < g.layers@[k]@.len() implies {
                &&& #[trigger] g.layers@[k]@[i] < g.nodes@.len()
                &&& g.nodes@[g.layers@[k]@[i] as int].layer == Some(k as usize)
            } by {
            let k0 = if k < at { k } else { k - 1 };
            assert(k != at);
            assert(g.layers@[k] == g0.layers@[k0]);
            assert(g0.layers@[k0]@[i] < g0.nodes@.len());
            assert(g0.nodes@[g0.layers@[k0]@[i] as int].layer == Some(k0 as usize));
        }
        assert forall|k: int| 0 <= k < g.layers@.len() implies #[trigger] g.layers@[k]@.no_duplicates() by {
            if k < at {
                assert(g.layers@[k] == g0.layers@[k]);
            } else if k > at {
                assert(g.layers@[k] == g0.layers@[k - 1]);
            } else {
                assert(g.layers@[k]@ == Seq::<usize>::empty());
            }
        }
        assert forall|x: int, j: int|
            0 <= x < g.nodes@.len() && 0 <= j < g.nodes@[x].ports@.len() implies {
                &&& #[trigger] g.nodes@[x].ports@[j] < g.ports@.len()
                &&& g.ports@[g.nodes@[x].ports@[j] as int].node == Some(x as usize)
            } by {
            assert(g.nodes@[x].ports@[j] == g0.nodes@[x].ports@[j]);
        }
        assert forall|x: int|
            0 <= x < g.nodes@.len() implies (#[trigger] g.nodes@[x].layer matches Some(j) ==> (j
                < g.layers@.len() && g.layers@[j as int]@.contains(x as usize))) by {
            if let Some(j0) = g0.nodes@[x].layer {
                assert(g0.layers@[j0 as int]@.contains(x as usize));
                let j = if j0 >= at { j0 + 1 } else { j0 as int };
                assert(g.layers@[j] == g0.layers@[j0 as int]);
            }
        }
    }
}


/// The number of non-empty layers in front of layer `k`.
pub open spec fn nonempty_before(ls: Seq<Seq<usize>>, k: int) -> nat {
    ls.take(k).filter(|s: Seq<usize>| s.len() > 0).len()
}

/// The layer a node records once the empty layers were dropped.
pub open spec fn layer_after_retain(ls: Seq<Seq<usize>>, layer: Option<usize>) -> Option<usize> {
    match layer {
        Some(k) => Some(nonempty_before(ls, k as int) as usize),
        None => None,
    }
}

/// Drops the empty layers; each node records the index its layer has among
/// the layers that are left.
pub fn remove_empty_layers(g: &mut LGraph)
    requires
        old(g).wf(),
        old(g).layers_listed(),
    ensures
        final(g).wf(),
        final(g).layers_listed(),
        final(g).ports == old(g).ports,
        final(g).edges == old(g).edges,
        final(g).layerless_nodes == old(g).layerless_nodes,
        layer_views(final(g)) == layer_views(old(g)).filter(|s: Seq<usize>| s.len() > 0),
        forall|l: int| 0 <= l < final(g).layers@.len() ==> #[trigger] final(g).layers@[l]@.len() > 0,
        final(g).nodes@.len() == old(g).nodes@.len(),
        forall|m: int|
            0 <= m < old(g).nodes@.len() ==> same_but_layer(#[trigger] final(g).nodes@[m], old(g).nodes@[m])
                && final(g).nodes@[m].layer == layer_after_retain(layer_views(old(g)), old(g).nodes@[m].layer),
{
    let ghost g0 = *g;
    let ghost ls0 = layer_views(g);
    let ghost keep = |s: Seq<usize>| s.len() > 0;
    let mut kept: Vec<Vec<usize>> = Vec::new();
    let mut index_map: Vec<usize> = Vec::new();
    let ghost mut origin: Seq<int> = Seq::empty();
    let mut k: usize = 0;
    while k < g.layers.len()
        invariant
            *g == g0,
            ls0 == layer_views(&g0),
            keep == (|s: Seq<usize>| s.len() > 0),
            k <= g.layers@.len(),
            kept@.map_values(|v: Vec<usize>| v@) == ls0.take(k as int).filter(keep),
            index_map@.len() == k,
            origin.len() == kept@.len(),
            forall|j: int| 0 <= j < k ==> #[trigger] index_map@[j] == nonempty_before(ls0, j),
            forall|j: int|
                0 <= j < k && ls0[j].len() > 0 ==> #[trigger] index_map@[j] < kept@.len()
                    && origin[index_map@[j] as int] == j,
            forall|x: int|
                0 <= x < kept@.len() ==> 0 <= #[trigger] origin[x] < k && kept@[x]@ == ls0[origin[x]]
                    && index_map@[origin[x]] == x,
        decreases g.layers@.len() - k,
    {
        proof {
            assert(ls0.take(k as int + 1) == ls0.take(k as int).push(ls0[k as int]));
            ls0.take(k as int).lemma_filter_push(ls0[k as int], keep);
        }
        let ghost before = kept@;
        index_map.push(kept.len());
        if g.layers[k].len() > 0 {
            let copy = copy_list(&g.layers[k]);
            kept.push(copy);
            proof {
                origin = origin.push(k as int);
                assert(kept@.map_values(|v: Vec<usize>| v@) =~= before.map_values(|v: Vec<usize>| v@).push(ls0[k as int]));
            }
        }
        k += 1;
    }
    assert(ls0.take(ls0.len() as int) == ls0);
    let mut m: usize = 0;
    while m < g.nodes.len()
        invariant
            g0.wf(),
            g0.layers_listed(),
            ls0 == layer_views(&g0),
            index_map@.len() == g0.layers@.len(),
            forall|j: int| 0 <= j < g0.layers@.len() ==> #[trigger] index_map@[j] == nonempty_before(ls0, j),
            g.ports == g0.ports,
            g.edges == g0.edges,
            g.layers == g0.layers,
            g.layerless_nodes == g0.layerless_nodes,
            g.nodes@.len() == g0.nodes@.len(),
            m <= g.nodes@.len(),
            forall|x: int|
                0 <= x < g0.nodes@.len() ==> same_but_layer(#[trigger] g.nodes@[x], g0.nodes@[x])
                    && g.nodes@[x].layer == if x < m {
                    layer_after_retain(ls0, g0.nodes@[x].layer)
                } else {
                    g0.nodes@[x].layer
                },
        decreases g.nodes@.len() - m,
    {
        match g.nodes[m].layer {
            Some(j) => {
                assert(g0.nodes@[m as int].layer == Some(j));
                assert(j < g0.layers@.len());
                g.nodes[m].layer = Some(index_map[j]);
            },
            None => {},
        }
        m += 1;
    }
    g.layers = kept;
    proof {
        assert(layer_views(g) =~= ls0.filter(keep));
        assert forall|l: int| 0 <= l < g.layers@.len() implies #[trigger] g.layers@[l]@.len() > 0 by {
            assert(g.layers@[l]@ == ls0[origin[l]]);
            assert(kept@[l]@ == ls0[origin[l]]);
            lemma_filter_facts(ls0, keep);
            assert(layer_views(g)[l] == g.layers@[l]@);
        }
        assert forall|x: int, i: int|
            0 <= x < g.layers@.len() && 0 <= i < g.layers@[x]@.len() implies {
                &&& #[trigger] g.layers@[x]@[i] < g.nodes@.len()
                &&& g.nodes@[g.layers@[x]@[i] as int].layer == Some(x as usize)
            } by {
            let k0 = origin[x];
            assert(g.layers@[x]@ == ls0[k0]);
            assert(ls0[k0] == g0.layers@[k0]@);
            assert(g0.layers@[k0]@[i] < g0.nodes@.len());
            assert(g0.nodes@[g0.layers@[k0]@[i] as int].layer == Some(k0 as usize));
        }
        assert forall|x: int| 0 <= x < g.layers@.len() implies #[trigger] g.layers@[x]@.no_duplicates() by {
            let k0 = origin[x];
            assert(g.layers@[x]@ == ls0[k0]);
            assert(ls0[k0] == g0.layers@[k0]@);
            assert(g0.layers@[k0]@.no_duplicates());
        }
        assert forall|x: int, j: int|
            0 <= x < g.nodes@.len() && 0 <= j < g.nodes@[x].ports@.len() implies {
                &&& #[trigger] g.nodes@[x].ports@[j] < g.ports@.len()
                &&& g.ports@[g.nodes@[x].ports@[j] as int].node == Some(x as usize)
            } by {
            assert(g.nodes@[x].ports@[j] == g0.nodes@[x].ports@[j]);
        }
        assert forall|x: int|
            0 <= x < g.nodes@.len() implies (#[trigger] g.nodes@[x].layer matches Some(j) ==> (j
                < g.layers@.len() && g.layers@[j as int]@.contains(x as usize))) by {
            if let Some(j0) = g0.nodes@[x].layer {
                assert(g0.layers@[j0 as int]@.contains(x as usize));
                assert(ls0[j0 as int] == g0.layers@[j0 as int]@);
                assert(ls0[j0 as int].len() > 0);
                let y = index_map@[j0 as int] as int;
                assert(origin[y] == j0);
                assert(g.layers@[y]@ == ls0[j0 as int]);
            }
        }
    }
}

/// What a filter keeps: only items that meet the condition, every item
/// that meets it, and no more items than the list has.
pub proof fn lemma_filter_facts<A>(s: Seq<A>, pred: spec_fn(A) -> bool)
    ensures
        forall|i: int| 0 <= i < s.filter(pred).len() ==> pred(#[trigger] s.filter(pred)[i]),
        forall|i: int| 0 <= i < s.len() && pred(s[i]) ==> #[trigger] s.filter(pred).contains(s[i]),
        s.filter(pred).len() <= s.len(),
{
    s.lemma_filter_len(pred);
    assert forall|i: int| 0 <= i < s.filter(pred).len() implies pred(#[trigger] s.filter(pred)[i]) by {
        s.lemma_filter_pred(pred, i);
    }
    assert forall|i: int| 0 <= i < s.len() && pred(s[i]) implies #[trigger] s.filter(pred).contains(s[i]) by {
        s.lemma_filter_contains(pred, i);
    }
}

/// Two filters of one list agree when their conditions agree on its items.
pub proof fn lemma_filter_agree(s: Seq<usize>, p1: spec_fn(usize) -> bool, p2: spec_fn(usize) -> bool)
    requires
        forall|i: int| 0 <= i < s.len() ==> p1(#[trigger] s[i]) == p2(s[i]),
    ensures
        s.filter(p1) == s.filter(p2),
    decreases s.len(),
{
    reveal_with_fuel(Seq::filter, 1);
    if s.len() > 0 {
        lemma_filter_agree(s.drop_last(), p1, p2);
        assert(s.drop_last().len() == s.len() - 1);
        assert forall|i: int| 0 <= i < s.drop_last().len() implies p1(#[trigger] s.drop_last()[i]) == p2(s.drop_last()[i]) by {
            assert(s.drop_last()[i] == s[i]);
        }
        assert(p1(s[s.len() - 1]) == p2(s[s.len() - 1]));
    }
}

/// The labels of an optional list, as a sequence.
pub open spec fn labels_view(l: Option<Vec<usize>>) -> Option<Seq<usize>> {
    match l {
        Some(v) => Some(v@),
        None => None,
    }
}

/// A copy of an optional list of labels.
pub fn copy_labels(l: &Option<Vec<usize>>) -> (res: Option<Vec<usize>>)
    ensures
        labels_view(res) == labels_view(*l),
{
    match l {
        Some(v) => Some(copy_list(v)),
        None => None,
    }
}

} // verus!

//! Turns a graph of any layout direction into a left-to-right graph and back,
//! by mirroring and transposing what depends on the orientation.
use vstd::prelude::*;

use crate::graph::{Alignment, InLayerConstraint, LGraph, LayerConstraint, NodeType, PortSide};

verus! {

/// Which way the transformer turns the graph.
#[derive(Clone, Copy, Debug, PartialEq, Eq, Structural)]
pub enum Mode {
    ToInternalLtr,
    ToInputDirection,
}

/// The layout direction of a graph.
#[derive(Clone, Copy, Debug, PartialEq, Eq, Structural)]
pub enum Direction {
    Undefined,
    Right,
    Left,
    Down,
    Up,
}

/// How a layout direction relates to the left-to-right direction.
#[derive(Clone, Copy, Debug, PartialEq, Eq, Structural)]
pub enum DirectionCongruency {
    ReadingDirection,
    Rotation,
}

/// One elementary transformation of the whole graph.
#[derive(Clone, Copy, Debug, PartialEq, Eq, Structural)]
pub enum TransformStep {
    MirrorX,
    MirrorY,
    Transpose,
}

/// A two-dimensional vector of coordinates of any kind.
#[derive(Clone, Copy, Debug, PartialEq, Eq)]
pub struct KVector<T> {
    pub x: T,
    pub y: T,
}

/// Space around the four sides of an element.
#[derive(Clone, Copy, Debug, PartialEq, Eq)]
pub struct Padding<T> {
    pub top: T,
    pub bottom: T,
    pub left: T,
    pub right: T,
}

/// Where the labels of a node go: a set of placement flags.
#[derive(Clone, Copy, Debug, PartialEq, Eq, Structural)]
pub struct NodeLabelPlacement {
    pub h_left: bool,
    pub h_center: bool,
    pub h_right: bool,
    pub v_top: bool,
    pub v_center: bool,
    pub v_bottom: bool,
    pub inside: bool,
    pub outside: bool,
    pub h_priority: bool,
}

/// Transforms the graph into the left-to-right direction or back.
pub struct GraphTransformer {
    pub mode: Mode,
}

/// The side of a port after mirroring along the x axis.
pub open spec fn spec_mirrored_port_side_x(side: PortSide) -> PortSide {
    match side {
        PortSide::East => PortSide::West,
        PortSide::West => PortSide::East,
        _ => side,
    }
}

/// The side of a port after mirroring along the y axis.
pub open spec fn spec_mirrored_port_side_y(side: PortSide) -> PortSide {
    match side {
        PortSide::North => PortSide::South,
        PortSide::South => PortSide::North,
        _ => side,
    }
}

/// The side of a port after transposing the axes.
pub open spec fn spec_transposed_port_side(side: PortSide) -> PortSide {
    match side {
        PortSide::North => PortSide::West,
        PortSide::West => PortSide::North,
        PortSide::South => PortSide::East,
        PortSide::East => PortSide::South,
        PortSide::Undefined => PortSide::Undefined,
    }
}

/// The side of a port after mirroring along the x axis.
pub fn get_mirrored_port_side_x(side: PortSide) -> (res: PortSide)
    ensures
        res == spec_mirrored_port_side_x(side),
{
    match side {
        PortSide::East => PortSide::West,
        PortSide::West => PortSide::East,
        _ => side,
    }
}

/// The side of a port after mirroring along the y axis.
pub fn get_mirrored_port_side_y(side: PortSide) -> (res: PortSide)
    ensures
        res == spec_mirrored_port_side_y(side),
{
    match side {
        PortSide::North => PortSide::South,
        PortSide::South => PortSide::North,
        _ => side,
    }
}

/// The side of a port after transposing the axes.
pub fn transpose_port_side(side: PortSide) -> (res: PortSide)
    ensures
        res == spec_transposed_port_side(side),
{
    match side {
        PortSide::North => PortSide::West,
        PortSide::West => PortSide::North,
        PortSide::South => PortSide::East,
        PortSide::East => PortSide::South,
        _ => PortSide::Undefined,
    }
}

/// The layer constraint after mirroring along the x axis: first and last swap.
pub open spec fn spec_mirrored_layer_constraint(c: LayerConstraint) -> LayerConstraint {
    match c {
        LayerConstraint::First => LayerConstraint::Last,
        LayerConstraint::FirstSeparate => LayerConstraint::LastSeparate,
        LayerConstraint::Last => LayerConstraint::First,
        LayerConstraint::LastSeparate => LayerConstraint::FirstSeparate,
        LayerConstraint::Unconstrained => LayerConstraint::Unconstrained,
    }
}

/// The in-layer constraint after mirroring along the y axis: top and bottom swap.
pub open spec fn spec_mirrored_in_layer_constraint(c: InLayerConstraint) -> InLayerConstraint {
    match c {
        InLayerConstraint::Top => InLayerConstraint::Bottom,
        InLayerConstraint::Bottom => InLayerConstraint::Top,
        InLayerConstraint::Unconstrained => InLayerConstraint::Unconstrained,
    }
}

/// The layer constraint and in-layer constraint of an external port after
/// transposing: a separate first (last) layer becomes the top (bottom) of its
/// layer and vice versa; a pair with neither stays as it is.
pub open spec fn spec_transposed_constraints(
    layer: Option<LayerConstraint>,
    in_layer: Option<InLayerConstraint>,
) -> (Option<LayerConstraint>, Option<InLayerConstraint>) {
    let lc = match layer {
        Some(c) => c,
        None => LayerConstraint::Unconstrained,
    };
    let ilc = match in_layer {
        Some(c) => c,
        None => InLayerConstraint::Unconstrained,
    };
    if lc == LayerConstraint::FirstSeparate {
        (Some(LayerConstraint::Unconstrained), Some(InLayerConstraint::Top))
    } else if lc == LayerConstraint::LastSeparate {
        (Some(LayerConstraint::Unconstrained), Some(InLayerConstraint::Bottom))
    } else if ilc == InLayerConstraint::Top {
        (Some(LayerConstraint::FirstSeparate), Some(InLayerConstraint::Unconstrained))
    } else if ilc == InLayerConstraint::Bottom {
        (Some(LayerConstraint::LastSeparate), Some(InLayerConstraint::Unconstrained))
    } else {
        (layer, in_layer)
    }
}

/// The alignment after mirroring along the x axis.
pub open spec fn spec_mirrored_alignment_x(a: Alignment) -> Alignment {
    match a {
        Alignment::Left => Alignment::Right,
        Alignment::Right => Alignment::Left,
        _ => a,
    }
}

/// The alignment after mirroring along the y axis.
pub open spec fn spec_mirrored_alignment_y(a: Alignment) -> Alignment {
    match a {
        Alignment::Top => Alignment::Bottom,
        Alignment::Bottom => Alignment::Top,
        _ => a,
    }
}

/// The alignment after transposing.
pub open spec fn spec_transposed_alignment(a: Alignment) -> Alignment {
    match a {
        Alignment::Left => Alignment::Top,
        Alignment::Right => Alignment::Bottom,
        Alignment::Top => Alignment::Left,
        Alignment::Bottom => Alignment::Right,
        _ => a,
    }
}

/// The alignment after mirroring along the x axis.
pub fn mirror_alignment_x(a: Alignment) -> (res: Alignment)
    ensures
        res == spec_mirrored_alignment_x(a),
{
    match a {
        Alignment::Left => Alignment::Right,
        Alignment::Right => Alignment::Left,
        _ => a,
    }
}

/// The alignment after mirroring along the y axis.
pub fn mirror_alignment_y(a: Alignment) -> (res: Alignment)
    ensures
        res == spec_mirrored_alignment_y(a),
{
    match a {
        Alignment::Top => Alignment::Bottom,
        Alignment::Bottom => Alignment::Top,
        _ => a,
    }
}

/// The alignment after transposing.
pub fn transpose_alignment(a: Alignment) -> (res: Alignment)
    ensures
        res == spec_transposed_alignment(a),
{
    match a {
        Alignment::Left => Alignment::Top,
        Alignment::Right => Alignment::Bottom,
        Alignment::Top => Alignment::Left,
        Alignment::Bottom => Alignment::Right,
        _ => a,
    }
}

/// Swaps the coordinates of a vector.
pub fn transpose_vector<T: Copy>(v: &mut KVector<T>)
    ensures
        final(v).x == old(v).y,
        final(v).y == old(v).x,
{
    let old_x = v.x;
    v.x = v.y;
    v.y = old_x;
}

/// Swaps the left and right padding.
pub fn mirror_padding_x<T: Copy>(padding: &mut Padding<T>)
    ensures
        final(padding).left == old(padding).right,
        final(padding).right == old(padding).left,
        final(padding).top == old(padding).top,
        final(padding).bottom == old(padding).bottom,
{
    let old_left = padding.left;
    padding.left = padding.right;
    padding.right = old_left;
}

/// Swaps the top and bottom padding.
pub fn mirror_padding_y<T: Copy>(padding: &mut Padding<T>)
    ensures
        final(padding).top == old(padding).bottom,
        final(padding).bottom == old(padding).top,
        final(padding).left == old(padding).left,
        final(padding).right == old(padding).right,
{
    let old_top = padding.top;
    padding.top = padding.bottom;
    padding.bottom = old_top;
}

/// Transposes a padding: top and left swap, bottom and right swap.
pub fn transpose_padding<T: Copy>(padding: &mut Padding<T>)
    ensures
        final(padding).top == old(padding).left,
        final(padding).bottom == old(padding).right,
        final(padding).left == old(padding).top,
        final(padding).right == old(padding).bottom,
{
    let old_top = padding.top;
    let old_bottom = padding.bottom;
    let old_left = padding.left;
    let old_right = padding.right;
    padding.top = old_left;
    padding.bottom = old_right;
    padding.left = old_top;
    padding.right = old_bottom;
}

/// Mirroring a node's label placement along the x axis.
pub open spec fn spec_mirrored_placement_x(p: NodeLabelPlacement) -> NodeLabelPlacement {
    if p.h_left {
        NodeLabelPlacement { h_left: false, h_right: true, ..p }
    } else if p.h_right {
        NodeLabelPlacement { h_right: false, h_left: true, ..p }
    } else {
        p
    }
}

/// Mirroring a node's label placement along the y axis.
pub open spec fn spec_mirrored_placement_y(p: NodeLabelPlacement) -> NodeLabelPlacement {
    if p.v_top {
        NodeLabelPlacement { v_top: false, v_bottom: true, ..p }
    } else if p.v_bottom {
        NodeLabelPlacement { v_bottom: false, v_top: true, ..p }
    } else {
        p
    }
}

/// The placement has no flag.
pub open spec fn placement_is_empty(p: NodeLabelPlacement) -> bool {
    !p.h_left && !p.h_center && !p.h_right && !p.v_top && !p.v_center && !p.v_bottom && !p.inside
        && !p.outside && !p.h_priority
}

/// Transposing a node's label placement: horizontal and vertical positions
/// swap, inside is kept (otherwise outside is set), and the horizontal
/// priority flag flips; an empty placement stays empty.
pub open spec fn spec_transposed_placement(p: NodeLabelPlacement) -> NodeLabelPlacement {
    if placement_is_empty(p) {
        p
    } else {
        NodeLabelPlacement {
            inside: p.inside,
            outside: !p.inside,
            h_priority: !p.h_priority,
            v_top: p.h_left,
            v_center: !p.h_left && p.h_center,
            v_bottom: !p.h_left && !p.h_center && p.h_right,
            h_left: p.v_top,
            h_center: !p.v_top && p.v_center,
            h_right: !p.v_top && !p.v_center && p.v_bottom,
        }
    }
}

/// Mirrors a node's label placement along the x axis.
pub fn mirror_node_label_placement_x(p: NodeLabelPlacement) -> (res: NodeLabelPlacement)
    ensures
        res == spec_mirrored_placement_x(p),
{
    let mut placement = p;
    if placement.h_left {
        placement.h_left = false;
        placement.h_right = true;
    } else if placement.h_right {
        placement.h_right = false;
        placement.h_left = true;
    }
    placement
}

/// Mirrors a node's label placement along the y axis.
pub fn mirror_node_label_placement_y(p: NodeLabelPlacement) -> (res: NodeLabelPlacement)
    ensures
        res == spec_mirrored_placement_y(p),
{
    let mut placement = p;
    if placement.v_top {
        placement.v_top = false;
        placement.v_bottom = true;
    } else if placement.v_bottom {
        placement.v_bottom = false;
        placement.v_top = true;
    }
    placement
}

/// Transposes a node's label placement.
pub fn transpose_node_label_placement(p: NodeLabelPlacement) -> (res: NodeLabelPlacement)
    ensures
        res == spec_transposed_placement(p),
{
    if !p.h_left && !p.h_center && !p.h_right && !p.v_top && !p.v_center && !p.v_bottom
        && !p.inside && !p.outside && !p.h_priority {
        return p;
    }
    let mut new_placement = NodeLabelPlacement {
        h_left: false,
        h_center: false,
        h_right: false,
        v_top: false,
        v_center: false,
        v_bottom: false,
        inside: false,
        outside: false,
        h_priority: false,
    };
    if p.inside {
        new_placement.inside = true;
    } else {
        new_placement.outside = true;
    }
    if !p.h_priority {
        new_placement.h_priority = true;
    }
    if p.h_left {
        new_placement.v_top = true;
    } else if p.h_center {
        new_placement.v_center = true;
    } else if p.h_right {
        new_placement.v_bottom = true;
    }
    if p.v_top {
        new_placement.h_left = true;
    } else if p.v_center {
        new_placement.h_center = true;
    } else if p.v_bottom {
        new_placement.h_right = true;
    }
    new_placement
}

/// The negated fixed index of a port (a mirrored port counts from the other end).
pub open spec fn spec_reversed_index(index: Option<i32>) -> Option<i32> {
    match index {
        Some(i) => Some((-i) as i32),
        None => None,
    }
}

/// Negates the fixed index of a port, if it has one.
pub fn reverse_index(index: Option<i32>) -> (res: Option<i32>)
    requires
        index != Some(i32::MIN),
    ensures
        res == spec_reversed_index(index),
{
    match index {
        Some(i) => Some(-i),
        None => None,
    }
}

/// The orientation-dependent attributes of a port: its side and fixed index.
pub open spec fn port_orientation(g: &LGraph, p: int) -> (PortSide, Option<i32>) {
    (g.ports@[p].side, g.ports@[p].port_index)
}

/// The orientation-dependent attributes of a node: the side of an external
/// port, and its layer and in-layer constraints.
pub open spec fn node_orientation(g: &LGraph, n: int) -> (
    Option<PortSide>,
    Option<LayerConstraint>,
    Option<InLayerConstraint>,
) {
    (g.nodes@[n].ext_port_side, g.nodes@[n].layer_constraint, g.nodes@[n].in_layer_constraint)
}

/// Everything but the orientation-dependent attributes is the same.
pub open spec fn same_except_orientation(a: &LGraph, b: &LGraph) -> bool {
    &&& a.ports@.len() == b.ports@.len()
    &&& a.nodes@.len() == b.nodes@.len()
    &&& a.edges == b.edges
    &&& a.layers == b.layers
    &&& a.layerless_nodes == b.layerless_nodes
    &&& forall|p: int|
        0 <= p < a.ports@.len() ==> {
            &&& #[trigger] a.ports@[p].node == b.ports@[p].node
            &&& a.ports@[p].connected_to_external_nodes == b.ports@[p].connected_to_external_nodes
            &&& a.ports@[p].port_dummy == b.ports@[p].port_dummy
            &&& a.ports@[p].origin == b.ports@[p].origin
        }
    &&& forall|n: int|
        0 <= n < a.nodes@.len() ==> {
            &&& #[trigger] a.nodes@[n].node_type == b.nodes@[n].node_type
            &&& a.nodes@[n].ports == b.nodes@[n].ports
            &&& a.nodes@[n].layer == b.nodes@[n].layer
            &&& a.nodes@[n].id == b.nodes@[n].id
            &&& a.nodes@[n].edge_constraint == b.nodes@[n].edge_constraint
            &&& a.nodes@[n].port_constraints == b.nodes@[n].port_constraints
            &&& a.nodes@[n].origin == b.nodes@[n].origin
            &&& a.nodes@[n].in_layer_layout_unit == b.nodes@[n].in_layer_layout_unit
            &&& a.nodes@[n].in_layer_successor_constraints
                == b.nodes@[n].in_layer_successor_constraints
            &&& a.nodes@[n].layer_id == b.nodes@[n].layer_id
            &&& a.nodes@[n].position_id == b.nodes@[n].position_id
            &&& a.nodes@[n].long_edge_source == b.nodes@[n].long_edge_source
            &&& a.nodes@[n].long_edge_target == b.nodes@[n].long_edge_target
            &&& a.nodes@[n].long_edge_has_label_dummies == b.nodes@[n].long_edge_has_label_dummies
            &&& a.nodes@[n].long_edge_before_label_dummy
                == b.nodes@[n].long_edge_before_label_dummy
            &&& a.nodes@[n].layer_split == b.nodes@[n].layer_split
            &&& a.nodes@[n].reset_on_long_edges == b.nodes@[n].reset_on_long_edges
            &&& a.nodes@[n].minimize_edge_length == b.nodes@[n].minimize_edge_length
            &&& a.nodes@[n].breaking_point_info == b.nodes@[n].breaking_point_info
            &&& a.nodes@[n].comment_box == b.nodes@[n].comment_box
            &&& a.nodes@[n].comment_conn_port == b.nodes@[n].comment_conn_port
            &&& a.nodes@[n].ext_port_replaced_dummy == b.nodes@[n].ext_port_replaced_dummy
            &&& a.nodes@[n].represented_labels == b.nodes@[n].represented_labels
        }
}

/// A port's orientation after one step.
pub open spec fn port_step(step: TransformStep, o: (PortSide, Option<i32>)) -> (
    PortSide,
    Option<i32>,
) {
    match step {
        TransformStep::MirrorX => (spec_mirrored_port_side_x(o.0), spec_reversed_index(o.1)),
        TransformStep::MirrorY => (spec_mirrored_port_side_y(o.0), spec_reversed_index(o.1)),
        TransformStep::Transpose => (spec_transposed_port_side(o.0), spec_reversed_index(o.1)),
    }
}

/// Applies a map to an optional value.
pub open spec fn map_side(s: Option<PortSide>, f: spec_fn(PortSide) -> PortSide) -> Option<PortSide> {
    match s {
        Some(x) => Some(f(x)),
        None => None,
    }
}

/// A node's orientation after one step: only external port dummies change.
pub open spec fn node_step(
    step: TransformStep,
    is_external_port: bool,
    o: (Option<PortSide>, Option<LayerConstraint>, Option<InLayerConstraint>),
) -> (Option<PortSide>, Option<LayerConstraint>, Option<InLayerConstraint>) {
    if !is_external_port {
        o
    } else {
        match step {
            TransformStep::MirrorX => (
                map_side(o.0, |x: PortSide| spec_mirrored_port_side_x(x)),
                match o.1 {
                    Some(c) => Some(spec_mirrored_layer_constraint(c)),
                    None => None,
                },
                o.2,
            ),
            TransformStep::MirrorY => (
                map_side(o.0, |x: PortSide| spec_mirrored_port_side_y(x)),
                o.1,
                match o.2 {
                    Some(c) => Some(spec_mirrored_in_layer_constraint(c)),
                    None => None,
                },
            ),
            TransformStep::Transpose => {
                let t = spec_transposed_constraints(o.1, o.2);
                (map_side(o.0, |x: PortSide| spec_transposed_port_side(x)), t.0, t.1)
            },
        }
    }
}

/// A port's orientation after a sequence of steps.
pub open spec fn port_steps(steps: Seq<TransformStep>, o: (PortSide, Option<i32>)) -> (
    PortSide,
    Option<i32>,
)
    decreases steps.len(),
{
    if steps.len() == 0 {
        o
    } else {
        port_step(steps.last(), port_steps(steps.drop_last(), o))
    }
}

/// A node's orientation after a sequence of steps.
pub open spec fn node_steps(
    steps: Seq<TransformStep>,
    is_external_port: bool,
    o: (Option<PortSide>, Option<LayerConstraint>, Option<InLayerConstraint>),
) -> (Option<PortSide>, Option<LayerConstraint>, Option<InLayerConstraint>)
    decreases steps.len(),
{
    if steps.len() == 0 {
        o
    } else {
        node_step(steps.last(), is_external_port, node_steps(steps.drop_last(), is_external_port, o))
    }
}

/// A node's alignment after one step: a set alignment turns with the graph,
/// an unset one stays unset.
pub open spec fn alignment_step(step: TransformStep, a: Option<Alignment>) -> Option<Alignment> {
    match a {
        Some(x) => Some(
            match step {
                TransformStep::MirrorX => spec_mirrored_alignment_x(x),
                TransformStep::MirrorY => spec_mirrored_alignment_y(x),
                TransformStep::Transpose => spec_transposed_alignment(x),
            },
        ),
        None => None,
    }
}

/// A node's alignment after a sequence of steps.
pub open spec fn alignment_steps(steps: Seq<TransformStep>, a: Option<Alignment>) -> Option<Alignment>
    decreases steps.len(),
{
    if steps.len() == 0 {
        a
    } else {
        alignment_step(steps.last(), alignment_steps(steps.drop_last(), a))
    }
}

/// A node's label placement after one step: a set placement turns with
/// the graph, an unset one stays unset.
pub open spec fn placement_step(step: TransformStep, p: Option<NodeLabelPlacement>) -> Option<NodeLabelPlacement> {
    match p {
        Some(x) => Some(
            match step {
                TransformStep::MirrorX => spec_mirrored_placement_x(x),
                TransformStep::MirrorY => spec_mirrored_placement_y(x),
                TransformStep::Transpose => spec_transposed_placement(x),
            },
        ),
        None => None,
    }
}

/// A node's label placement after a sequence of steps.
pub open spec fn placement_steps(steps: Seq<TransformStep>, p: Option<NodeLabelPlacement>) -> Option<
    NodeLabelPlacement,
>
    decreases steps.len(),
{
    if steps.len() == 0 {
        p
    } else {
        placement_step(steps.last(), placement_steps(steps.drop_last(), p))
    }
}

/// The graph after a step: every port, every node's alignment and label
/// placement and every external port dummy is transformed, nothing else
/// changes.
pub open spec fn graph_step(old: &LGraph, new: &LGraph, step: TransformStep) -> bool {
    &&& same_except_orientation(old, new)
    &&& forall|p: int|
        0 <= p < old.ports@.len() ==> #[trigger] port_orientation(new, p) == port_step(
            step,
            port_orientation(old, p),
        )
    &&& forall|n: int|
        0 <= n < old.nodes@.len() ==> #[trigger] node_orientation(new, n) == node_step(
            step,
            old.nodes@[n].node_type == NodeType::ExternalPort,
            node_orientation(old, n),
        )
    &&& forall|n: int|
        0 <= n < old.nodes@.len() ==> #[trigger] new.nodes@[n].alignment == alignment_step(
            step,
            old.nodes@[n].alignment,
        )
    &&& forall|n: int|
        0 <= n < old.nodes@.len() ==> #[trigger] new.nodes@[n].label_placement == placement_step(
            step,
            old.nodes@[n].label_placement,
        )
}

/// No fixed port index is the smallest `i32`, which has no negation.
pub open spec fn indices_negatable(g: &LGraph) -> bool {
    forall|p: int| 0 <= p < g.ports@.len() ==> #[trigger] g.ports@[p].port_index != Some(i32::MIN)
}

/// Applies one step to every port and node of the graph.
pub fn apply_step(g: &mut LGraph, step: TransformStep)
    requires
        indices_negatable(old(g)),
    ensures
        graph_step(old(g), final(g), step),
        indices_negatable(final(g)),
{
    let ghost old_g = *g;
    let mut p: usize = 0;
    while p < g.ports.len()
        invariant
            p <= g.ports@.len(),
            g.ports@.len() == old_g.ports@.len(),
            g.nodes == old_g.nodes,
            g.edges == old_g.edges,
            g.layers == old_g.layers,
            g.layerless_nodes == old_g.layerless_nodes,
            indices_negatable(&old_g),
            forall|q: int|
                0 <= q < g.ports@.len() ==> {
                    &&& #[trigger] g.ports@[q].node == old_g.ports@[q].node
                    &&& g.ports@[q].connected_to_external_nodes
                        == old_g.ports@[q].connected_to_external_nodes
                    &&& g.ports@[q].port_dummy == old_g.ports@[q].port_dummy
                    &&& g.ports@[q].origin == old_g.ports@[q].origin
                },
            forall|q: int|
                0 <= q < p ==> (#[trigger] g.ports@[q]).side == port_step(
                    step,
                    port_orientation(&old_g, q),
                ).0 && g.ports@[q].port_index == port_step(step, port_orientation(&old_g, q)).1,
            forall|q: int| p <= q < g.ports@.len() ==> #[trigger] g.ports@[q] == old_g.ports@[q],
        decreases g.ports@.len() - p,
    {
        let side = g.ports[p].side;
        let new_side = match step {
            TransformStep::MirrorX => get_mirrored_port_side_x(side),
            TransformStep::MirrorY => get_mirrored_port_side_y(side),
            TransformStep::Transpose => transpose_port_side(side),
        };
        let new_index = reverse_index(g.ports[p].port_index);
        g.ports[p].side = new_side;
        g.ports[p].port_index = new_index;
        p += 1;
    }
    let ghost ports_done = g.ports@;
    let mut n: usize = 0;
    while n < g.nodes.len()
        invariant
            g.ports@ == ports_done,
            n <= g.nodes@.len(),
            g.nodes@.len() == old_g.nodes@.len(),
            g.ports@.len() == old_g.ports@.len(),
            g.edges == old_g.edges,
            g.layers == old_g.layers,
            g.layerless_nodes == old_g.layerless_nodes,
            forall|q: int|
                0 <= q < g.ports@.len() ==> {
                    &&& #[trigger] g.ports@[q].node == old_g.ports@[q].node
                    &&& g.ports@[q].connected_to_external_nodes
                        == old_g.ports@[q].connected_to_external_nodes
                    &&& g.ports@[q].port_dummy == old_g.ports@[q].port_dummy
                    &&& g.ports@[q].origin == old_g.ports@[q].origin
                },
            forall|q: int|
                0 <= q < g.ports@.len() ==> (#[trigger] g.ports@[q]).side == port_step(
                    step,
                    port_orientation(&old_g, q),
                ).0 && g.ports@[q].port_index == port_step(step, port_orientation(&old_g, q)).1,
            forall|m: int|
                0 <= m < n ==> (#[trigger] g.nodes@[m], node_orientation(g, m)).1 == node_step(
                    step,
                    old_g.nodes@[m].node_type == NodeType::ExternalPort,
                    node_orientation(&old_g, m),
                ),
            forall|m: int|
                0 <= m < g.nodes@.len() ==> {
                    &&& #[trigger] g.nodes@[m].node_type == old_g.nodes@[m].node_type
                    &&& g.nodes@[m].ports == old_g.nodes@[m].ports
                    &&& g.nodes@[m].layer == old_g.nodes@[m].layer
                    &&& g.nodes@[m].id == old_g.nodes@[m].id
                    &&& g.nodes@[m].edge_constraint == old_g.nodes@[m].edge_constraint
                    &&& g.nodes@[m].port_constraints == old_g.nodes@[m].port_constraints
                    &&& g.nodes@[m].origin == old_g.nodes@[m].origin
                    &&& g.nodes@[m].in_layer_layout_unit == old_g.nodes@[m].in_layer_layout_unit
                    &&& g.nodes@[m].in_layer_successor_constraints
                        == old_g.nodes@[m].in_layer_successor_constraints
                    &&& g.nodes@[m].layer_id == old_g.nodes@[m].layer_id
                    &&& g.nodes@[m].position_id == old_g.nodes@[m].position_id
                    &&& g.nodes@[m].long_edge_source == old_g.nodes@[m].long_edge_source
                    &&& g.nodes@[m].long_edge_target == old_g.nodes@[m].long_edge_target
                    &&& g.nodes@[m].long_edge_has_label_dummies
                        == old_g.nodes@[m].long_edge_has_label_dummies
                    &&& g.nodes@[m].long_edge_before_label_dummy
                        == old_g.nodes@[m].long_edge_before_label_dummy
                    &&& g.nodes@[m].layer_split == old_g.nodes@[m].layer_split
                    &&& g.nodes@[m].reset_on_long_edges == old_g.nodes@[m].reset_on_long_edges
                    &&& g.nodes@[m].minimize_edge_length == old_g.nodes@[m].minimize_edge_length
                    &&& g.nodes@[m].breaking_point_info == old_g.nodes@[m].breaking_point_info
                    &&& g.nodes@[m].comment_box == old_g.nodes@[m].comment_box
                    &&& g.nodes@[m].comment_conn_port == old_g.nodes@[m].comment_conn_port
                    &&& g.nodes@[m].ext_port_replaced_dummy == old_g.nodes@[m].ext_port_replaced_dummy
                    &&& g.nodes@[m].represented_labels == old_g.nodes@[m].represented_labels
                },
            forall|m: int|
                0 <= m < n ==> #[trigger] g.nodes@[m].alignment == alignment_step(
                    step,
                    old_g.nodes@[m].alignment,
                ),
            forall|m: int|
                0 <= m < n ==> #[trigger] g.nodes@[m].label_placement == placement_step(
                    step,
                    old_g.nodes@[m].label_placement,
                ),
            forall|m: int| n <= m < g.nodes@.len() ==> #[trigger] g.nodes@[m] == old_g.nodes@[m],
        decreases g.nodes@.len() - n,
    {
        match g.nodes[n].alignment {
            Some(a) => {
                let turned = match step {
                    TransformStep::MirrorX => mirror_alignment_x(a),
                    TransformStep::MirrorY => mirror_alignment_y(a),
                    TransformStep::Transpose => transpose_alignment(a),
                };
                g.nodes[n].alignment = Some(turned);
            },
            None => {},
        }
        match g.nodes[n].label_placement {
            Some(p) => {
                let turned = match step {
                    TransformStep::MirrorX => mirror_node_label_placement_x(p),
                    TransformStep::MirrorY => mirror_node_label_placement_y(p),
                    TransformStep::Transpose => transpose_node_label_placement(p),
                };
                g.nodes[n].label_placement = Some(turned);
            },
            None => {},
        }
        if g.nodes[n].node_type == NodeType::ExternalPort {
            match step {
                TransformStep::MirrorX => {
                    match g.nodes[n].ext_port_side {
                        Some(side) => {
                            g.nodes[n].ext_port_side = Some(get_mirrored_port_side_x(side));
                        },
                        None => {},
                    }
                    match g.nodes[n].layer_constraint {
                        Some(c) => {
                            g.nodes[n].layer_constraint = Some(mirror_layer_constraint_x(c));
                        },
                        None => {},
                    }
                },
                TransformStep::MirrorY => {
                    match g.nodes[n].ext_port_side {
                        Some(side) => {
                            g.nodes[n].ext_port_side = Some(get_mirrored_port_side_y(side));
                        },
                        None => {},
                    }
                    match g.nodes[n].in_layer_constraint {
                        Some(c) => {
                            g.nodes[n].in_layer_constraint = Some(mirror_in_layer_constraint_y(c));
                        },
                        None => {},
                    }
                },
                TransformStep::Transpose => {
                    match g.nodes[n].ext_port_side {
                        Some(side) => {
                            g.nodes[n].ext_port_side = Some(transpose_port_side(side));
                        },
                        None => {},
                    }
                    let (lc, ilc) = transpose_layer_constraint(
                        g.nodes[n].layer_constraint,
                        g.nodes[n].in_layer_constraint,
                    );
                    g.nodes[n].layer_constraint = lc;
                    g.nodes[n].in_layer_constraint = ilc;
                },
            }
        }
        n += 1;
    }
    proof {
        assert forall|q: int| 0 <= q < g.ports@.len() implies #[trigger] g.ports@[q].port_index
            != Some(i32::MIN) by {
            assert(g.ports@[q].port_index == port_step(step, port_orientation(&old_g, q)).1);
        }
        assert forall|q: int| 0 <= q < old_g.ports@.len() implies #[trigger] port_orientation(g, q)
            == port_step(step, port_orientation(&old_g, q)) by {
            assert(g.ports@[q].side == port_step(step, port_orientation(&old_g, q)).0);
        }
        assert forall|m: int| 0 <= m < old_g.nodes@.len() implies #[trigger] node_orientation(g, m)
            == node_step(
            step,
            old_g.nodes@[m].node_type == NodeType::ExternalPort,
            node_orientation(&old_g, m),
        ) by {
            assert((g.nodes@[m], node_orientation(g, m)).1 == node_step(
                step,
                old_g.nodes@[m].node_type == NodeType::ExternalPort,
                node_orientation(&old_g, m),
            ));
        }
    }
}

/// The layer constraint after mirroring along the x axis.
pub fn mirror_layer_constraint_x(c: LayerConstraint) -> (res: LayerConstraint)
    ensures
        res == spec_mirrored_layer_constraint(c),
{
    match c {
        LayerConstraint::First => LayerConstraint::Last,
        LayerConstraint::FirstSeparate => LayerConstraint::LastSeparate,
        LayerConstraint::Last => LayerConstraint::First,
        LayerConstraint::LastSeparate => LayerConstraint::FirstSeparate,
        LayerConstraint::Unconstrained => LayerConstraint::Unconstrained,
    }
}

/// The in-layer constraint after mirroring along the y axis.
pub fn mirror_in_layer_constraint_y(c: InLayerConstraint) -> (res: InLayerConstraint)
    ensures
        res == spec_mirrored_in_layer_constraint(c),
{
    match c {
        InLayerConstraint::Top => InLayerConstraint::Bottom,
        InLayerConstraint::Bottom => InLayerConstraint::Top,
        InLayerConstraint::Unconstrained => InLayerConstraint::Unconstrained,
    }
}

/// The constraints of an external port dummy after transposing.
pub fn transpose_layer_constraint(
    layer: Option<LayerConstraint>,
    in_layer: Option<InLayerConstraint>,
) -> (res: (Option<LayerConstraint>, Option<InLayerConstraint>))
    ensures
        res == spec_transposed_constraints(layer, in_layer),
{
    let layer_constraint = match layer {
        Some(c) => c,
        None => LayerConstraint::Unconstrained,
    };
    let in_layer_constraint = match in_layer {
        Some(c) => c,
        None => InLayerConstraint::Unconstrained,
    };
    if layer_constraint == LayerConstraint::FirstSeparate {
        (Some(LayerConstraint::Unconstrained), Some(InLayerConstraint::Top))
    } else if layer_constraint == LayerConstraint::LastSeparate {
        (Some(LayerConstraint::Unconstrained), Some(InLayerConstraint::Bottom))
    } else if in_layer_constraint == InLayerConstraint::Top {
        (Some(LayerConstraint::FirstSeparate), Some(InLayerConstraint::Unconstrained))
    } else if in_layer_constraint == InLayerConstraint::Bottom {
        (Some(LayerConstraint::LastSeparate), Some(InLayerConstraint::Unconstrained))
    } else {
        (layer, in_layer)
    }
}

/// The steps that turn a graph of the given direction into the internal
/// left-to-right direction, or back: a reading-direction congruency mirrors
/// leftward graphs and transposes vertical ones (mirroring upward ones
/// vertically as well); a rotation congruency rotates by a quarter turn.
pub open spec fn spec_steps(mode: Mode, congruency: DirectionCongruency, direction: Direction) -> Seq<
    TransformStep,
> {
    match congruency {
        DirectionCongruency::ReadingDirection => match direction {
            Direction::Left => seq![TransformStep::MirrorX],
            Direction::Down => seq![TransformStep::Transpose],
            Direction::Up => match mode {
                Mode::ToInternalLtr => seq![TransformStep::Transpose, TransformStep::MirrorY],
                Mode::ToInputDirection => seq![TransformStep::MirrorY, TransformStep::Transpose],
            },
            _ => Seq::empty(),
        },
        DirectionCongruency::Rotation => match direction {
            Direction::Left => seq![TransformStep::MirrorX, TransformStep::MirrorY],
            Direction::Down => match mode {
                Mode::ToInternalLtr => seq![TransformStep::Transpose, TransformStep::MirrorX],
                Mode::ToInputDirection => seq![TransformStep::MirrorX, TransformStep::Transpose],
            },
            Direction::Up => match mode {
                Mode::ToInternalLtr => seq![TransformStep::MirrorX, TransformStep::Transpose],
                Mode::ToInputDirection => seq![TransformStep::Transpose, TransformStep::MirrorX],
            },
            _ => Seq::empty(),
        },
    }
}

impl GraphTransformer {
    /// A transformer working in the given mode.
    pub fn new(mode: Mode) -> (res: Self)
        ensures
            res.mode == mode,
    {
        GraphTransformer { mode }
    }

    /// The steps this transformer applies for the given direction.
    pub fn transformation_steps(&self, congruency: DirectionCongruency, direction: Direction) -> (res:
        Vec<TransformStep>)
        ensures
            res@ == spec_steps(self.mode, congruency, direction),
    {
        let mut steps: Vec<TransformStep> = Vec::new();
        match congruency {
            DirectionCongruency::ReadingDirection => match direction {
                Direction::Left => {
                    steps.push(TransformStep::MirrorX);
                },
                Direction::Down => {
                    steps.push(TransformStep::Transpose);
                },
                Direction::Up => match self.mode {
                    Mode::ToInternalLtr => {
                        steps.push(TransformStep::Transpose);
                        steps.push(TransformStep::MirrorY);
                    },
                    Mode::ToInputDirection => {
                        steps.push(TransformStep::MirrorY);
                        steps.push(TransformStep::Transpose);
                    },
                },
                _ => {},
            },
            DirectionCongruency::Rotation => match direction {
                Direction::Left => {
                    steps.push(TransformStep::MirrorX);
                    steps.push(TransformStep::MirrorY);
                },
                Direction::Down => match self.mode {
                    Mode::ToInternalLtr => {
                        self.rotate90_clockwise(&mut steps);
                    },
                    Mode::ToInputDirection => {
                        self.rotate90_counter_clockwise(&mut steps);
                    },
                },
                Direction::Up => match self.mode {
                    Mode::ToInternalLtr => {
                        self.rotate90_counter_clockwise(&mut steps);
                    },
                    Mode::ToInputDirection => {
                        self.rotate90_clockwise(&mut steps);
                    },
                },
                _ => {},
            },
        }
        proof {
            assert(steps@ =~= spec_steps(self.mode, congruency, direction));
        }
        steps
    }

    /// A clockwise quarter turn: transpose, then mirror along the x axis.
    fn rotate90_clockwise(&self, steps: &mut Vec<TransformStep>)
        ensures
            final(steps)@ == old(steps)@.push(TransformStep::Transpose).push(TransformStep::MirrorX),
    {
        steps.push(TransformStep::Transpose);
        steps.push(TransformStep::MirrorX);
    }

    /// A counter-clockwise quarter turn: mirror along the x axis, then transpose.
    fn rotate90_counter_clockwise(&self, steps: &mut Vec<TransformStep>)
        ensures
            final(steps)@ == old(steps)@.push(TransformStep::MirrorX).push(TransformStep::Transpose),
    {
        steps.push(TransformStep::MirrorX);
        steps.push(TransformStep::Transpose);
    }

    /// Transforms the orientation-dependent attributes of every port and
    /// external port dummy of the graph, and the alignment and label
    /// placement of every node, for the given direction. Only where some
    /// step is taken (and port indices are negated) must no fixed port
    /// index be the smallest `i32`.
    pub fn process(&self, g: &mut LGraph, congruency: DirectionCongruency, direction: Direction)
        requires
            spec_steps(self.mode, congruency, direction).len() > 0 ==> indices_negatable(old(g)),
        ensures
            same_except_orientation(old(g), final(g)),
            indices_negatable(old(g)) ==> indices_negatable(final(g)),
            forall|p: int|
                0 <= p < old(g).ports@.len() ==> #[trigger] port_orientation(final(g), p)
                    == port_steps(
                    spec_steps(self.mode, congruency, direction),
                    port_orientation(old(g), p),
                ),
            forall|n: int|
                0 <= n < old(g).nodes@.len() ==> #[trigger] node_orientation(final(g), n)
                    == node_steps(
                    spec_steps(self.mode, congruency, direction),
                    old(g).nodes@[n].node_type == NodeType::ExternalPort,
                    node_orientation(old(g), n),
                ),
            forall|n: int|
                0 <= n < old(g).nodes@.len() ==> #[trigger] final(g).nodes@[n].alignment
                    == alignment_steps(spec_steps(self.mode, congruency, direction), old(g).nodes@[n].alignment),
            forall|n: int|
                0 <= n < old(g).nodes@.len() ==> #[trigger] final(g).nodes@[n].label_placement
                    == placement_steps(spec_steps(self.mode, congruency, direction), old(g).nodes@[n].label_placement),
    {
        let steps = self.transformation_steps(congruency, direction);
        let ghost old_g = *g;
        let mut k: usize = 0;
        assert(steps@.take(0) == Seq::<TransformStep>::empty());
        while k < steps.len()
            invariant
                k <= steps@.len(),
                steps@.len() > 0 ==> indices_negatable(g),
                indices_negatable(&old_g) ==> indices_negatable(g),
                same_except_orientation(&old_g, g),
                forall|p: int|
                    0 <= p < old_g.ports@.len() ==> #[trigger] port_orientation(g, p) == port_steps(
                        steps@.take(k as int),
                        port_orientation(&old_g, p),
                    ),
                forall|n: int|
                    0 <= n < old_g.nodes@.len() ==> #[trigger] node_orientation(g, n) == node_steps(
                        steps@.take(k as int),
                        old_g.nodes@[n].node_type == NodeType::ExternalPort,
                        node_orientation(&old_g, n),
                    ),
                forall|n: int|
                    0 <= n < old_g.nodes@.len() ==> #[trigger] g.nodes@[n].alignment == alignment_steps(
                        steps@.take(k as int),
                        old_g.nodes@[n].alignment,
                    ),
                forall|n: int|
                    0 <= n < old_g.nodes@.len() ==> #[trigger] g.nodes@[n].label_placement == placement_steps(
                        steps@.take(k as int),
                        old_g.nodes@[n].label_placement,
                    ),
            decreases steps@.len() - k,
        {
            let ghost before = *g;
            apply_step(g, steps[k]);
            proof {
                let t = steps@.take(k as int + 1);
                assert(t.drop_last() == steps@.take(k as int));
                assert(t.last() == steps@[k as int]);
                assert forall|p: int| 0 <= p < old_g.ports@.len() implies #[trigger] port_orientation(
                    g,
                    p,
                ) == port_steps(t, port_orientation(&old_g, p)) by {
                    assert(port_orientation(g, p) == port_step(
                        steps@[k as int],
                        port_orientation(&before, p),
                    ));
                }
                assert forall|n: int| 0 <= n < old_g.nodes@.len() implies #[trigger] node_orientation(
                    g,
                    n,
                ) == node_steps(
                    t,
                    old_g.nodes@[n].node_type == NodeType::ExternalPort,
                    node_orientation(&old_g, n),
                ) by {
                    assert(node_orientation(g, n) == node_step(
                        steps@[k as int],
                        before.nodes@[n].node_type == NodeType::ExternalPort,
                        node_orientation(&before, n),
                    ));
                    assert(before.nodes@[n].node_type == old_g.nodes@[n].node_type);
                }
                assert forall|n: int| 0 <= n < old_g.nodes@.len() implies #[trigger] g.nodes@[n].alignment
                    == alignment_steps(t, old_g.nodes@[n].alignment) by {
                    assert(g.nodes@[n].alignment == alignment_step(steps@[k as int], before.nodes@[n].alignment));
                }
                assert forall|n: int| 0 <= n < old_g.nodes@.len() implies #[trigger] g.nodes@[n].label_placement
                    == placement_steps(t, old_g.nodes@[n].label_placement) by {
                    assert(g.nodes@[n].label_placement == placement_step(steps@[k as int], before.nodes@[n].label_placement));
                }
            }
            k += 1;
        }
        assert(steps@.take(steps@.len() as int) == steps@);
    }
}

/// A node's constraints with unset ones read as unconstrained.
pub open spec fn effective_orientation(
    o: (Option<PortSide>, Option<LayerConstraint>, Option<InLayerConstraint>),
) -> (Option<PortSide>, LayerConstraint, InLayerConstraint) {
    (
        o.0,
        match o.1 {
            Some(c) => c,
            None => LayerConstraint::Unconstrained,
        },
        match o.2 {
            Some(c) => c,
            None => InLayerConstraint::Unconstrained,
        },
    )
}

/// Transforming a graph into the internal left-to-right direction and then
/// back into its input direction restores the side and fixed index of every
/// port, the alignment of every node, and the external port side and
/// (effective) layer and in-layer constraints of every external port dummy
/// that does not carry both a layer and an in-layer constraint.
pub proof fn lemma_round_trip_restores_orientation(
    congruency: DirectionCongruency,
    direction: Direction,
    port: (PortSide, Option<i32>),
    is_external_port: bool,
    node: (Option<PortSide>, Option<LayerConstraint>, Option<InLayerConstraint>),
    alignment: Option<Alignment>,
)
    requires
        port.1 != Some(i32::MIN),
        effective_orientation(node).1 == LayerConstraint::Unconstrained || effective_orientation(
            node,
        ).2 == InLayerConstraint::Unconstrained,
    ensures
        port_steps(
            spec_steps(Mode::ToInputDirection, congruency, direction),
            port_steps(spec_steps(Mode::ToInternalLtr, congruency, direction), port),
        ) == port,
        effective_orientation(
            node_steps(
                spec_steps(Mode::ToInputDirection, congruency, direction),
                is_external_port,
                node_steps(spec_steps(Mode::ToInternalLtr, congruency, direction), is_external_port, node),
            ),
        ) == effective_orientation(node),
        alignment_steps(
            spec_steps(Mode::ToInputDirection, congruency, direction),
            alignment_steps(spec_steps(Mode::ToInternalLtr, congruency, direction), alignment),
        ) == alignment,
{
    reveal_with_fuel(port_steps, 3);
    reveal_with_fuel(node_steps, 3);
    reveal_with_fuel(alignment_steps, 3);
    let to_internal = spec_steps(Mode::ToInternalLtr, congruency, direction);
    let to_input = spec_steps(Mode::ToInputDirection, congruency, direction);
    assert(to_internal.len() <= 2);
    assert(to_input.len() <= 2);
    if to_internal.len() == 2 {
        assert(to_internal.drop_last().drop_last() == Seq::<TransformStep>::empty());
    }
    if to_input.len() == 2 {
        assert(to_input.drop_last().drop_last() == Seq::<TransformStep>::empty());
    }
    if to_internal.len() == 1 {
        assert(to_internal.drop_last() == Seq::<TransformStep>::empty());
    }
    if to_input.len() == 1 {
        assert(to_input.drop_last() == Seq::<TransformStep>::empty());
    }
}


/// Mirroring twice along the same axis, or transposing twice, restores a
/// port side; so do the constraint and alignment mirrors.
pub proof fn lemma_orientation_involutions(
    side: PortSide,
    c: LayerConstraint,
    ic: InLayerConstraint,
    a: Alignment,
)
    ensures
        spec_mirrored_alignment_x(spec_mirrored_alignment_x(a)) == a,
        spec_mirrored_alignment_y(spec_mirrored_alignment_y(a)) == a,
        spec_transposed_alignment(spec_transposed_alignment(a)) == a,
        spec_mirrored_port_side_x(spec_mirrored_port_side_x(side)) == side,
        spec_mirrored_port_side_y(spec_mirrored_port_side_y(side)) == side,
        spec_transposed_port_side(spec_transposed_port_side(side)) == side,
        spec_mirrored_layer_constraint(spec_mirrored_layer_constraint(c)) == c,
        spec_mirrored_in_layer_constraint(spec_mirrored_in_layer_constraint(ic)) == ic,
{
}

/// A clockwise quarter turn of a side: north becomes east, east south,
/// south west and west north.
pub open spec fn quarter_turn_clockwise(side: PortSide) -> PortSide {
    match side {
        PortSide::North => PortSide::East,
        PortSide::East => PortSide::South,
        PortSide::South => PortSide::West,
        PortSide::West => PortSide::North,
        PortSide::Undefined => PortSide::Undefined,
    }
}

/// A counter-clockwise quarter turn of a side: north becomes west, west
/// south, south east and east north.
pub open spec fn quarter_turn_counter_clockwise(side: PortSide) -> PortSide {
    match side {
        PortSide::North => PortSide::West,
        PortSide::West => PortSide::South,
        PortSide::South => PortSide::East,
        PortSide::East => PortSide::North,
        PortSide::Undefined => PortSide::Undefined,
    }
}

/// A half turn of a side: each side becomes the opposite one.
pub open spec fn half_turn(side: PortSide) -> PortSide {
    match side {
        PortSide::North => PortSide::South,
        PortSide::South => PortSide::North,
        PortSide::East => PortSide::West,
        PortSide::West => PortSide::East,
        PortSide::Undefined => PortSide::Undefined,
    }
}

/// Under the rotation congruency the graph turns as a whole: into the
/// internal left-to-right direction, an upward graph turns a quarter
/// counter-clockwise, a downward one a quarter clockwise, a leftward one
/// half round, and a rightward one stays; back into the input direction the
/// turns are undone. Every port side turns that way, whatever its index.
pub proof fn lemma_rotation_turns_the_graph(side: PortSide, index: Option<i32>)
    ensures
        port_steps(spec_steps(Mode::ToInternalLtr, DirectionCongruency::Rotation, Direction::Up), (side, index)).0
            == quarter_turn_counter_clockwise(side),
        port_steps(spec_steps(Mode::ToInternalLtr, DirectionCongruency::Rotation, Direction::Down), (side, index)).0
            == quarter_turn_clockwise(side),
        port_steps(spec_steps(Mode::ToInternalLtr, DirectionCongruency::Rotation, Direction::Left), (side, index)).0
            == half_turn(side),
        port_steps(spec_steps(Mode::ToInternalLtr, DirectionCongruency::Rotation, Direction::Right), (side, index)).0
            == side,
        port_steps(spec_steps(Mode::ToInputDirection, DirectionCongruency::Rotation, Direction::Up), (side, index)).0
            == quarter_turn_clockwise(side),
        port_steps(spec_steps(Mode::ToInputDirection, DirectionCongruency::Rotation, Direction::Down), (side, index)).0
            == quarter_turn_counter_clockwise(side),
        port_steps(spec_steps(Mode::ToInputDirection, DirectionCongruency::Rotation, Direction::Left), (side, index)).0
            == half_turn(side),
        port_steps(spec_steps(Mode::ToInputDirection, DirectionCongruency::Rotation, Direction::Right), (side, index)).0
            == side,
{
    reveal_with_fuel(port_steps, 3);
    let o = (side, index);
    let up_in = spec_steps(Mode::ToInternalLtr, DirectionCongruency::Rotation, Direction::Up);
    let down_in = spec_steps(Mode::ToInternalLtr, DirectionCongruency::Rotation, Direction::Down);
    let left_in = spec_steps(Mode::ToInternalLtr, DirectionCongruency::Rotation, Direction::Left);
    let up_out = spec_steps(Mode::ToInputDirection, DirectionCongruency::Rotation, Direction::Up);
    let down_out = spec_steps(Mode::ToInputDirection, DirectionCongruency::Rotation, Direction::Down);
    let left_out = spec_steps(Mode::ToInputDirection, DirectionCongruency::Rotation, Direction::Left);
    assert(up_in.drop_last().drop_last() == Seq::<TransformStep>::empty());
    assert(down_in.drop_last().drop_last() == Seq::<TransformStep>::empty());
    assert(left_in.drop_last().drop_last() == Seq::<TransformStep>::empty());
    assert(up_out.drop_last().drop_last() == Seq::<TransformStep>::empty());
    assert(down_out.drop_last().drop_last() == Seq::<TransformStep>::empty());
    assert(left_out.drop_last().drop_last() == Seq::<TransformStep>::empty());
}

/// A side seen in a mirror held upright: east and west swap.
pub open spec fn swap_east_west(side: PortSide) -> PortSide {
    match side {
        PortSide::East => PortSide::West,
        PortSide::West => PortSide::East,
        _ => side,
    }
}

/// A side reflected in the diagonal from the top left corner: north and
/// west swap, and so do south and east.
pub open spec fn reflect_in_diagonal(side: PortSide) -> PortSide {
    match side {
        PortSide::North => PortSide::West,
        PortSide::West => PortSide::North,
        PortSide::South => PortSide::East,
        PortSide::East => PortSide::South,
        PortSide::Undefined => PortSide::Undefined,
    }
}

/// Under the reading-direction congruency, a leftward graph is mirrored
/// (east and west swap), a downward one reflected in the diagonal, an
/// upward one turned a quarter counter-clockwise into the internal
/// direction and a quarter clockwise back, and a rightward one stays.
pub proof fn lemma_reading_direction_turns_the_graph(side: PortSide, index: Option<i32>)
    ensures
        port_steps(spec_steps(Mode::ToInternalLtr, DirectionCongruency::ReadingDirection, Direction::Left), (side, index)).0
            == swap_east_west(side),
        port_steps(spec_steps(Mode::ToInputDirection, DirectionCongruency::ReadingDirection, Direction::Left), (side, index)).0
            == swap_east_west(side),
        port_steps(spec_steps(Mode::ToInternalLtr, DirectionCongruency::ReadingDirection, Direction::Down), (side, index)).0
            == reflect_in_diagonal(side),
        port_steps(spec_steps(Mode::ToInputDirection, DirectionCongruency::ReadingDirection, Direction::Down), (side, index)).0
            == reflect_in_diagonal(side),
        port_steps(spec_steps(Mode::ToInternalLtr, DirectionCongruency::ReadingDirection, Direction::Up), (side, index)).0
            == quarter_turn_counter_clockwise(side),
        port_steps(spec_steps(Mode::ToInputDirection, DirectionCongruency::ReadingDirection, Direction::Up), (side, index)).0
            == quarter_turn_clockwise(side),
        port_steps(spec_steps(Mode::ToInternalLtr, DirectionCongruency::ReadingDirection, Direction::Right), (side, index)).0
            == side,
        port_steps(spec_steps(Mode::ToInputDirection, DirectionCongruency::ReadingDirection, Direction::Right), (side, index)).0
            == side,
{
    reveal_with_fuel(port_steps, 3);
    let up_in = spec_steps(Mode::ToInternalLtr, DirectionCongruency::ReadingDirection, Direction::Up);
    let up_out = spec_steps(Mode::ToInputDirection, DirectionCongruency::ReadingDirection, Direction::Up);
    let left = spec_steps(Mode::ToInternalLtr, DirectionCongruency::ReadingDirection, Direction::Left);
    let down = spec_steps(Mode::ToInternalLtr, DirectionCongruency::ReadingDirection, Direction::Down);
    assert(up_in.drop_last().drop_last() == Seq::<TransformStep>::empty());
    assert(up_out.drop_last().drop_last() == Seq::<TransformStep>::empty());
    assert(left.drop_last() == Seq::<TransformStep>::empty());
    assert(down.drop_last() == Seq::<TransformStep>::empty());
}

/// The side an external port dummy records turns exactly as a port on that
/// side does, whatever the steps; the nodes of other kinds keep their
/// orientation; and each step negates a fixed port index, so an index comes
/// out negated after an odd number of steps and unchanged after an even one.
pub proof fn lemma_dummies_turn_with_their_ports(
    steps: Seq<TransformStep>,
    o: (Option<PortSide>, Option<LayerConstraint>, Option<InLayerConstraint>),
    side: PortSide,
    index: i32,
)
    requires
        index != i32::MIN,
    ensures
        node_steps(steps, true, o).0 == match o.0 {
            Some(x) => Some(port_steps(steps, (x, None)).0),
            None => None,
        },
        node_steps(steps, false, o) == o,
        port_steps(steps, (side, Some(index))).1 == Some(if steps.len() % 2 == 0 {
            index
        } else {
            (-index) as i32
        }),
        port_steps(steps, (side, None)).1 is None,
    decreases steps.len(),
{
    if steps.len() > 0 {
        lemma_dummies_turn_with_their_ports(steps.drop_last(), o, side, index);
    }
}

} // verus!

//! What a breaking point records about the edge it cuts.
use vstd::prelude::*;

verus! {

/// The two breaking point dummies that cut a long edge where the drawing
/// wraps, the edges between them, and the neighbouring breaking points of
/// the same edge. Nodes and edges are indices into the graph's arenas;
/// `prev` and `next` index the list of breaking point records.
pub struct BreakingPointInfo {
    pub start: usize,
    pub end: usize,
    pub node_start_edge: usize,
    pub start_end_edge: usize,
    pub original_edge: usize,
    pub start_in_layer_dummy: Option<usize>,
    pub start_in_layer_edge: Option<usize>,
    pub end_in_layer_dummy: Option<usize>,
    pub end_in_layer_edge: Option<usize>,
    pub prev: Option<usize>,
    pub next: Option<usize>,
}

impl BreakingPointInfo {
    /// A record of the given dummies and edges, without in-layer dummies
    /// and without neighbours.
    pub fn new(
        start: usize,
        end: usize,
        node_start_edge: usize,
        start_end_edge: usize,
        original_edge: usize,
    ) -> (info: BreakingPointInfo)
        ensures
            info.start == start,
            info.end == end,
            info.node_start_edge == node_start_edge,
            info.start_end_edge == start_end_edge,
            info.original_edge == original_edge,
            info.start_in_layer_dummy is None,
            info.start_in_layer_edge is None,
            info.end_in_layer_dummy is None,
            info.end_in_layer_edge is None,
            info.prev is None,
            info.next is None,
    {
        BreakingPointInfo {
            start,
            end,
            node_start_edge,
            start_end_edge,
            original_edge,
            start_in_layer_dummy: None,
            start_in_layer_edge: None,
            end_in_layer_dummy: None,
            end_in_layer_edge: None,
            prev: None,
            next: None,
        }
    }
}

} // verus!

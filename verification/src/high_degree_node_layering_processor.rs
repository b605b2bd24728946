//! The degree tests of high-degree node layering, which moves small trees
//! hanging off a node of high degree into layers of their own.
use vstd::prelude::*;

use crate::breaking_point_inserter::{lemma_port_edges_valid, node_edges, node_edges_of};
use crate::breaking_point_processor::port_edges;
use crate::graph::{
    LGraph, LNode, insert_layer, layer_after_insert, layer_after_retain, layer_views, moved_layers,
    remove_empty_layers,
    same_but_layer, set_layer,
};

verus! {

/// Moves trees hanging off high-degree nodes into layers of their own.
pub struct HighDegreeNodeLayeringProcessor {
    degree_threshold: i32,
    tree_height_threshold: i32,
}

/// Which edges of a node to look at.
#[derive(Clone, Copy, Debug, PartialEq, Eq, Structural)]
pub enum EdgeSelector {
    Incoming,
    Outgoing,
    Connected,
}

/// The node of the port the edge leaves, if the port has one.
pub open spec fn spec_source_node(g: &LGraph, e: int) -> Option<usize> {
    g.ports@[g.edges@[e].source as int].node
}

/// The node of the port the edge enters, if the port has one.
pub open spec fn spec_target_node(g: &LGraph, e: int) -> Option<usize> {
    g.ports@[g.edges@[e].target as int].node
}

/// The other end of an edge at `n`: its target when it leaves `n`, its
/// source when it enters `n`; nothing when an end has no node or neither end
/// is `n`.
pub open spec fn spec_other_node(g: &LGraph, e: int, n: usize) -> Option<usize> {
    match (spec_source_node(g, e), spec_target_node(g, e)) {
        (Some(s), Some(t)) => if s == n {
            Some(t)
        } else if t == n {
            Some(s)
        } else {
            None
        },
        _ => None,
    }
}

/// The edge is one of the node's edges that the selector picks.
pub open spec fn selected(g: &LGraph, n: usize, sel: EdgeSelector, e: int) -> bool {
    match sel {
        EdgeSelector::Incoming => spec_target_node(g, e) == Some(n),
        EdgeSelector::Outgoing => spec_source_node(g, e) == Some(n),
        EdgeSelector::Connected => spec_target_node(g, e) == Some(n) || spec_source_node(g, e)
            == Some(n),
    }
}

/// The number of edge ends at the node among the first `k` edges: an edge
/// from the node to itself counts twice.
pub open spec fn ends_at(g: &LGraph, n: usize, k: int) -> nat
    decreases k,
{
    if k <= 0 {
        0
    } else {
        ends_at(g, n, k - 1) + (if spec_target_node(g, k - 1) == Some(n) {
            1nat
        } else {
            0nat
        }) + (if spec_source_node(g, k - 1) == Some(n) {
            1nat
        } else {
            0nat
        })
    }
}

/// The node's degree: the number of edge ends at its ports.
pub open spec fn spec_degree(g: &LGraph, n: usize) -> nat {
    ends_at(g, n, g.edges@.len() as int)
}

/// All the node's selected edges whose other end is a node lead to one and
/// the same node.
pub open spec fn single_connection(g: &LGraph, n: usize, sel: EdgeSelector) -> bool {
    forall|e1: int, e2: int|
        0 <= e1 < g.edges@.len() && 0 <= e2 < g.edges@.len() && #[trigger] selected(g, n, sel, e1)
            && #[trigger] selected(g, n, sel, e2) && spec_other_node(g, e1, n) is Some
            && spec_other_node(g, e2, n) is Some ==> spec_other_node(g, e1, n) == spec_other_node(
            g,
            e2,
            n,
        )
}

/// The node of the port the edge leaves, if the port has one.
pub fn source_node(g: &LGraph, e: usize) -> (res: Option<usize>)
    requires
        g.wf(),
        e < g.edges@.len(),
    ensures
        res == spec_source_node(g, e as int),
{
    assert(g.edges@[e as int].source < g.ports@.len());
    g.ports[g.edges[e].source].node
}

/// The node of the port the edge enters, if the port has one.
pub fn target_node(g: &LGraph, e: usize) -> (res: Option<usize>)
    requires
        g.wf(),
        e < g.edges@.len(),
    ensures
        res == spec_target_node(g, e as int),
{
    assert(g.edges@[e as int].source < g.ports@.len());
    g.ports[g.edges[e].target].node
}

/// The other end of an edge at the node.
pub fn other_node(g: &LGraph, e: usize, n: usize) -> (res: Option<usize>)
    requires
        g.wf(),
        e < g.edges@.len(),
    ensures
        res == spec_other_node(g, e as int, n),
{
    let source = source_node(g, e)?;
    let target = target_node(g, e)?;
    if source == n {
        return Some(target);
    }
    if target == n {
        return Some(source);
    }
    None
}

/// Whether the edge is one of the node's edges that the selector picks.
fn selected_exec(g: &LGraph, n: usize, sel: EdgeSelector, e: usize) -> (res: bool)
    requires
        g.wf(),
        e < g.edges@.len(),
    ensures
        res == selected(g, n, sel, e as int),
{
    match sel {
        EdgeSelector::Incoming => target_node(g, e) == Some(n),
        EdgeSelector::Outgoing => source_node(g, e) == Some(n),
        EdgeSelector::Connected => target_node(g, e) == Some(n) || source_node(g, e) == Some(n),
    }
}

/// The height of the tree hanging from `root` along the descendant edges,
/// or -1 when it is no tree that may be moved: the root has high degree or
/// more than one ancestor, an edge below it leads nowhere or into no tree,
/// or the tree is taller than the height threshold. A root without
/// descendant edges has height 1. `k` bounds the depth of the search.
pub open spec fn tree_height(
    g: &LGraph,
    root: usize,
    anc: EdgeSelector,
    desc: EdgeSelector,
    degree_threshold: i32,
    height_threshold: i32,
    k: nat,
) -> int
    decreases k, 1nat, 0int,
{
    if k == 0 {
        -1
    } else if spec_degree(g, root) >= degree_threshold {
        -1
    } else if !single_connection(g, root, anc) {
        -1
    } else if !has_selected(g, root, desc, g.edges@.len() as int) {
        1
    } else {
        let m = subtree_max(g, root, anc, desc, degree_threshold, height_threshold, k, g.edges@.len() as int);
        if m == -1 || m > height_threshold - 1 {
            -1
        } else {
            m + 1
        }
    }
}

/// Some of the first `e` edges is a selected edge of the node.
pub open spec fn has_selected(g: &LGraph, n: usize, sel: EdgeSelector, e: int) -> bool {
    exists|f: int| 0 <= f < e && #[trigger] selected(g, n, sel, f)
}

/// The greatest height among the subtrees below `root` reached over its
/// selected descendant edges among the first `e` edges (0 when there is
/// none), or -1 when one of them leads nowhere or into no tree.
pub open spec fn subtree_max(
    g: &LGraph,
    root: usize,
    anc: EdgeSelector,
    desc: EdgeSelector,
    degree_threshold: i32,
    height_threshold: i32,
    k: nat,
    e: int,
) -> int
    decreases k, 0nat, e,
{
    if k == 0 || e <= 0 {
        0
    } else {
        let prev = subtree_max(g, root, anc, desc, degree_threshold, height_threshold, k, e - 1);
        if !selected(g, root, desc, e - 1) {
            prev
        } else if prev == -1 {
            -1
        } else {
            match spec_other_node(g, e - 1, root) {
                Some(o) => {
                    let h = tree_height(g, o, anc, desc, degree_threshold, height_threshold, (k - 1) as nat);
                    if h == -1 {
                        -1
                    } else if h > prev {
                        h
                    } else {
                        prev
                    }
                },
                None => -1,
            }
        }
    }
}

/// The search for a tree below `n` ends within `k` levels: it stops at a
/// node of high degree or with more than one ancestor, and otherwise every
/// descendant has a search that ends within `k - 1` levels.
pub open spec fn depth_ok(
    g: &LGraph,
    n: usize,
    anc: EdgeSelector,
    desc: EdgeSelector,
    degree_threshold: i32,
    k: nat,
) -> bool
    decreases k,
{
    &&& k > 0
    &&& (spec_degree(g, n) >= degree_threshold || !single_connection(g, n, anc) || forall|e: int|
        0 <= e < g.edges@.len() && #[trigger] selected(g, n, desc, e) ==> match spec_other_node(
            g,
            e,
            n,
        ) {
            Some(o) => depth_ok(g, o, anc, desc, degree_threshold, (k - 1) as nat),
            None => true,
        })
}

/// The subtree maxima never fall back below an earlier one unless they
/// turn -1 (no tree).
proof fn lemma_subtree_max_grows(
    g: &LGraph,
    root: usize,
    anc: EdgeSelector,
    desc: EdgeSelector,
    dt: i32,
    ht: i32,
    k: nat,
    e1: int,
    e2: int,
)
    requires
        0 <= e1 <= e2,
    ensures
        subtree_max(g, root, anc, desc, dt, ht, k, e2) == -1 || (subtree_max(g, root, anc, desc, dt, ht, k, e1)
            != -1 && subtree_max(g, root, anc, desc, dt, ht, k, e2) >= subtree_max(
            g,
            root,
            anc,
            desc,
            dt,
            ht,
            k,
            e1,
        )),
    decreases e2,
{
    if e2 > e1 {
        lemma_subtree_max_grows(g, root, anc, desc, dt, ht, k, e1, e2 - 1);
    }
}

/// With enough depth, a larger depth bound gives the same tree height.
proof fn lemma_tree_height_depth(
    g: &LGraph,
    root: usize,
    anc: EdgeSelector,
    desc: EdgeSelector,
    dt: i32,
    ht: i32,
    k1: nat,
    k2: nat,
)
    requires
        depth_ok(g, root, anc, desc, dt, k1),
        k1 <= k2,
    ensures
        depth_ok(g, root, anc, desc, dt, k2),
        tree_height(g, root, anc, desc, dt, ht, k1) == tree_height(g, root, anc, desc, dt, ht, k2),
    decreases k1, 1nat, 0int,
{
    if spec_degree(g, root) >= dt || !single_connection(g, root, anc) {
    } else {
        assert forall|e: int|
            0 <= e < g.edges@.len() && #[trigger] selected(g, root, desc, e) implies match spec_other_node(
                g,
                e,
                root,
            ) {
                Some(o) => depth_ok(g, o, anc, desc, dt, (k2 - 1) as nat),
                None => true,
            } by {
            if let Some(o) = spec_other_node(g, e, root) {
                lemma_tree_height_depth(g, o, anc, desc, dt, ht, (k1 - 1) as nat, (k2 - 1) as nat);
            }
        }
        lemma_subtree_max_depth(g, root, anc, desc, dt, ht, k1, k2, g.edges@.len() as int);
    }
}

/// With enough depth, a larger depth bound gives the same subtree maxima.
proof fn lemma_subtree_max_depth(
    g: &LGraph,
    root: usize,
    anc: EdgeSelector,
    desc: EdgeSelector,
    dt: i32,
    ht: i32,
    k1: nat,
    k2: nat,
    e: int,
)
    requires
        depth_ok(g, root, anc, desc, dt, k1),
        spec_degree(g, root) < dt,
        single_connection(g, root, anc),
        k1 <= k2,
        e <= g.edges@.len(),
    ensures
        subtree_max(g, root, anc, desc, dt, ht, k1, e) == subtree_max(g, root, anc, desc, dt, ht, k2, e),
    decreases k1, 0nat, e,
{
    if e > 0 {
        lemma_subtree_max_depth(g, root, anc, desc, dt, ht, k1, k2, e - 1);
        if selected(g, root, desc, e - 1) {
            if let Some(o) = spec_other_node(g, e - 1, root) {
                lemma_tree_height_depth(g, o, anc, desc, dt, ht, (k1 - 1) as nat, (k2 - 1) as nat);
            }
        }
    }
}

/// The depth bound that suffices when every search for a tree ends: one
/// more than the number of nodes.
pub open spec fn full_depth(g: &LGraph) -> nat {
    g.nodes@.len() + 1
}

/// Every search for a tree ends, in both directions: no node with low degree
/// and one ancestor lies on a cycle of such nodes.
pub open spec fn trees_end(g: &LGraph, degree_threshold: i32) -> bool {
    forall|n: usize|
        n < g.nodes@.len() ==> #[trigger] depth_ok(
            g,
            n,
            EdgeSelector::Outgoing,
            EdgeSelector::Incoming,
            degree_threshold,
            full_depth(g),
        ) && depth_ok(g, n, EdgeSelector::Incoming, EdgeSelector::Outgoing, degree_threshold, full_depth(g))
}

/// What is known about a high-degree node: the tallest tree hanging into
/// it and the roots of those trees, and the same for the trees hanging out
/// of it.
#[derive(Debug)]
pub struct HighDegreeNodeInformation {
    pub inc_trees_max_height: i32,
    pub inc_tree_roots: Vec<usize>,
    pub out_trees_max_height: i32,
    pub out_tree_roots: Vec<usize>,
}

/// The larger of two integers.
pub open spec fn max_int(a: int, b: int) -> int {
    if a >= b {
        a
    } else {
        b
    }
}

/// The trees reached over the edges in the list, at node `n`: for
/// `incoming`, the sources of the edges that are no self loops, whose only
/// outgoing connection is their target and that root a tree along their
/// incoming edges; otherwise the targets, symmetrically. Yields the tallest
/// height (-1 without trees) and the roots in list order.
pub open spec fn trees_in(g: &LGraph, incoming: bool, dt: i32, ht: i32, es: Seq<usize>) -> (
    int,
    Seq<usize>,
)
    decreases es.len(),
{
    if es.len() == 0 {
        (-1, Seq::empty())
    } else {
        let prev = trees_in(g, incoming, dt, ht, es.drop_last());
        let f = es.last() as int;
        let there = if incoming {
            spec_source_node(g, f)
        } else {
            spec_target_node(g, f)
        };
        let (toward, away) = if incoming {
            (EdgeSelector::Outgoing, EdgeSelector::Incoming)
        } else {
            (EdgeSelector::Incoming, EdgeSelector::Outgoing)
        };
        if spec_source_node(g, f) != spec_target_node(g, f) && there is Some && single_connection(
            g,
            there->0,
            toward,
        ) && tree_height(g, there->0, toward, away, dt, ht, full_depth(g)) != -1 {
            (
                max_int(prev.0, tree_height(g, there->0, toward, away, dt, ht, full_depth(g))),
                prev.1.push(there->0),
            )
        } else {
            prev
        }
    }
}

/// The trees hanging into node `n` (`incoming`: over its entering edges,
/// port by port) or out of it (over its leaving edges): the tallest height
/// (-1 without trees) and the roots in edge order.
pub open spec fn trees_at(g: &LGraph, n: usize, incoming: bool, dt: i32, ht: i32) -> (int, Seq<usize>) {
    trees_in(g, incoming, dt, ht, node_edges_of(g, n, !incoming))
}

/// The nodes of the list whose degree reaches the threshold, in order.
pub open spec fn high_degree_nodes(g: &LGraph, nodes: Seq<usize>, degree_threshold: i32) -> Seq<usize> {
    nodes.filter(|n: usize| spec_degree(g, n) >= degree_threshold)
}

/// The tallest tree hanging into (`incoming`) or out of any of the nodes,
/// -1 when there is none.
pub open spec fn tallest_tree(
    g: &LGraph,
    nodes: Seq<usize>,
    incoming: bool,
    dt: i32,
    ht: i32,
) -> int
    decreases nodes.len(),
{
    if nodes.len() == 0 {
        -1
    } else {
        max_int(
            tallest_tree(g, nodes.drop_last(), incoming, dt, ht),
            trees_at(g, nodes.last(), incoming, dt, ht).0,
        )
    }
}



/// Two graphs with the same ports, edges and nodes with the same ports:
/// they differ at most in where their nodes lie.
pub open spec fn same_frame(a: &LGraph, b: &LGraph) -> bool {
    &&& a.ports == b.ports
    &&& a.edges == b.edges
    &&& a.nodes@.len() == b.nodes@.len()
    &&& forall|n: int| 0 <= n < a.nodes@.len() ==> #[trigger] a.nodes@[n].ports == b.nodes@[n].ports
}

/// Degrees depend on ports and edges alone.
proof fn lemma_ends_at_frame(a: &LGraph, b: &LGraph, n: usize, k: int)
    requires
        same_frame(a, b),
    ensures
        ends_at(a, n, k) == ends_at(b, n, k),
    decreases k,
{
    if k > 0 {
        lemma_ends_at_frame(a, b, n, k - 1);
    }
}

/// Single connections depend on ports and edges alone.
proof fn lemma_single_connection_frame(a: &LGraph, b: &LGraph, n: usize, sel: EdgeSelector)
    requires
        same_frame(a, b),
    ensures
        single_connection(a, n, sel) == single_connection(b, n, sel),
        forall|e: int| #[trigger] selected(a, n, sel, e) == selected(b, n, sel, e),
        forall|e: int| #[trigger] spec_other_node(a, e, n) == spec_other_node(b, e, n),
{
    assert forall|e: int| #[trigger] selected(a, n, sel, e) == selected(b, n, sel, e) by {}
    assert forall|e: int| #[trigger] spec_other_node(a, e, n) == spec_other_node(b, e, n) by {}
    if single_connection(a, n, sel) {
        assert forall|e1: int, e2: int|
            0 <= e1 < b.edges@.len() && 0 <= e2 < b.edges@.len() && #[trigger] selected(b, n, sel, e1)
                && #[trigger] selected(b, n, sel, e2) && spec_other_node(b, e1, n) is Some
                && spec_other_node(b, e2, n) is Some implies spec_other_node(b, e1, n) == spec_other_node(b, e2, n) by {
            assert(selected(a, n, sel, e1) && selected(a, n, sel, e2));
        }
    }
    if single_connection(b, n, sel) {
        assert forall|e1: int, e2: int|
            0 <= e1 < a.edges@.len() && 0 <= e2 < a.edges@.len() && #[trigger] selected(a, n, sel, e1)
                && #[trigger] selected(a, n, sel, e2) && spec_other_node(a, e1, n) is Some
                && spec_other_node(a, e2, n) is Some implies spec_other_node(a, e1, n) == spec_other_node(a, e2, n) by {
            assert(selected(b, n, sel, e1) && selected(b, n, sel, e2));
        }
    }
}

/// Tree heights depend on ports, edges and the number of nodes alone.
proof fn lemma_tree_height_frame(
    a: &LGraph,
    b: &LGraph,
    root: usize,
    anc: EdgeSelector,
    desc: EdgeSelector,
    dt: i32,
    ht: i32,
    k: nat,
)
    requires
        same_frame(a, b),
    ensures
        tree_height(a, root, anc, desc, dt, ht, k) == tree_height(b, root, anc, desc, dt, ht, k),
        depth_ok(a, root, anc, desc, dt, k) == depth_ok(b, root, anc, desc, dt, k),
    decreases k, 1nat, 0int,
{
    lemma_ends_at_frame(a, b, root, a.edges@.len() as int);
    lemma_single_connection_frame(a, b, root, anc);
    lemma_single_connection_frame(a, b, root, desc);
    if k > 0 {
        assert forall|e: int| 0 <= e < a.edges@.len() implies match #[trigger] spec_other_node(a, e, root) {
            Some(o) => depth_ok(a, o, anc, desc, dt, (k - 1) as nat) == depth_ok(b, o, anc, desc, dt, (k - 1) as nat),
            None => true,
        } by {
            if let Some(o) = spec_other_node(a, e, root) {
                lemma_tree_height_frame(a, b, o, anc, desc, dt, ht, (k - 1) as nat);
            }
        }
        let len = a.edges@.len() as int;
        if has_selected(a, root, desc, len) {
            let f = choose|f: int| 0 <= f < len && #[trigger] selected(a, root, desc, f);
            assert(selected(b, root, desc, f));
        }
        if has_selected(b, root, desc, len) {
            let f = choose|f: int| 0 <= f < len && #[trigger] selected(b, root, desc, f);
            assert(selected(a, root, desc, f));
        }
        lemma_subtree_max_frame(a, b, root, anc, desc, dt, ht, k, len);
        let da = forall|e: int|
            0 <= e < len && #[trigger] selected(a, root, desc, e) ==> match spec_other_node(a, e, root) {
                Some(o) => depth_ok(a, o, anc, desc, dt, (k - 1) as nat),
                None => true,
            };
        let db = forall|e: int|
            0 <= e < len && #[trigger] selected(b, root, desc, e) ==> match spec_other_node(b, e, root) {
                Some(o) => depth_ok(b, o, anc, desc, dt, (k - 1) as nat),
                None => true,
            };
        assert(da == db) by {
            if da {
                assert forall|e: int| 0 <= e < len && #[trigger] selected(b, root, desc, e) implies match spec_other_node(b, e, root) {
                    Some(o) => depth_ok(b, o, anc, desc, dt, (k - 1) as nat),
                    None => true,
                } by {
                    assert(selected(a, root, desc, e));
                    let _ = spec_other_node(a, e, root);
                }
            }
            if db {
                assert forall|e: int| 0 <= e < len && #[trigger] selected(a, root, desc, e) implies match spec_other_node(a, e, root) {
                    Some(o) => depth_ok(a, o, anc, desc, dt, (k - 1) as nat),
                    None => true,
                } by {
                    assert(selected(b, root, desc, e));
                    let _ = spec_other_node(a, e, root);
                }
            }
        }
    }
}

/// Subtree maxima depend on ports, edges and the number of nodes alone.
proof fn lemma_subtree_max_frame(
    a: &LGraph,
    b: &LGraph,
    root: usize,
    anc: EdgeSelector,
    desc: EdgeSelector,
    dt: i32,
    ht: i32,
    k: nat,
    e: int,
)
    requires
        same_frame(a, b),
    ensures
        subtree_max(a, root, anc, desc, dt, ht, k, e) == subtree_max(b, root, anc, desc, dt, ht, k, e),
    decreases k, 0nat, e,
{
    if k > 0 && e > 0 {
        lemma_subtree_max_frame(a, b, root, anc, desc, dt, ht, k, e - 1);
        lemma_single_connection_frame(a, b, root, desc);
        if let Some(o) = spec_other_node(a, e - 1, root) {
            lemma_tree_height_frame(a, b, o, anc, desc, dt, ht, (k - 1) as nat);
        }
    }
}

/// The trees over a list of edges depend on ports, edges and the number of
/// nodes alone.
proof fn lemma_trees_in_frame(a: &LGraph, b: &LGraph, incoming: bool, dt: i32, ht: i32, es: Seq<usize>)
    requires
        same_frame(a, b),
    ensures
        trees_in(a, incoming, dt, ht, es) == trees_in(b, incoming, dt, ht, es),
    decreases es.len(),
{
    if es.len() > 0 {
        lemma_trees_in_frame(a, b, incoming, dt, ht, es.drop_last());
        let f = es.last() as int;
        let there = if incoming { spec_source_node(a, f) } else { spec_target_node(a, f) };
        if let Some(o) = there {
            lemma_single_connection_frame(a, b, o, EdgeSelector::Outgoing);
            lemma_single_connection_frame(a, b, o, EdgeSelector::Incoming);
            lemma_tree_height_frame(a, b, o, EdgeSelector::Outgoing, EdgeSelector::Incoming, dt, ht, full_depth(a));
            lemma_tree_height_frame(a, b, o, EdgeSelector::Incoming, EdgeSelector::Outgoing, dt, ht, full_depth(a));
        }
    }
}

/// The edges at a list of ports depend on the edges alone.
proof fn lemma_port_edges_frame(a: &LGraph, b: &LGraph, ports: Seq<usize>, forwards: bool)
    requires
        a.edges == b.edges,
    ensures
        port_edges(a, ports, forwards) == port_edges(b, ports, forwards),
    decreases ports.len(),
{
    if ports.len() > 0 {
        lemma_port_edges_frame(a, b, ports.drop_last(), forwards);
        assert(a.outgoing_of(ports.last() as int) == b.outgoing_of(ports.last() as int));
        assert(a.incoming_of(ports.last() as int) == b.incoming_of(ports.last() as int));
    }
}

/// The trees at a node depend on ports, edges, the nodes' ports and the
/// number of nodes alone.
proof fn lemma_trees_at_frame(a: &LGraph, b: &LGraph, n: usize, incoming: bool, dt: i32, ht: i32)
    requires
        same_frame(a, b),
        n < a.nodes@.len(),
    ensures
        trees_at(a, n, incoming, dt, ht) == trees_at(b, n, incoming, dt, ht),
{
    lemma_port_edges_frame(a, b, a.nodes@[n as int].ports@, !incoming);
    lemma_trees_in_frame(a, b, incoming, dt, ht, node_edges_of(a, n, !incoming));
}

/// The tallest trees depend on ports, edges and the number of nodes alone.
proof fn lemma_tallest_tree_frame(a: &LGraph, b: &LGraph, nodes: Seq<usize>, incoming: bool, dt: i32, ht: i32)
    requires
        same_frame(a, b),
        forall|i: int| 0 <= i < nodes.len() ==> #[trigger] nodes[i] < a.nodes@.len(),
    ensures
        tallest_tree(a, nodes, incoming, dt, ht) == tallest_tree(b, nodes, incoming, dt, ht),
    decreases nodes.len(),
{
    if nodes.len() > 0 {
        lemma_tallest_tree_frame(a, b, nodes.drop_last(), incoming, dt, ht);
        lemma_trees_at_frame(a, b, nodes.last(), incoming, dt, ht);
    }
}

/// The high-degree nodes of a list and whether every search for a tree
/// ends depend on ports, edges and the number of nodes alone.
proof fn lemma_high_degree_frame(a: &LGraph, b: &LGraph, nodes: Seq<usize>, dt: i32)
    requires
        same_frame(a, b),
    ensures
        high_degree_nodes(a, nodes, dt) == high_degree_nodes(b, nodes, dt),
        trees_end(a, dt) == trees_end(b, dt),
{
    assert forall|n: usize| #[trigger] spec_degree(a, n) == spec_degree(b, n) by {
        lemma_ends_at_frame(a, b, n, a.edges@.len() as int);
    }
    assert((|n: usize| spec_degree(a, n) >= dt) =~= (|n: usize| spec_degree(b, n) >= dt));
    assert forall|n: usize| n < a.nodes@.len() implies #[trigger] depth_ok(
        a,
        n,
        EdgeSelector::Outgoing,
        EdgeSelector::Incoming,
        dt,
        full_depth(a),
    ) == depth_ok(b, n, EdgeSelector::Outgoing, EdgeSelector::Incoming, dt, full_depth(b)) && depth_ok(
        a,
        n,
        EdgeSelector::Incoming,
        EdgeSelector::Outgoing,
        dt,
        full_depth(a),
    ) == depth_ok(b, n, EdgeSelector::Incoming, EdgeSelector::Outgoing, dt, full_depth(b)) by {
        lemma_tree_height_frame(a, b, n, EdgeSelector::Outgoing, EdgeSelector::Incoming, dt, 0, full_depth(a));
        lemma_tree_height_frame(a, b, n, EdgeSelector::Incoming, EdgeSelector::Outgoing, dt, 0, full_depth(a));
    }
    if trees_end(a, dt) {
        assert forall|n: usize| n < b.nodes@.len() implies #[trigger] depth_ok(
            b,
            n,
            EdgeSelector::Outgoing,
            EdgeSelector::Incoming,
            dt,
            full_depth(b),
        ) && depth_ok(b, n, EdgeSelector::Incoming, EdgeSelector::Outgoing, dt, full_depth(b)) by {
            assert(depth_ok(a, n, EdgeSelector::Outgoing, EdgeSelector::Incoming, dt, full_depth(a)));
        }
    }
    if trees_end(b, dt) {
        assert forall|n: usize| n < a.nodes@.len() implies #[trigger] depth_ok(
            a,
            n,
            EdgeSelector::Outgoing,
            EdgeSelector::Incoming,
            dt,
            full_depth(a),
        ) && depth_ok(a, n, EdgeSelector::Incoming, EdgeSelector::Outgoing, dt, full_depth(a)) by {
            assert(depth_ok(b, n, EdgeSelector::Outgoing, EdgeSelector::Incoming, dt, full_depth(b)));
        }
    }
}

/// The layer each node records.
pub open spec fn node_layers(g: &LGraph) -> Seq<Option<usize>> {
    g.nodes@.map_values(|n: LNode| n.layer)
}

/// The edges of each port in turn, entering ones before leaving ones.
pub open spec fn connected_port_edges(g: &LGraph, ports: Seq<usize>) -> Seq<usize>
    decreases ports.len(),
{
    if ports.len() == 0 {
        Seq::empty()
    } else {
        connected_port_edges(g, ports.drop_last()) + g.incoming_of(ports.last() as int) + g.outgoing_of(
            ports.last() as int,
        )
    }
}

/// The edges of the node that the selector picks, port by port: the
/// entering ones, the leaving ones, or both.
pub open spec fn selected_edges_of(g: &LGraph, n: usize, sel: EdgeSelector) -> Seq<usize> {
    match sel {
        EdgeSelector::Incoming => port_edges(g, g.nodes@[n as int].ports@, false),
        EdgeSelector::Outgoing => port_edges(g, g.nodes@[n as int].ports@, true),
        EdgeSelector::Connected => connected_port_edges(g, g.nodes@[n as int].ports@),
    }
}

/// The moves, as pairs of node and target layer, that moving the tree at
/// `root` along the selected edges into the given layers makes: the root
/// goes to the first layer, and unless that is the last one, the other end
/// of each selected edge of the root, in edge order, is moved with the rest
/// of the layers.
pub open spec fn tree_moves(g: &LGraph, root: usize, sel: EdgeSelector, layers: Seq<usize>) -> Seq<
    (usize, usize),
>
    decreases layers.len(), 1nat, 0nat,
{
    if layers.len() == 0 {
        Seq::empty()
    } else if layers.len() == 1 {
        seq![(root, layers[0])]
    } else {
        seq![(root, layers[0])] + child_moves(g, root, sel, layers, selected_edges_of(g, root, sel))
    }
}

/// The moves of the subtrees reached over the edges in the list, into all
/// but the first of the layers.
pub open spec fn child_moves(
    g: &LGraph,
    root: usize,
    sel: EdgeSelector,
    layers: Seq<usize>,
    es: Seq<usize>,
) -> Seq<(usize, usize)>
    decreases layers.len(), 0nat, es.len(),
{
    if es.len() == 0 || layers.len() <= 1 {
        Seq::empty()
    } else {
        child_moves(g, root, sel, layers, es.drop_last()) + match spec_other_node(g, es.last() as int, root) {
            Some(o) => tree_moves(g, o, sel, layers.drop_first()),
            None => Seq::empty(),
        }
    }
}

/// The layer lists and the layers the nodes record after the moves, made
/// one after the other, each taking the node out of its layer and
/// appending it to the target layer.
pub open spec fn apply_moves(
    ls: Seq<Seq<usize>>,
    nl: Seq<Option<usize>>,
    moves: Seq<(usize, usize)>,
) -> (Seq<Seq<usize>>, Seq<Option<usize>>)
    decreases moves.len(),
{
    if moves.len() == 0 {
        (ls, nl)
    } else {
        let prev = apply_moves(ls, nl, moves.drop_last());
        let (n, l) = moves.last();
        (moved_layers(prev.0, prev.1[n as int], n, l as int), prev.1.update(n as int, Some(l)))
    }
}

/// Making two lists of moves in turn is making the first, then the second.
pub proof fn lemma_apply_moves_add(
    ls: Seq<Seq<usize>>,
    nl: Seq<Option<usize>>,
    a: Seq<(usize, usize)>,
    b: Seq<(usize, usize)>,
)
    ensures
        apply_moves(ls, nl, a + b) == apply_moves(apply_moves(ls, nl, a).0, apply_moves(ls, nl, a).1, b),
    decreases b.len(),
{
    if b.len() == 0 {
        assert(a + b == a);
    } else {
        lemma_apply_moves_add(ls, nl, a, b.drop_last());
        assert((a + b).drop_last() == a + b.drop_last());
        assert((a + b).last() == b.last());
    }
}

/// The edges of each port in turn depend on the edges alone.
proof fn lemma_connected_port_edges_frame(a: &LGraph, b: &LGraph, ports: Seq<usize>)
    requires
        a.edges == b.edges,
    ensures
        connected_port_edges(a, ports) == connected_port_edges(b, ports),
    decreases ports.len(),
{
    if ports.len() > 0 {
        lemma_connected_port_edges_frame(a, b, ports.drop_last());
        assert(a.outgoing_of(ports.last() as int) == b.outgoing_of(ports.last() as int));
        assert(a.incoming_of(ports.last() as int) == b.incoming_of(ports.last() as int));
    }
}

/// The edges of each port in turn are edges of the graph.
proof fn lemma_connected_port_edges_valid(g: &LGraph, ports: Seq<usize>)
    ensures
        forall|i: int| 0 <= i < connected_port_edges(g, ports).len() ==> #[trigger] connected_port_edges(
            g,
            ports,
        )[i] < g.edges@.len(),
    decreases ports.len(),
{
    if ports.len() > 0 {
        lemma_connected_port_edges_valid(g, ports.drop_last());
        let a = connected_port_edges(g, ports.drop_last());
        let b = g.incoming_of(ports.last() as int);
        let c = g.outgoing_of(ports.last() as int);
        crate::edge_and_layer_constraint_edge_reverser::lemma_port_edges(g, ports.last());
        assert forall|i: int| 0 <= i < (a + b + c).len() implies #[trigger] (a + b + c)[i] < g.edges@.len() by {
            if i >= a.len() + b.len() {
                assert(c.contains(c[i - a.len() - b.len()]));
            } else if i >= a.len() {
                assert(b.contains(b[i - a.len()]));
            }
        }
    }
}

/// The selected edges of a node are edges of the graph, and depend on its
/// ports and the edges alone.
proof fn lemma_selected_edges(a: &LGraph, b: &LGraph, n: usize, sel: EdgeSelector)
    requires
        same_frame(a, b),
        n < a.nodes@.len(),
    ensures
        selected_edges_of(a, n, sel) == selected_edges_of(b, n, sel),
        forall|i: int| 0 <= i < selected_edges_of(a, n, sel).len() ==> #[trigger] selected_edges_of(
            a,
            n,
            sel,
        )[i] < a.edges@.len(),
{
    let ports = a.nodes@[n as int].ports@;
    assert(b.nodes@[n as int].ports@ == ports);
    lemma_port_edges_frame(a, b, ports, true);
    lemma_port_edges_frame(a, b, ports, false);
    lemma_connected_port_edges_frame(a, b, ports);
    lemma_port_edges_valid(a, ports, true);
    lemma_port_edges_valid(a, ports, false);
    lemma_connected_port_edges_valid(a, ports);
}

/// The moves of a tree depend on the ports, edges and nodes' ports of the
/// graph alone.
proof fn lemma_tree_moves_frame(g1: &LGraph, g2: &LGraph, root: usize, sel: EdgeSelector, layers: Seq<usize>)
    requires
        g1.wf(),
        same_frame(g1, g2),
        root < g1.nodes@.len(),
    ensures
        tree_moves(g1, root, sel, layers) == tree_moves(g2, root, sel, layers),
    decreases layers.len(), 1nat, 0nat,
{
    if layers.len() > 1 {
        lemma_selected_edges(g1, g2, root, sel);
        lemma_child_moves_frame(g1, g2, root, sel, layers, selected_edges_of(g1, root, sel));
    }
}

/// The moves of the subtrees depend on the ports, edges and nodes' ports of
/// the graph alone.
proof fn lemma_child_moves_frame(
    g1: &LGraph,
    g2: &LGraph,
    root: usize,
    sel: EdgeSelector,
    layers: Seq<usize>,
    es: Seq<usize>,
)
    requires
        g1.wf(),
        same_frame(g1, g2),
        forall|i: int| 0 <= i < es.len() ==> #[trigger] es[i] < g1.edges@.len(),
    ensures
        child_moves(g1, root, sel, layers, es) == child_moves(g2, root, sel, layers, es),
    decreases layers.len(), 0nat, es.len(),
{
    if es.len() > 0 && layers.len() > 1 {
        lemma_child_moves_frame(g1, g2, root, sel, layers, es.drop_last());
        let e = es.last() as int;
        assert(es[es.len() - 1] < g1.edges@.len());
        if let Some(o) = spec_other_node(g1, e, root) {
            assert(g1.edges@[e].source < g1.ports@.len());
            assert(g1.ports@[g1.edges@[e].source as int].node matches Some(x) ==> x < g1.nodes@.len());
            assert(g1.ports@[g1.edges@[e].target as int].node matches Some(x) ==> x < g1.nodes@.len());
            lemma_tree_moves_frame(g1, g2, o, sel, layers.drop_first());
        }
    }
}

/// The edges of the node that the selector picks, port by port.
pub fn selected_edges(g: &LGraph, n: usize, sel: EdgeSelector) -> (res: Vec<usize>)
    requires
        g.wf(),
        n < g.nodes@.len(),
    ensures
        res@ == selected_edges_of(g, n, sel),
{
    match sel {
        EdgeSelector::Incoming => node_edges(g, n, false),
        EdgeSelector::Outgoing => node_edges(g, n, true),
        EdgeSelector::Connected => {
            let ghost ports = g.nodes@[n as int].ports@;
            let mut res: Vec<usize> = Vec::new();
            let mut j: usize = 0;
            while j < g.nodes[n].ports.len()
                invariant
                    g.wf(),
                    n < g.nodes@.len(),
                    ports == g.nodes@[n as int].ports@,
                    j <= ports.len(),
                    res@ == connected_port_edges(g, ports.take(j as int)),
                decreases ports.len() - j,
            {
                let p = g.nodes[n].ports[j];
                let ins = g.incoming_edges(p);
                let outs = g.outgoing_edges(p);
                let ghost before = res@;
                let mut k: usize = 0;
                while k < ins.len()
                    invariant
                        k <= ins@.len(),
                        res@ == before + ins@.take(k as int),
                    decreases ins@.len() - k,
                {
                    res.push(ins[k]);
                    assert(ins@.take(k as int + 1) == ins@.take(k as int).push(ins@[k as int]));
                    k += 1;
                }
                assert(ins@.take(ins@.len() as int) == ins@);
                let ghost mid = res@;
                let mut k: usize = 0;
                while k < outs.len()
                    invariant
                        k <= outs@.len(),
                        res@ == mid + outs@.take(k as int),
                    decreases outs@.len() - k,
                {
                    res.push(outs[k]);
                    assert(outs@.take(k as int + 1) == outs@.take(k as int).push(outs@[k as int]));
                    k += 1;
                }
                assert(outs@.take(outs@.len() as int) == outs@);
                assert(ports.take(j as int + 1).drop_last() == ports.take(j as int));
                j += 1;
            }
            assert(ports.take(ports.len() as int) == ports);
            res
        },
    }
}

/// Moves the tree at `root` into the layers listed from position `from`
/// on: the root goes to the first of them, and unless that is the last,
/// the other end of each selected edge of the root is moved, with its own
/// tree, into the rest of the layers.
#[verifier::spinoff_prover]
#[verifier::rlimit(30)]
pub fn move_tree(g: &mut LGraph, root: usize, sel: EdgeSelector, layers: &Vec<usize>, from: usize)
    requires
        old(g).wf(),
        old(g).layers_listed(),
        root < old(g).nodes@.len(),
        from <= layers@.len(),
        forall|i: int| 0 <= i < layers@.len() ==> #[trigger] layers@[i] < old(g).layers@.len(),
    ensures
        final(g).wf(),
        final(g).layers_listed(),
        final(g).ports == old(g).ports,
        final(g).edges == old(g).edges,
        final(g).layerless_nodes == old(g).layerless_nodes,
        final(g).layers@.len() == old(g).layers@.len(),
        final(g).nodes@.len() == old(g).nodes@.len(),
        forall|m: int| 0 <= m < old(g).nodes@.len() ==> same_but_layer(#[trigger] final(g).nodes@[m], old(g).nodes@[m]),
        (layer_views(final(g)), node_layers(final(g))) == apply_moves(
            layer_views(old(g)),
            node_layers(old(g)),
            tree_moves(old(g), root, sel, layers@.skip(from as int)),
        ),
    decreases layers@.len() - from,
{
    let ghost g0 = *g;
    let ghost rest = layers@.skip(from as int);
    if from >= layers.len() {
        assert(rest.len() == 0);
        assert(layer_views(g) == layer_views(&g0));
        return;
    }
    set_layer(g, root, layers[from]);
    let ghost first: Seq<(usize, usize)> = seq![(root, layers@[from as int])];
    proof {
        assert(rest[0] == layers@[from as int]);
        assert(first.drop_last() == Seq::<(usize, usize)>::empty());
        assert(node_layers(g) =~= node_layers(&g0).update(root as int, Some(layers@[from as int]))) by {
            assert forall|m: int| 0 <= m < g.nodes@.len() implies #[trigger] node_layers(g)[m]
                == node_layers(&g0).update(root as int, Some(layers@[from as int]))[m] by {
                if m != root {
                    assert(g.nodes@[m] == g0.nodes@[m]);
                }
            }
        }
        assert(node_layers(&g0)[root as int] == g0.nodes@[root as int].layer);
        reveal_with_fuel(apply_moves, 2);
        assert((layer_views(g), node_layers(g)) == apply_moves(layer_views(&g0), node_layers(&g0), first));
    }
    if from + 1 == layers.len() {
        assert(rest.len() == 1);
        assert(tree_moves(&g0, root, sel, rest) == first);
        return;
    }
    let n_layers = layers.len();
    let es = selected_edges(g, root, sel);
    let ghost ses = es@;
    proof {
        assert forall|m: int| 0 <= m < g.nodes@.len() implies #[trigger] g.nodes@[m].ports == g0.nodes@[m].ports by {
            if m != root {
                assert(g.nodes@[m] == g0.nodes@[m]);
            }
        }
        lemma_selected_edges(g, &g0, root, sel);
    }
    let mut i: usize = 0;
    while i < es.len()
        invariant
            g.wf(),
            g.layers_listed(),
            g0.wf(),
            n_layers == layers@.len(),
            g.ports == g0.ports,
            g.edges == g0.edges,
            g.layerless_nodes == g0.layerless_nodes,
            g.layers@.len() == g0.layers@.len(),
            g.nodes@.len() == g0.nodes@.len(),
            forall|m: int| 0 <= m < g0.nodes@.len() ==> same_but_layer(#[trigger] g.nodes@[m], g0.nodes@[m]),
            root < g0.nodes@.len(),
            from + 1 < layers@.len(),
            rest == layers@.skip(from as int),
            first == seq![(root, layers@[from as int])],
            forall|x: int| 0 <= x < layers@.len() ==> #[trigger] layers@[x] < g0.layers@.len(),
            ses == es@,
            ses == selected_edges_of(&g0, root, sel),
            forall|x: int| 0 <= x < ses.len() ==> #[trigger] ses[x] < g0.edges@.len(),
            i <= ses.len(),
            (layer_views(g), node_layers(g)) == apply_moves(
                layer_views(&g0),
                node_layers(&g0),
                first + child_moves(&g0, root, sel, rest, ses.take(i as int)),
            ),
        decreases ses.len() - i,
    {
        let ghost gb = *g;
        let ghost done = first + child_moves(&g0, root, sel, rest, ses.take(i as int));
        let e = es[i];
        assert(ses.take(i as int + 1).drop_last() == ses.take(i as int));
        assert(ses.take(i as int + 1).last() == e);
        match other_node(g, e, root) {
            Some(o) => {
                proof {
                    assert(g.edges@[e as int].source < g.ports@.len());
                    assert(g.ports@[g.edges@[e as int].source as int].node matches Some(x) ==> x < g.nodes@.len());
                    assert(g.ports@[g.edges@[e as int].target as int].node matches Some(x) ==> x < g.nodes@.len());
                }
                move_tree(g, o, sel, layers, from + 1);
                proof {
                    assert(layers@.skip(from as int + 1) == rest.drop_first());
                    assert forall|m: int| 0 <= m < gb.nodes@.len() implies #[trigger] gb.nodes@[m].ports == g0.nodes@[m].ports by {
                        assert(same_but_layer(gb.nodes@[m], g0.nodes@[m]));
                    }
                    lemma_tree_moves_frame(&gb, &g0, o, sel, rest.drop_first());
                    let sub = tree_moves(&g0, o, sel, rest.drop_first());
                    lemma_apply_moves_add(layer_views(&g0), node_layers(&g0), done, sub);
                    assert(child_moves(&g0, root, sel, rest, ses.take(i as int + 1)) == child_moves(&g0, root, sel, rest, ses.take(i as int)) + sub);
                    assert(first + child_moves(&g0, root, sel, rest, ses.take(i as int + 1)) == done + sub);
                    assert forall|m: int| 0 <= m < g0.nodes@.len() implies same_but_layer(#[trigger] g.nodes@[m], g0.nodes@[m]) by {
                        assert(same_but_layer(g.nodes@[m], gb.nodes@[m]));
                        assert(same_but_layer(gb.nodes@[m], g0.nodes@[m]));
                    }
                }
            },
            None => {
                assert(child_moves(&g0, root, sel, rest, ses.take(i as int + 1)) == child_moves(&g0, root, sel, rest, ses.take(i as int)) + Seq::<(usize, usize)>::empty());
                assert(child_moves(&g0, root, sel, rest, ses.take(i as int + 1)) == child_moves(&g0, root, sel, rest, ses.take(i as int)));
            },
        }
        i += 1;
    }
    assert(ses.take(ses.len() as int) == ses);
    assert(tree_moves(&g0, root, sel, rest) == first + child_moves(&g0, root, sel, rest, ses));
}


/// The layer lists and node layers after inserting `count` empty layers at
/// `at`, `at + 1`, ... in turn.
pub open spec fn insert_layers(s: (Seq<Seq<usize>>, Seq<Option<usize>>), at: int, count: int) -> (
    Seq<Seq<usize>>,
    Seq<Option<usize>>,
)
    decreases count,
{
    if count <= 0 {
        s
    } else {
        let p = insert_layers(s, at, count - 1);
        let x = at + count - 1;
        (p.0.insert(x, Seq::<usize>::empty()), p.1.map_values(|l: Option<usize>| layer_after_insert(l, x)))
    }
}

/// The moves of the trees at the given roots, root by root.
pub open spec fn roots_moves(g: &LGraph, roots: Seq<usize>, sel: EdgeSelector, layers: Seq<usize>) -> Seq<
    (usize, usize),
>
    decreases roots.len(),
{
    if roots.len() == 0 {
        Seq::empty()
    } else {
        roots_moves(g, roots.drop_last(), sel, layers) + tree_moves(g, roots.last(), sel, layers)
    }
}

/// The moves of the trees hanging into (`incoming`, along incoming edges)
/// or out of each of the high-degree nodes in turn.
pub open spec fn all_tree_moves(
    g: &LGraph,
    hd: Seq<usize>,
    incoming: bool,
    dt: i32,
    ht: i32,
    layers: Seq<usize>,
) -> Seq<(usize, usize)>
    decreases hd.len(),
{
    if hd.len() == 0 {
        Seq::empty()
    } else {
        all_tree_moves(g, hd.drop_last(), incoming, dt, ht, layers) + roots_moves(
            g,
            trees_at(g, hd.last(), incoming, dt, ht).1,
            if incoming {
                EdgeSelector::Incoming
            } else {
                EdgeSelector::Outgoing
            },
            layers,
        )
    }
}

/// The step for the original layer that now has index `c`: as many empty
/// layers as the tallest tree hanging into one of its high-degree nodes is
/// high go in front of it, and these trees move there, each root into the
/// layer right in front; then as many layers as the tallest tree hanging
/// out go behind it, and those trees move there. Yields the state and the
/// index of the next original layer.
pub open spec fn layer_step(
    g: &LGraph,
    dt: i32,
    ht: i32,
    s: (Seq<Seq<usize>>, Seq<Option<usize>>),
    c: int,
) -> ((Seq<Seq<usize>>, Seq<Option<usize>>), int) {
    let hd = high_degree_nodes(g, s.0[c], dt);
    let ni = max_int(tallest_tree(g, hd, true, dt, ht), 0);
    let s1 = insert_layers(s, c, ni);
    let pre = Seq::new(ni as nat, |i: int| (c + ni - 1 - i) as usize);
    let s2 = apply_moves(s1.0, s1.1, all_tree_moves(g, hd, true, dt, ht, pre));
    let c2 = c + ni;
    let no = max_int(tallest_tree(g, hd, false, dt, ht), 0);
    let s3 = insert_layers(s2, c2 + 1, no);
    let post = Seq::new(no as nat, |i: int| (c2 + 1 + i) as usize);
    let s4 = apply_moves(s3.0, s3.1, all_tree_moves(g, hd, false, dt, ht, post));
    (s4, c2 + 1 + no)
}

/// The state after the steps for the first `k` original layers of `g`, and
/// the index the next original layer has then.
pub open spec fn layering(g: &LGraph, dt: i32, ht: i32, k: nat) -> (
    (Seq<Seq<usize>>, Seq<Option<usize>>),
    int,
)
    decreases k,
{
    if k == 0 {
        ((layer_views(g), node_layers(g)), 0)
    } else {
        let p = layering(g, dt, ht, (k - 1) as nat);
        layer_step(g, dt, ht, p.0, p.1)
    }
}

/// The thresholds a run uses: the degree threshold given (16 by default),
/// and the tree height given (5 by default), where 0 means no limit.
pub open spec fn run_thresholds(degree: Option<i32>, height: Option<i32>) -> (i32, i32) {
    let h = match height {
        Some(h) => h,
        None => 5i32,
    };
    (
        match degree {
            Some(d) => d,
            None => 16i32,
        },
        if h == 0 {
            i32::MAX
        } else {
            h
        },
    )
}

/// The roots of the trees over a list of edges are nodes of the graph.
proof fn lemma_trees_in_roots(g: &LGraph, incoming: bool, dt: i32, ht: i32, es: Seq<usize>)
    requires
        g.wf(),
        forall|i: int| 0 <= i < es.len() ==> #[trigger] es[i] < g.edges@.len(),
    ensures
        forall|i: int|
            0 <= i < trees_in(g, incoming, dt, ht, es).1.len() ==> #[trigger] trees_in(
                g,
                incoming,
                dt,
                ht,
                es,
            ).1[i] < g.nodes@.len(),
    decreases es.len(),
{
    if es.len() > 0 {
        lemma_trees_in_roots(g, incoming, dt, ht, es.drop_last());
        let f = es.last() as int;
        assert(es[es.len() - 1] < g.edges@.len());
        assert(g.edges@[f].source < g.ports@.len());
        assert(g.ports@[g.edges@[f].source as int].node matches Some(x) ==> x < g.nodes@.len());
        assert(g.ports@[g.edges@[f].target as int].node matches Some(x) ==> x < g.nodes@.len());
        let prev = trees_in(g, incoming, dt, ht, es.drop_last()).1;
        let cur = trees_in(g, incoming, dt, ht, es).1;
        let there = if incoming { spec_source_node(g, f) } else { spec_target_node(g, f) };
        assert(cur == prev || (there is Some && cur == prev.push(there->0)));
        assert forall|i: int| 0 <= i < cur.len() implies #[trigger] cur[i] < g.nodes@.len() by {
            if cur != prev && i == prev.len() {
                assert(cur[i] == there->0);
            } else {
                assert(cur[i] == prev[i]);
            }
        }
    }
}

/// The roots of the trees at a node are nodes of the graph.
proof fn lemma_trees_at_roots(g: &LGraph, n: usize, incoming: bool, dt: i32, ht: i32)
    requires
        g.wf(),
        n < g.nodes@.len(),
    ensures
        forall|i: int|
            0 <= i < trees_at(g, n, incoming, dt, ht).1.len() ==> #[trigger] trees_at(
                g,
                n,
                incoming,
                dt,
                ht,
            ).1[i] < g.nodes@.len(),
{
    lemma_port_edges_valid(g, g.nodes@[n as int].ports@, !incoming);
    lemma_trees_in_roots(g, incoming, dt, ht, node_edges_of(g, n, !incoming));
}

/// The high-degree nodes of a list of nodes of the graph are nodes of the graph.
proof fn lemma_high_degree_nodes_valid(g: &LGraph, nodes: Seq<usize>, dt: i32)
    requires
        forall|i: int| 0 <= i < nodes.len() ==> #[trigger] nodes[i] < g.nodes@.len(),
    ensures
        forall|i: int|
            0 <= i < high_degree_nodes(g, nodes, dt).len() ==> #[trigger] high_degree_nodes(g, nodes, dt)[i]
                < g.nodes@.len(),
{
    let hd = high_degree_nodes(g, nodes, dt);
    assert forall|i: int| 0 <= i < hd.len() implies #[trigger] hd[i] < g.nodes@.len() by {
        assert(hd.contains(hd[i]));
        nodes.lemma_filter_contains_rev(|n: usize| spec_degree(g, n) >= dt, hd[i]);
        let j = choose|j: int| 0 <= j < nodes.len() && nodes[j] == hd[i];
    }
}

/// Inserts `count` empty layers at `at`, `at + 1`, ... in turn.
fn insert_empty_layers(g: &mut LGraph, at: usize, count: usize)
    requires
        old(g).wf(),
        old(g).layers_listed(),
        at <= old(g).layers@.len(),
        old(g).layers@.len() + count <= usize::MAX,
    ensures
        final(g).wf(),
        final(g).layers_listed(),
        same_frame(final(g), old(g)),
        final(g).layerless_nodes == old(g).layerless_nodes,
        final(g).layers@.len() == old(g).layers@.len() + count,
        forall|m: int| 0 <= m < old(g).nodes@.len() ==> same_but_layer(#[trigger] final(g).nodes@[m], old(g).nodes@[m]),
        (layer_views(final(g)), node_layers(final(g))) == insert_layers(
            (layer_views(old(g)), node_layers(old(g))),
            at as int,
            count as int,
        ),
{
    let ghost g0 = *g;
    let mut off: usize = 0;
    while off < count
        invariant
            g.wf(),
            g.layers_listed(),
            same_frame(g, &g0),
            g.layerless_nodes == g0.layerless_nodes,
            g.layers@.len() == g0.layers@.len() + off,
            g0.layers@.len() + count <= usize::MAX,
            at <= g0.layers@.len(),
            off <= count,
            forall|m: int| 0 <= m < g0.nodes@.len() ==> same_but_layer(#[trigger] g.nodes@[m], g0.nodes@[m]),
            (layer_views(g), node_layers(g)) == insert_layers(
                (layer_views(&g0), node_layers(&g0)),
                at as int,
                off as int,
            ),
        decreases count - off,
    {
        let ghost gb = *g;
        insert_layer(g, at + off);
        proof {
            let x = at + off;
            assert(node_layers(g) =~= node_layers(&gb).map_values(|l: Option<usize>| layer_after_insert(l, x as int)));
            assert forall|m: int| 0 <= m < g0.nodes@.len() implies same_but_layer(#[trigger] g.nodes@[m], g0.nodes@[m]) by {
                assert(same_but_layer(g.nodes@[m], gb.nodes@[m]));
            }
        }
        off += 1;
    }
}


/// The layers a run inserts fit in a `usize`: before the step for original
/// layer `k`, the next original layer has index `cur`, and that step adds
/// `ni + no` layers, each count at most `d`.
proof fn lemma_layer_budget(k: int, n: int, cur: int, ni: int, no: int, d: int)
    by (nonlinear_arith)
    requires
        0 <= k < n,
        0 <= d,
        0 <= cur <= k * (2 * d + 1),
        0 <= ni <= d,
        0 <= no <= d,
        n * (2 * d + 1) < usize::MAX,
    ensures
        cur + (n - k) + ni + no <= n * (2 * d + 1),
        cur + ni + no + 1 <= (k + 1) * (2 * d + 1),
{
}

/// A tree found within `k` levels is at most `k` high.
proof fn lemma_tree_height_bound(
    g: &LGraph,
    root: usize,
    anc: EdgeSelector,
    desc: EdgeSelector,
    dt: i32,
    ht: i32,
    k: nat,
)
    ensures
        tree_height(g, root, anc, desc, dt, ht, k) <= k,
    decreases k, 1nat, 0int,
{
    if k > 0 && spec_degree(g, root) < dt && single_connection(g, root, anc) && has_selected(
        g,
        root,
        desc,
        g.edges@.len() as int,
    ) {
        lemma_subtree_max_bound(g, root, anc, desc, dt, ht, k, g.edges@.len() as int);
    }
}

/// The subtrees below a root searched within `k` levels are at most
/// `k - 1` high.
proof fn lemma_subtree_max_bound(
    g: &LGraph,
    root: usize,
    anc: EdgeSelector,
    desc: EdgeSelector,
    dt: i32,
    ht: i32,
    k: nat,
    e: int,
)
    requires
        k > 0,
    ensures
        subtree_max(g, root, anc, desc, dt, ht, k, e) <= k - 1,
    decreases k, 0nat, e,
{
    if e > 0 {
        lemma_subtree_max_bound(g, root, anc, desc, dt, ht, k, e - 1);
        if let Some(o) = spec_other_node(g, e - 1, root) {
            lemma_tree_height_bound(g, o, anc, desc, dt, ht, (k - 1) as nat);
        }
    }
}

/// The tallest tree over a list of edges is at most `full_depth` high.
proof fn lemma_trees_in_bound(g: &LGraph, incoming: bool, dt: i32, ht: i32, es: Seq<usize>)
    ensures
        trees_in(g, incoming, dt, ht, es).0 <= full_depth(g),
    decreases es.len(),
{
    if es.len() > 0 {
        lemma_trees_in_bound(g, incoming, dt, ht, es.drop_last());
        let f = es.last() as int;
        let there = if incoming {
            spec_source_node(g, f)
        } else {
            spec_target_node(g, f)
        };
        let (toward, away) = if incoming {
            (EdgeSelector::Outgoing, EdgeSelector::Incoming)
        } else {
            (EdgeSelector::Incoming, EdgeSelector::Outgoing)
        };
        if let Some(t) = there {
            lemma_tree_height_bound(g, t, toward, away, dt, ht, full_depth(g));
        }
    }
}

/// The tallest tree at any node of a list is at most `full_depth` high.
proof fn lemma_tallest_tree_bound(g: &LGraph, nodes: Seq<usize>, incoming: bool, dt: i32, ht: i32)
    ensures
        tallest_tree(g, nodes, incoming, dt, ht) <= full_depth(g),
    decreases nodes.len(),
{
    if nodes.len() > 0 {
        lemma_tallest_tree_bound(g, nodes.drop_last(), incoming, dt, ht);
        lemma_trees_in_bound(g, incoming, dt, ht, node_edges_of(g, nodes.last(), !incoming));
    }
}

impl HighDegreeNodeLayeringProcessor {
    /// The thresholds of the processor: the degree from which a node counts
    /// as high-degree, and the height from which a tree is left in place.
    pub closed spec fn thresholds(&self) -> (i32, i32) {
        (self.degree_threshold, self.tree_height_threshold)
    }

    /// The processor with the default thresholds: degree 16, tree height 5.
    pub fn new() -> (res: HighDegreeNodeLayeringProcessor)
        ensures
            res.thresholds() == (16i32, 5i32),
    {
        HighDegreeNodeLayeringProcessor { degree_threshold: 16, tree_height_threshold: 5 }
    }

    /// The node's degree: the number of edge ends at its ports.
    pub fn degree(&self, g: &LGraph, n: usize) -> (res: i32)
        requires
            g.wf(),
            g.edges@.len() * 2 <= i32::MAX,
        ensures
            res == spec_degree(g, n),
    {
        let mut count: i32 = 0;
        let mut e: usize = 0;
        while e < g.edges.len()
            invariant
                g.wf(),
                g.edges@.len() * 2 <= i32::MAX,
                e <= g.edges@.len(),
                count == ends_at(g, n, e as int),
                count <= 2 * e,
            decreases g.edges@.len() - e,
        {
            if target_node(g, e) == Some(n) {
                count = count + 1;
            }
            if source_node(g, e) == Some(n) {
                count = count + 1;
            }
            e += 1;
        }
        count
    }

    /// Whether the node has at least as many edge ends as the degree
    /// threshold.
    pub fn is_high_degree_node(&self, g: &LGraph, n: usize) -> (res: bool)
        requires
            g.wf(),
            g.edges@.len() * 2 <= i32::MAX,
        ensures
            res == (spec_degree(g, n) >= self.thresholds().0),
    {
        self.degree(g, n) >= self.degree_threshold
    }

    /// The height of the tree hanging from `root` along the descendant
    /// edges, or -1 when there is no tree to move.
    fn is_tree_root(
        &self,
        g: &LGraph,
        root: usize,
        ancestor_edges: EdgeSelector,
        descendant_edges: EdgeSelector,
        Ghost(k): Ghost<nat>,
    ) -> (res: i32)
        requires
            g.wf(),
            g.edges@.len() * 2 <= i32::MAX,
            self.tree_height_threshold > i32::MIN,
            depth_ok(g, root, ancestor_edges, descendant_edges, self.degree_threshold, k),
        ensures
            res == tree_height(
                g,
                root,
                ancestor_edges,
                descendant_edges,
                self.degree_threshold,
                self.tree_height_threshold,
                k,
            ),
        decreases k,
    {
        let ghost dt = self.degree_threshold;
        let ghost ht = self.tree_height_threshold;
        if self.is_high_degree_node(g, root) {
            return -1;
        }
        if !self.has_single_connection(g, root, ancestor_edges) {
            return -1;
        }
        let mut any = false;
        let mut current_height: i32 = 0;
        let mut e: usize = 0;
        while e < g.edges.len()
            invariant
                g.wf(),
                g.edges@.len() * 2 <= i32::MAX,
                self.tree_height_threshold > i32::MIN,
                dt == self.degree_threshold,
                ht == self.tree_height_threshold,
                k > 0,
                spec_degree(g, root) < dt,
                single_connection(g, root, ancestor_edges),
                depth_ok(g, root, ancestor_edges, descendant_edges, dt, k),
                e <= g.edges@.len(),
                any == has_selected(g, root, descendant_edges, e as int),
                current_height == subtree_max(g, root, ancestor_edges, descendant_edges, dt, ht, k, e as int),
                0 <= current_height <= ht - 1 || (current_height == 0 && !any),
            decreases g.edges@.len() - e,
        {
            if selected_exec(g, root, descendant_edges, e) {
                assert(has_selected(g, root, descendant_edges, e as int + 1));
                any = true;
                match other_node(g, e, root) {
                    None => {
                        proof {
                            lemma_subtree_max_grows(g, root, ancestor_edges, descendant_edges, dt, ht, k, e as int + 1, g.edges@.len() as int);
                        }
                        return -1;
                    },
                    Some(o) => {
                        assert(depth_ok(g, o, ancestor_edges, descendant_edges, dt, (k - 1) as nat));
                        let sub = self.is_tree_root(g, o, ancestor_edges, descendant_edges, Ghost((k - 1) as nat));
                        if sub == -1 {
                            proof {
                                lemma_subtree_max_grows(g, root, ancestor_edges, descendant_edges, dt, ht, k, e as int + 1, g.edges@.len() as int);
                            }
                            return -1;
                        }
                        if sub > current_height {
                            current_height = sub;
                        }
                        if current_height > self.tree_height_threshold - 1 {
                            proof {
                                lemma_subtree_max_grows(g, root, ancestor_edges, descendant_edges, dt, ht, k, e as int + 1, g.edges@.len() as int);
                            }
                            return -1;
                        }
                    },
                }
            } else {
                assert(has_selected(g, root, descendant_edges, e as int + 1) == has_selected(g, root, descendant_edges, e as int)) by {
                    if has_selected(g, root, descendant_edges, e as int + 1) {
                        let f = choose|f: int| 0 <= f < e + 1 && #[trigger] selected(g, root, descendant_edges, f);
                        assert(f < e);
                    }
                }
            }
            e += 1;
        }
        if !any {
            return 1;
        }
        current_height + 1
    }

    /// The trees hanging into and out of a high-degree node.
    pub fn calculate_information(&self, g: &LGraph, high_degree_node: usize) -> (info:
        HighDegreeNodeInformation)
        requires
            g.wf(),
            high_degree_node < g.nodes@.len(),
            g.edges@.len() * 2 <= i32::MAX,
            self.thresholds().1 > i32::MIN,
            trees_end(g, self.thresholds().0),
        ensures
            info.inc_trees_max_height == trees_at(
                g,
                high_degree_node,
                true,
                self.thresholds().0,
                self.thresholds().1,
            ).0,
            info.inc_tree_roots@ == trees_at(
                g,
                high_degree_node,
                true,
                self.thresholds().0,
                self.thresholds().1,
            ).1,
            info.out_trees_max_height == trees_at(
                g,
                high_degree_node,
                false,
                self.thresholds().0,
                self.thresholds().1,
            ).0,
            info.out_tree_roots@ == trees_at(
                g,
                high_degree_node,
                false,
                self.thresholds().0,
                self.thresholds().1,
            ).1,
    {
        let (inc_max, inc_roots) = self.trees(g, high_degree_node, true);
        let (out_max, out_roots) = self.trees(g, high_degree_node, false);
        HighDegreeNodeInformation {
            inc_trees_max_height: inc_max,
            inc_tree_roots: inc_roots,
            out_trees_max_height: out_max,
            out_tree_roots: out_roots,
        }
    }

    /// The trees hanging into (`incoming`) or out of the node.
    fn trees(&self, g: &LGraph, n: usize, incoming: bool) -> (res: (i32, Vec<usize>))
        requires
            g.wf(),
            n < g.nodes@.len(),
            g.edges@.len() * 2 <= i32::MAX,
            self.tree_height_threshold > i32::MIN,
            trees_end(g, self.degree_threshold),
        ensures
            res.0 == trees_at(g, n, incoming, self.degree_threshold, self.tree_height_threshold).0,
            res.1@ == trees_at(g, n, incoming, self.degree_threshold, self.tree_height_threshold).1,
    {
        let ghost dt = self.degree_threshold;
        let ghost ht = self.tree_height_threshold;
        let (toward, away) = if incoming {
            (EdgeSelector::Outgoing, EdgeSelector::Incoming)
        } else {
            (EdgeSelector::Incoming, EdgeSelector::Outgoing)
        };
        let es = node_edges(g, n, !incoming);
        let mut max_height: i32 = -1;
        let mut roots: Vec<usize> = Vec::new();
        let mut i: usize = 0;
        while i < es.len()
            invariant
                g.wf(),
                g.edges@.len() * 2 <= i32::MAX,
                self.tree_height_threshold > i32::MIN,
                trees_end(g, dt),
                dt == self.degree_threshold,
                ht == self.tree_height_threshold,
                toward == (if incoming { EdgeSelector::Outgoing } else { EdgeSelector::Incoming }),
                away == (if incoming { EdgeSelector::Incoming } else { EdgeSelector::Outgoing }),
                forall|x: int| 0 <= x < es@.len() ==> #[trigger] es@[x] < g.edges@.len(),
                i <= es@.len(),
                max_height == trees_in(g, incoming, dt, ht, es@.take(i as int)).0,
                roots@ == trees_in(g, incoming, dt, ht, es@.take(i as int)).1,
            decreases es@.len() - i,
        {
            let e = es[i];
            assert(es@.take(i as int + 1).drop_last() == es@.take(i as int));
            assert(es@.take(i as int + 1).last() == e);
            let s = source_node(g, e);
            let t = target_node(g, e);
            let there = if incoming {
                s
            } else {
                t
            };
            if s != t {
                match there {
                    Some(o) => {
                        if self.has_single_connection(g, o, toward) {
                            proof {
                                assert(g.ports@[g.edges@[e as int].source as int].node matches Some(x) ==> x < g.nodes@.len());
                                assert(g.ports@[g.edges@[e as int].target as int].node matches Some(x) ==> x < g.nodes@.len());
                                assert(o < g.nodes@.len()) by {
                                    assert(g.edges@[e as int].source < g.ports@.len());
                                }
                                assert(depth_ok(g, o, EdgeSelector::Outgoing, EdgeSelector::Incoming, dt, full_depth(g)));
                                assert(depth_ok(g, o, EdgeSelector::Incoming, EdgeSelector::Outgoing, dt, full_depth(g)));
                                assert(depth_ok(g, o, toward, away, dt, full_depth(g)));
                            }
                            let h = self.is_tree_root(g, o, toward, away, Ghost(full_depth(g)));
                            if h != -1 {
                                if h > max_height {
                                    max_height = h;
                                }
                                roots.push(o);
                            }
                        }
                    },
                    None => {},
                }
            }
            i += 1;
        }
        assert(es@.take(es@.len() as int) == es@);
        (max_height, roots)
    }

    /// Moves the trees hanging into (`incoming`) or out of each of the
    /// high-degree nodes into the layers, node by node and root by root.
    fn move_trees(
        &self,
        g: &mut LGraph,
        hd: &Vec<(usize, HighDegreeNodeInformation)>,
        incoming: bool,
        layers: &Vec<usize>,
        Ghost(g0): Ghost<LGraph>,
        Ghost(hdn): Ghost<Seq<usize>>,
    )
        requires
            old(g).wf(),
            old(g).layers_listed(),
            same_frame(old(g), &g0),
            forall|i: int| 0 <= i < layers@.len() ==> #[trigger] layers@[i] < old(g).layers@.len(),
            hd@.len() == hdn.len(),
            forall|i: int| 0 <= i < hdn.len() ==> #[trigger] hdn[i] < g0.nodes@.len(),
            forall|i: int|
                0 <= i < hd@.len() ==> (#[trigger] hd@[i]).0 == hdn[i] && (if incoming {
                    hd@[i].1.inc_tree_roots@
                } else {
                    hd@[i].1.out_tree_roots@
                }) == trees_at(
                    &g0,
                    hdn[i],
                    incoming,
                    self.thresholds().0,
                    self.thresholds().1,
                ).1,
        ensures
            final(g).wf(),
            final(g).layers_listed(),
            same_frame(final(g), old(g)),
            final(g).layerless_nodes == old(g).layerless_nodes,
            final(g).layers@.len() == old(g).layers@.len(),
            forall|m: int| 0 <= m < old(g).nodes@.len() ==> same_but_layer(#[trigger] final(g).nodes@[m], old(g).nodes@[m]),
            (layer_views(final(g)), node_layers(final(g))) == apply_moves(
                layer_views(old(g)),
                node_layers(old(g)),
                all_tree_moves(&g0, hdn, incoming, self.thresholds().0, self.thresholds().1, layers@),
            ),
    {
        let ghost gs = *g;
        let ghost dt = self.degree_threshold;
        let ghost ht = self.tree_height_threshold;
        let ghost s0 = (layer_views(g), node_layers(g));
        let sel = if incoming {
            EdgeSelector::Incoming
        } else {
            EdgeSelector::Outgoing
        };
        let mut i: usize = 0;
        while i < hd.len()
            invariant
                g.wf(),
                g.layers_listed(),
                gs.wf(),
                same_frame(g, &gs),
                same_frame(&gs, &g0),
                g.layerless_nodes == gs.layerless_nodes,
                g.layers@.len() == gs.layers@.len(),
                forall|m: int| 0 <= m < gs.nodes@.len() ==> same_but_layer(#[trigger] g.nodes@[m], gs.nodes@[m]),
                forall|x: int| 0 <= x < layers@.len() ==> #[trigger] layers@[x] < gs.layers@.len(),
                s0 == (layer_views(&gs), node_layers(&gs)),
                sel == (if incoming { EdgeSelector::Incoming } else { EdgeSelector::Outgoing }),
                dt == self.degree_threshold,
                ht == self.tree_height_threshold,
                hd@.len() == hdn.len(),
                forall|x: int| 0 <= x < hdn.len() ==> #[trigger] hdn[x] < g0.nodes@.len(),
                forall|x: int|
                    0 <= x < hd@.len() ==> (#[trigger] hd@[x]).0 == hdn[x] && (if incoming {
                        hd@[x].1.inc_tree_roots@
                    } else {
                        hd@[x].1.out_tree_roots@
                    }) == trees_at(&g0, hdn[x], incoming, dt, ht).1,
                i <= hd@.len(),
                (layer_views(g), node_layers(g)) == apply_moves(
                    s0.0,
                    s0.1,
                    all_tree_moves(&g0, hdn.take(i as int), incoming, dt, ht, layers@),
                ),
            decreases hd@.len() - i,
        {
            let roots = if incoming {
                &hd[i].1.inc_tree_roots
            } else {
                &hd[i].1.out_tree_roots
            };
            let ghost before = all_tree_moves(&g0, hdn.take(i as int), incoming, dt, ht, layers@);
            proof {
                lemma_trees_at_frame(&gs, &g0, hdn[i as int], incoming, dt, ht);
                lemma_trees_at_roots(&gs, hdn[i as int], incoming, dt, ht);
            }
            let mut j: usize = 0;
            while j < roots.len()
                invariant
                    g.wf(),
                    g.layers_listed(),
                    same_frame(g, &gs),
                    same_frame(&gs, &g0),
                    g.layerless_nodes == gs.layerless_nodes,
                    g.layers@.len() == gs.layers@.len(),
                    forall|m: int| 0 <= m < gs.nodes@.len() ==> same_but_layer(#[trigger] g.nodes@[m], gs.nodes@[m]),
                    forall|x: int| 0 <= x < layers@.len() ==> #[trigger] layers@[x] < gs.layers@.len(),
                    forall|x: int| 0 <= x < roots@.len() ==> #[trigger] roots@[x] < gs.nodes@.len(),
                    sel == (if incoming { EdgeSelector::Incoming } else { EdgeSelector::Outgoing }),
                    j <= roots@.len(),
                    (layer_views(g), node_layers(g)) == apply_moves(
                        s0.0,
                        s0.1,
                        before + roots_moves(&g0, roots@.take(j as int), sel, layers@),
                    ),
                decreases roots@.len() - j,
            {
                let ghost gb = *g;
                let ghost done = before + roots_moves(&g0, roots@.take(j as int), sel, layers@);
                let r = roots[j];
                move_tree(g, r, sel, layers, 0);
                proof {
                    assert(layers@.skip(0) == layers@);
                    lemma_tree_moves_frame(&gb, &g0, r, sel, layers@);
                    let t = tree_moves(&g0, r, sel, layers@);
                    lemma_apply_moves_add(s0.0, s0.1, done, t);
                    assert(roots@.take(j as int + 1).drop_last() == roots@.take(j as int));
                    assert(roots_moves(&g0, roots@.take(j as int + 1), sel, layers@) == roots_moves(&g0, roots@.take(j as int), sel, layers@) + t);
                    assert(before + roots_moves(&g0, roots@.take(j as int + 1), sel, layers@) == done + t);
                    assert forall|m: int| 0 <= m < gs.nodes@.len() implies same_but_layer(#[trigger] g.nodes@[m], gs.nodes@[m]) by {
                        assert(same_but_layer(g.nodes@[m], gb.nodes@[m]));
                    }
                }
                j += 1;
            }
            proof {
                assert(roots@.take(roots@.len() as int) == roots@);
                assert(hdn.take(i as int + 1).drop_last() == hdn.take(i as int));
                assert(hdn.take(i as int + 1).last() == hdn[i as int]);
            }
            i += 1;
        }
        assert(hdn.take(hdn.len() as int) == hdn);
    }


    /// Runs the processor with the thresholds given (16 and 5 by default; a
    /// tree height of 0 means no limit): each original layer in turn gets
    /// the layers and trees of `layer_step`; at the end the layers left
    /// empty are dropped. Each original layer gains at most
    /// `2 * full_depth + 1` layers, and their count must fit in a `usize`.
    pub fn process(&mut self, g: &mut LGraph, degree_threshold: Option<i32>, tree_height: Option<i32>)
        requires
            old(g).wf(),
            old(g).layers_listed(),
            old(g).edges@.len() * 2 <= i32::MAX,
            run_thresholds(degree_threshold, tree_height).1 > i32::MIN,
            trees_end(old(g), run_thresholds(degree_threshold, tree_height).0),
            old(g).layers@.len() * (2 * full_depth(old(g)) + 1) < usize::MAX,
        ensures
            final(self).thresholds() == run_thresholds(degree_threshold, tree_height),
            final(g).wf(),
            final(g).layers_listed(),
            same_frame(final(g), old(g)),
            final(g).layerless_nodes == old(g).layerless_nodes,
            forall|m: int| 0 <= m < old(g).nodes@.len() ==> same_but_layer(#[trigger] final(g).nodes@[m], old(g).nodes@[m]),
            forall|l: int| 0 <= l < final(g).layers@.len() ==> #[trigger] final(g).layers@[l]@.len() > 0,
            ({
                let (dt, ht) = run_thresholds(degree_threshold, tree_height);
                let st = layering(old(g), dt, ht, old(g).layers@.len()).0;
                &&& layer_views(final(g)) == st.0.filter(|l: Seq<usize>| l.len() > 0)
                &&& node_layers(final(g)) == st.1.map_values(|x: Option<usize>| layer_after_retain(st.0, x))
            }),
    {
        self.degree_threshold = match degree_threshold {
            Some(d) => d,
            None => 16,
        };
        let h = match tree_height {
            Some(h) => h,
            None => 5,
        };
        self.tree_height_threshold = if h == 0 {
            i32::MAX
        } else {
            h
        };
        let ghost dt = self.degree_threshold;
        let ghost ht = self.tree_height_threshold;
        let ghost g0 = *g;
        let n_orig = g.layers.len();
        let mut cur: usize = 0;
        let mut k: usize = 0;
        while k < n_orig
            invariant
                g0.wf(),
                g0.layers_listed(),
                g0.edges@.len() * 2 <= i32::MAX,
                trees_end(&g0, dt),
                n_orig == g0.layers@.len(),
                n_orig * (2 * full_depth(&g0) + 1) < usize::MAX,
                dt == self.degree_threshold,
                ht == self.tree_height_threshold,
                ht > i32::MIN,
                g.wf(),
                g.layers_listed(),
                same_frame(g, &g0),
                g.layerless_nodes == g0.layerless_nodes,
                forall|m: int| 0 <= m < g0.nodes@.len() ==> same_but_layer(#[trigger] g.nodes@[m], g0.nodes@[m]),
                k <= n_orig,
                (layer_views(g), node_layers(g)) == layering(&g0, dt, ht, k as nat).0,
                cur == layering(&g0, dt, ht, k as nat).1,
                g.layers@.len() == cur + (n_orig - k),
                cur <= k * (2 * full_depth(&g0) + 1),
            decreases n_orig - k,
        {
            let ghost gk = *g;
            let ghost st = (layer_views(g), node_layers(g));
            proof {
                lemma_high_degree_frame(g, &g0, g.layers@[cur as int]@, dt);
            }
            let (hd, inc_max, out_max) = self.collect_high_degree_nodes(g, cur);
            let ghost hdn = high_degree_nodes(&g0, st.0[cur as int], dt);
            proof {
                assert(st.0[cur as int] == g.layers@[cur as int]@);
                assert forall|i: int| 0 <= i < st.0[cur as int].len() implies #[trigger] st.0[cur as int][i] < g.nodes@.len() by {
                    assert(g.layers@[cur as int]@[i] < g.nodes@.len());
                }
                lemma_high_degree_nodes_valid(g, st.0[cur as int], dt);
                lemma_high_degree_frame(g, &g0, st.0[cur as int], dt);
                lemma_tallest_tree_frame(g, &g0, hdn, true, dt, ht);
                lemma_tallest_tree_frame(g, &g0, hdn, false, dt, ht);
                assert forall|i: int| 0 <= i < hd@.len() implies (#[trigger] hd@[i]).0 == hdn[i]
                    && hd@[i].1.inc_tree_roots@ == trees_at(&g0, hdn[i], true, dt, ht).1
                    && hd@[i].1.out_tree_roots@ == trees_at(&g0, hdn[i], false, dt, ht).1 by {
                    lemma_trees_at_frame(&gk, &g0, hdn[i], true, dt, ht);
                    lemma_trees_at_frame(&gk, &g0, hdn[i], false, dt, ht);
                }
            }
            let ni: usize = if inc_max > 0 {
                inc_max as usize
            } else {
                0
            };
            let no: usize = if out_max > 0 {
                out_max as usize
            } else {
                0
            };
            proof {
                lemma_tallest_tree_bound(g, hdn, true, dt, ht);
                lemma_tallest_tree_bound(g, hdn, false, dt, ht);
                lemma_layer_budget(k as int, n_orig as int, cur as int, ni as int, no as int, full_depth(&g0) as int);
            }
            insert_empty_layers(g, cur, ni);
            let mut pre: Vec<usize> = Vec::new();
            let mut i: usize = 0;
            while i < ni
                invariant
                    i <= ni,
                    cur + ni <= usize::MAX,
                    pre@ == Seq::new(i as nat, |x: int| (cur + ni - 1 - x) as usize),
                decreases ni - i,
            {
                pre.push(cur + ni - 1 - i);
                assert(pre@ =~= Seq::new(i as nat + 1, |x: int| (cur + ni - 1 - x) as usize));
                i += 1;
            }
            self.move_trees(g, &hd, true, &pre, Ghost(g0), Ghost(hdn));
            let c2 = cur + ni;
            insert_empty_layers(g, c2 + 1, no);
            let mut post: Vec<usize> = Vec::new();
            let mut i: usize = 0;
            while i < no
                invariant
                    i <= no,
                    c2 + 1 + no <= usize::MAX,
                    post@ == Seq::new(i as nat, |x: int| (c2 + 1 + x) as usize),
                decreases no - i,
            {
                post.push(c2 + 1 + i);
                assert(post@ =~= Seq::new(i as nat + 1, |x: int| (c2 + 1 + x) as usize));
                i += 1;
            }
            self.move_trees(g, &hd, false, &post, Ghost(g0), Ghost(hdn));
            cur = c2 + 1 + no;
            k += 1;
            proof {
                assert forall|m: int| 0 <= m < g0.nodes@.len() implies same_but_layer(#[trigger] g.nodes@[m], g0.nodes@[m]) by {
                    assert(same_but_layer(gk.nodes@[m], g0.nodes@[m]));
                }
            }
        }
        let ghost gf = *g;
        remove_empty_layers(g);
        proof {
            let st = layering(&g0, dt, ht, n_orig as nat).0;
            assert(node_layers(g) =~= st.1.map_values(|x: Option<usize>| layer_after_retain(st.0, x))) by {
                assert forall|m: int| 0 <= m < g.nodes@.len() implies #[trigger] node_layers(g)[m]
                    == st.1.map_values(|x: Option<usize>| layer_after_retain(st.0, x))[m] by {
                    assert(st.1[m] == gf.nodes@[m].layer);
                }
            }
            assert forall|m: int| 0 <= m < g0.nodes@.len() implies same_but_layer(#[trigger] g.nodes@[m], g0.nodes@[m]) by {
                assert(same_but_layer(gf.nodes@[m], g0.nodes@[m]));
            }
        }
    }

    /// The high-degree nodes of layer `l` with what is known about them, and
    /// the tallest trees hanging into and out of any of them.
    pub fn collect_high_degree_nodes(&self, g: &LGraph, l: usize) -> (res: (
        Vec<(usize, HighDegreeNodeInformation)>,
        i32,
        i32,
    ))
        requires
            g.wf(),
            l < g.layers@.len(),
            g.edges@.len() * 2 <= i32::MAX,
            self.thresholds().1 > i32::MIN,
            trees_end(g, self.thresholds().0),
        ensures
            res.0@.len() == high_degree_nodes(g, g.layers@[l as int]@, self.thresholds().0).len(),
            forall|i: int|
                0 <= i < res.0@.len() ==> {
                    let n = high_degree_nodes(g, g.layers@[l as int]@, self.thresholds().0)[i];
                    let (dt, ht) = self.thresholds();
                    &&& (#[trigger] res.0@[i]).0 == n
                    &&& res.0@[i].1.inc_trees_max_height == trees_at(g, n, true, dt, ht).0
                    &&& res.0@[i].1.inc_tree_roots@ == trees_at(g, n, true, dt, ht).1
                    &&& res.0@[i].1.out_trees_max_height == trees_at(g, n, false, dt, ht).0
                    &&& res.0@[i].1.out_tree_roots@ == trees_at(g, n, false, dt, ht).1
                },
            res.1 == tallest_tree(
                g,
                high_degree_nodes(g, g.layers@[l as int]@, self.thresholds().0),
                true,
                self.thresholds().0,
                self.thresholds().1,
            ),
            res.2 == tallest_tree(
                g,
                high_degree_nodes(g, g.layers@[l as int]@, self.thresholds().0),
                false,
                self.thresholds().0,
                self.thresholds().1,
            ),
    {
        let ghost dt = self.degree_threshold;
        let ghost ht = self.tree_height_threshold;
        let ghost layer = g.layers@[l as int]@;
        let ghost pred = |n: usize| spec_degree(g, n) >= dt;
        let mut result: Vec<(usize, HighDegreeNodeInformation)> = Vec::new();
        let mut inc_max: i32 = -1;
        let mut out_max: i32 = -1;
        let mut i: usize = 0;
        while i < g.layers[l].len()
            invariant
                g.wf(),
                l < g.layers@.len(),
                layer == g.layers@[l as int]@,
                g.edges@.len() * 2 <= i32::MAX,
                self.tree_height_threshold > i32::MIN,
                trees_end(g, dt),
                dt == self.degree_threshold,
                ht == self.tree_height_threshold,
                pred == (|n: usize| spec_degree(g, n) >= dt),
                i <= layer.len(),
                result@.len() == layer.take(i as int).filter(pred).len(),
                forall|j: int|
                    0 <= j < result@.len() ==> {
                        let n = layer.take(i as int).filter(pred)[j];
                        &&& (#[trigger] result@[j]).0 == n
                        &&& result@[j].1.inc_trees_max_height == trees_at(g, n, true, dt, ht).0
                        &&& result@[j].1.inc_tree_roots@ == trees_at(g, n, true, dt, ht).1
                        &&& result@[j].1.out_trees_max_height == trees_at(g, n, false, dt, ht).0
                        &&& result@[j].1.out_tree_roots@ == trees_at(g, n, false, dt, ht).1
                    },
                inc_max == tallest_tree(g, layer.take(i as int).filter(pred), true, dt, ht),
                out_max == tallest_tree(g, layer.take(i as int).filter(pred), false, dt, ht),
            decreases layer.len() - i,
        {
            let n = g.layers[l][i];
            let ghost before = layer.take(i as int).filter(pred);
            assert(layer.take(i as int + 1) == layer.take(i as int).push(n));
            proof {
                layer.take(i as int).lemma_filter_push(n, pred);
            }
            if self.is_high_degree_node(g, n) {
                let info = self.calculate_information(g, n);
                if info.inc_trees_max_height > inc_max {
                    inc_max = info.inc_trees_max_height;
                }
                if info.out_trees_max_height > out_max {
                    out_max = info.out_trees_max_height;
                }
                let ghost r0 = result@;
                result.push((n, info));
                proof {
                    let after = layer.take(i as int + 1).filter(pred);
                    assert(after == before.push(n));
                    assert(after.drop_last() == before);
                    assert forall|j: int| 0 <= j < result@.len() implies {
                        let m = after[j];
                        &&& (#[trigger] result@[j]).0 == m
                        &&& result@[j].1.inc_trees_max_height == trees_at(g, m, true, dt, ht).0
                        &&& result@[j].1.inc_tree_roots@ == trees_at(g, m, true, dt, ht).1
                        &&& result@[j].1.out_trees_max_height == trees_at(g, m, false, dt, ht).0
                        &&& result@[j].1.out_tree_roots@ == trees_at(g, m, false, dt, ht).1
                    } by {
                        if j < r0.len() {
                            assert(result@[j] == r0[j]);
                            assert(after[j] == before[j]);
                        }
                    }
                }
            }
            i += 1;
        }
        assert(layer.take(layer.len() as int) == layer);
        (result, inc_max, out_max)
    }

    /// Whether all the node's selected edges lead to one and the same node.
    pub fn has_single_connection(&self, g: &LGraph, n: usize, selector: EdgeSelector) -> (res: bool)
        requires
            g.wf(),
        ensures
            res == single_connection(g, n, selector),
    {
        let mut connection: Option<usize> = None;
        let ghost mut witness: int = 0;
        let mut e: usize = 0;
        while e < g.edges.len()
            invariant
                g.wf(),
                e <= g.edges@.len(),
                connection is None ==> forall|f: int|
                    0 <= f < e && #[trigger] selected(g, n, selector, f) ==> spec_other_node(g, f, n) is None,
                connection matches Some(c) ==> {
                    &&& 0 <= witness < e
                    &&& selected(g, n, selector, witness)
                    &&& spec_other_node(g, witness, n) == Some(c)
                    &&& forall|f: int|
                        0 <= f < e && #[trigger] selected(g, n, selector, f) && spec_other_node(g, f, n) is Some
                            ==> spec_other_node(g, f, n) == Some(c)
                },
            decreases g.edges@.len() - e,
        {
            if selected_exec(g, n, selector, e) {
                match other_node(g, e, n) {
                    Some(other) => {
                        match connection {
                            Some(c) => {
                                if c != other {
                                    assert(selected(g, n, selector, witness));
                                    assert(selected(g, n, selector, e as int));
                                    return false;
                                }
                            },
                            None => {
                                connection = Some(other);
                                proof {
                                    witness = e as int;
                                }
                            },
                        }
                    },
                    None => {},
                }
            }
            e += 1;
        }
        true
    }
}

} // verus!

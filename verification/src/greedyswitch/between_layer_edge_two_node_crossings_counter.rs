//! Counts the crossings between the edges of two nodes of one layer and a
//! neighbouring layer, for both orders of the two nodes.
use vstd::prelude::*;


use vstd::seq_lib::to_multiset_build;
use vstd::seq_lib::to_multiset_insert;

use crate::graph::{LGraph, PortSide, in_north_south_east_west_order, nsew_order};

verus! {

/// The number of elements of `s` that are greater than `x`.
pub open spec fn count_greater(s: Seq<usize>, x: usize) -> nat
    decreases s.len(),
{
    if s.len() == 0 {
        0
    } else {
        count_greater(s.drop_last(), x) + if s.last() > x {
            1nat
        } else {
            0nat
        }
    }
}

/// The number of pairs `(a, b)` with `a` from `upper`, `b` from `lower` and
/// `a > b`: the number of crossings between the edges ending at the positions
/// `upper` and those ending at the positions `lower`, when the `upper` node is
/// placed above the `lower` one.
pub open spec fn crossing_pairs(upper: Seq<usize>, lower: Seq<usize>) -> nat
    decreases lower.len(),
{
    if lower.len() == 0 {
        0
    } else {
        crossing_pairs(upper, lower.drop_last()) + count_greater(upper, lower.last())
    }
}

/// A count that saturates at the largest `i32`.
pub open spec fn clamp_i32(x: nat) -> i32 {
    if x > i32::MAX {
        i32::MAX
    } else {
        x as i32
    }
}

/// The sequence is in ascending order.
pub open spec fn is_sorted(s: Seq<usize>) -> bool {
    forall|i: int, j: int| 0 <= i <= j < s.len() ==> s[i] <= s[j]
}

/// In a sorted sequence whose first `r` elements are at most `x` and the rest
/// above it, exactly the last `len - r` elements are greater than `x`.
pub proof fn lemma_count_greater_split(s: Seq<usize>, x: usize, r: int)
    requires
        0 <= r <= s.len(),
        forall|k: int| 0 <= k < r ==> s[k] <= x,
        forall|k: int| r <= k < s.len() ==> s[k] > x,
    ensures
        count_greater(s, x) == s.len() - r,
    decreases s.len(),
{
    if s.len() == 0 {
    } else if r == s.len() {
        lemma_count_greater_split(s.drop_last(), x, r - 1);
    } else {
        lemma_count_greater_split(s.drop_last(), x, r);
    }
}

/// Positions that no element of `upper` exceeds add no crossings.
pub proof fn lemma_crossing_pairs_tail_free(upper: Seq<usize>, lower: Seq<usize>, j: int)
    requires
        0 <= j <= lower.len(),
        forall|k: int| j <= k < lower.len() ==> count_greater(upper, lower[k]) == 0,
    ensures
        crossing_pairs(upper, lower) == crossing_pairs(upper, lower.take(j)),
    decreases lower.len(),
{
    if lower.len() == j {
        assert(lower.take(j) == lower);
    } else {
        lemma_crossing_pairs_tail_free(upper, lower.drop_last(), j);
        assert(lower.drop_last().take(j) == lower.take(j));
    }
}

/// Adding the crossings of one more lower position.
pub proof fn lemma_crossing_pairs_step(upper: Seq<usize>, lower: Seq<usize>, j: int)
    requires
        0 <= j < lower.len(),
    ensures
        crossing_pairs(upper, lower.take(j + 1)) == crossing_pairs(upper, lower.take(j))
            + count_greater(upper, lower[j]),
{
    assert(lower.take(j + 1).drop_last() == lower.take(j));
}

/// Saturating conversion of a count to `i32`.
fn count_to_i32(x: usize) -> (res: i32)
    ensures
        res == clamp_i32(x as nat),
{
    if x > i32::MAX as usize {
        i32::MAX
    } else {
        x as i32
    }
}

/// The sum of two non-negative counts, saturating at the largest `i32`.
pub fn saturating_sum(a: i32, b: i32) -> (res: i32)
    requires
        a >= 0,
        b >= 0,
    ensures
        res == clamp_i32((a + b) as nat),
{
    if a > i32::MAX - b {
        i32::MAX
    } else {
        a + b
    }
}

/// Counts, by merging the two sorted position lists, the crossings with the
/// upper node above (`.0`) and with the lower node above (`.1`).
pub fn count_crossings_by_merging_adjacency_lists(upper: &Vec<usize>, lower: &Vec<usize>) -> (res: (
    i32,
    i32,
))
    requires
        is_sorted(upper@),
        is_sorted(lower@),
    ensures
        res.0 == clamp_i32(crossing_pairs(upper@, lower@)),
        res.1 == clamp_i32(crossing_pairs(lower@, upper@)),
{
    let ghost u = upper@;
    let ghost l = lower@;
    let mut upper_lower: i32 = 0;
    let mut lower_upper: i32 = 0;
    let mut i: usize = 0;
    let mut j: usize = 0;
    assert(u.take(0) == Seq::<usize>::empty());
    assert(l.take(0) == Seq::<usize>::empty());
    while i < upper.len() && j < lower.len()
        invariant
            u == upper@,
            l == lower@,
            is_sorted(u),
            is_sorted(l),
            i <= u.len(),
            j <= l.len(),
            i > 0 && j < l.len() ==> u[i - 1] <= l[j as int],
            j > 0 && i < u.len() ==> l[j - 1] <= u[i as int],
            upper_lower == clamp_i32(crossing_pairs(u, l.take(j as int))),
            upper_lower >= 0,
            lower_upper >= 0,
            lower_upper == clamp_i32(crossing_pairs(l, u.take(i as int))),
        decreases u.len() - i + l.len() - j,
    {
        let upper_first = upper[i];
        let lower_first = lower[j];
        if upper_first > lower_first {
            proof {
                lemma_count_greater_split(u, lower_first, i as int);
                lemma_crossing_pairs_step(u, l, j as int);
            }
            let inc = count_to_i32(upper.len() - i);
            upper_lower = saturating_sum(upper_lower, inc);
            j += 1;
        } else if lower_first > upper_first {
            proof {
                lemma_count_greater_split(l, upper_first, j as int);
                lemma_crossing_pairs_step(l, u, i as int);
            }
            let inc = count_to_i32(lower.len() - j);
            lower_upper = saturating_sum(lower_upper, inc);
            i += 1;
        } else {
            // Equal positions: only the strictly greater elements of each list cross.
            let mut ru: usize = i;
            while ru < upper.len() && upper[ru] == upper_first
                invariant
                    u == upper@,
                    i <= ru <= u.len(),
                    upper_first == u[i as int],
                    forall|k: int| i <= k < ru ==> u[k] == upper_first,
                decreases u.len() - ru,
            {
                ru += 1;
            }
            let mut rl: usize = j;
            while rl < lower.len() && lower[rl] == lower_first
                invariant
                    l == lower@,
                    j <= rl <= l.len(),
                    lower_first == l[j as int],
                    forall|k: int| j <= k < rl ==> l[k] == lower_first,
                decreases l.len() - rl,
            {
                rl += 1;
            }
            proof {
                assert forall|k: int| 0 <= k < ru implies u[k] <= lower_first by {
                    if k < i {
                        assert(u[k] <= u[i - 1]);
                    }
                }
                assert forall|k: int| ru <= k < u.len() implies u[k] > lower_first by {
                    assert(u[ru as int - 1] <= u[k]);
                }
                lemma_count_greater_split(u, lower_first, ru as int);
                lemma_crossing_pairs_step(u, l, j as int);
                assert forall|k: int| 0 <= k < rl implies l[k] <= upper_first by {
                    if k < j {
                        assert(l[k] <= l[j - 1]);
                    }
                }
                assert forall|k: int| rl <= k < l.len() implies l[k] > upper_first by {
                    assert(l[rl as int - 1] <= l[k]);
                }
                lemma_count_greater_split(l, upper_first, rl as int);
                lemma_crossing_pairs_step(l, u, i as int);
            }
            let inc_u = count_to_i32(upper.len() - ru);
            let inc_l = count_to_i32(lower.len() - rl);
            upper_lower = saturating_sum(upper_lower, inc_u);
            lower_upper = saturating_sum(lower_upper, inc_l);
            i += 1;
            j += 1;
        }
    }
    proof {
        if i == u.len() {
            assert(u.take(i as int) == u);
            // every remaining lower position is at least every upper position
            assert forall|k: int| j <= k < l.len() implies count_greater(u, l[k]) == 0 by {
                if u.len() > 0 {
                    assert(u[u.len() - 1] <= l[j as int]);
                    assert(l[j as int] <= l[k]);
                    assert forall|m: int| 0 <= m < u.len() implies u[m] <= l[k] by {
                        assert(u[m] <= u[u.len() - 1]);
                    }
                }
                lemma_count_greater_split(u, l[k], u.len() as int);
            }
            lemma_crossing_pairs_tail_free(u, l, j as int);
        } else {
            assert(l.take(j as int) == l);
            assert forall|k: int| i <= k < u.len() implies count_greater(l, u[k]) == 0 by {
                if l.len() > 0 {
                    assert(l[l.len() - 1] <= u[i as int]);
                    assert(u[i as int] <= u[k]);
                    assert forall|m: int| 0 <= m < l.len() implies l[m] <= u[k] by {
                        assert(l[m] <= l[l.len() - 1]);
                    }
                }
                lemma_count_greater_split(l, u[k], l.len() as int);
            }
            lemma_crossing_pairs_tail_free(l, u, i as int);
        }
    }
    (upper_lower, lower_upper)
}

/// Sorts positions into ascending order.
pub fn sort_positions(v: &Vec<usize>) -> (res: Vec<usize>)
    ensures
        is_sorted(res@),
        res@.to_multiset() == v@.to_multiset(),
{
    let mut res: Vec<usize> = Vec::new();
    let mut i: usize = 0;
    assert(v@.take(0) == Seq::<usize>::empty());
    while i < v.len()
        invariant
            i <= v@.len(),
            is_sorted(res@),
            res@.to_multiset() == v@.take(i as int).to_multiset(),
        decreases v@.len() - i,
    {
        let x = v[i];
        let mut k: usize = res.len();
        while k > 0 && res[k - 1] > x
            invariant
                k <= res@.len(),
                forall|m: int| k <= m < res@.len() ==> res@[m] > x,
            decreases k,
        {
            k -= 1;
        }
        let ghost old_res = res@;
        proof {
            assert forall|m: int| 0 <= m < k implies old_res[m] <= x by {
                assert(old_res[m] <= old_res[k - 1]);
            }
            to_multiset_insert(old_res, k as int, x);
            to_multiset_build(v@.take(i as int), x);
            assert(v@.take(i as int + 1) == v@.take(i as int).push(x));
        }
        res.insert(k, x);
        proof {
            old_res.insert_ensures(k as int, x);
            assert forall|a: int, b: int| 0 <= a <= b < res@.len() implies res@[a] <= res@[b] by {
                if b < k {
                } else if b == k {
                    if a < k {
                        assert(old_res[a] <= x);
                    }
                } else if a < k {
                    assert(old_res[a] <= x);
                    assert(old_res[b - 1] > x);
                } else if a == k {
                    assert(old_res[b - 1] > x);
                } else {
                    assert(old_res[a - 1] <= old_res[b - 1]);
                }
            }
        }
        i += 1;
    }
    assert(v@.take(v@.len() as int) == v@);
    res
}

/// The ports of the given nodes on one side, node after node, each node's
/// ports in north-south-east-west order.
pub open spec fn layer_port_order(g: &LGraph, nodes: Seq<usize>, side: PortSide) -> Seq<usize>
    decreases nodes.len(),
{
    if nodes.len() == 0 {
        Seq::empty()
    } else {
        layer_port_order(g, nodes.drop_last(), side) + nsew_order(g, nodes.last() as int, side)
    }
}

/// `table` after recording, for each element of `order` in turn, its index in
/// `order` (a later occurrence overrides an earlier one).
pub open spec fn assign_indices(table: Seq<Option<usize>>, order: Seq<usize>) -> Seq<
    Option<usize>,
>
    decreases order.len(),
{
    if order.len() == 0 {
        table
    } else {
        let prev = assign_indices(table, order.drop_last());
        if order.last() < prev.len() {
            prev.update(order.last() as int, Some((order.len() - 1) as usize))
        } else {
            prev
        }
    }
}

/// Recording indices keeps the table's length and stores only indices of
/// `order` where the table held nothing or the same before.
pub proof fn lemma_assign_indices(table: Seq<Option<usize>>, order: Seq<usize>)
    ensures
        assign_indices(table, order).len() == table.len(),
        forall|k: int|
            0 <= k < table.len() ==> match #[trigger] assign_indices(table, order)[k] {
                Some(v) => v < order.len() || table[k] == Some(v),
                None => table[k] is None,
            },
    decreases order.len(),
{
    if order.len() > 0 {
        lemma_assign_indices(table, order.drop_last());
    }
}

/// The position of the port at the other end of an edge, seen from the given
/// side, or nothing for self loops, in-layer edges and unnumbered ports.
pub open spec fn edge_adjacency(g: &LGraph, pos: Seq<Option<usize>>, side: PortSide, e: int) -> Option<
    usize,
> {
    if g.is_self_loop(e) || g.is_in_layer_edge(e) {
        None
    } else {
        let q = if side is West {
            g.edges@[e].source
        } else {
            g.edges@[e].target
        };
        if q < pos.len() {
            pos[q as int]
        } else {
            None
        }
    }
}

/// The adjacent positions of a list of edges.
pub open spec fn edges_adjacencies(
    g: &LGraph,
    pos: Seq<Option<usize>>,
    side: PortSide,
    es: Seq<usize>,
) -> Seq<usize>
    decreases es.len(),
{
    if es.len() == 0 {
        Seq::empty()
    } else {
        let prev = edges_adjacencies(g, pos, side, es.drop_last());
        match edge_adjacency(g, pos, side, es.last() as int) {
            Some(x) => prev.push(x),
            None => prev,
        }
    }
}

/// The edges of a port that count on the given side: incoming ones on the
/// western side, outgoing ones otherwise.
pub open spec fn side_edges(g: &LGraph, p: int, side: PortSide) -> Seq<usize> {
    if side is West {
        g.incoming_of(p)
    } else {
        g.outgoing_of(p)
    }
}

/// The adjacent positions of the edges of a list of ports.
pub open spec fn ports_adjacencies(
    g: &LGraph,
    pos: Seq<Option<usize>>,
    side: PortSide,
    ps: Seq<usize>,
) -> Seq<usize>
    decreases ps.len(),
{
    if ps.len() == 0 {
        Seq::empty()
    } else {
        ports_adjacencies(g, pos, side, ps.drop_last()) + edges_adjacencies(
            g,
            pos,
            side,
            side_edges(g, ps.last() as int, side),
        )
    }
}

/// The positions that the edges of a node reach on the given side.
pub open spec fn node_adjacencies(g: &LGraph, pos: Seq<Option<usize>>, side: PortSide, n: int) -> Seq<
    usize,
> {
    ports_adjacencies(g, pos, side, nsew_order(g, n, side))
}

/// Every node of the order lies in the graph.
pub open spec fn order_in_graph(g: &LGraph, order: Seq<Vec<usize>>) -> bool {
    forall|l: int, i: int|
        0 <= l < order.len() && 0 <= i < order[l]@.len() ==> #[trigger] order[l]@[i] < g.nodes@.len()
}

/// The port positions of the layers next to the free layer: the layer before
/// it numbered by eastern ports, the layer after it by western ports.
pub open spec fn neighbouring_positions(g: &LGraph, order: Seq<Vec<usize>>, free: int) -> Seq<
    Option<usize>,
> {
    let none = Seq::new(g.ports@.len(), |i: int| None::<usize>);
    let east = if free > 0 {
        assign_indices(none, layer_port_order(g, order[free - 1]@, PortSide::East))
    } else {
        none
    };
    if free + 1 < order.len() {
        assign_indices(east, layer_port_order(g, order[free + 1]@, PortSide::West))
    } else {
        east
    }
}

/// The ports of the given nodes on one side, node after node.
fn collect_layer_port_order(g: &LGraph, nodes: &Vec<usize>, side: PortSide) -> (res: Vec<usize>)
    requires
        g.wf(),
        forall|i: int| 0 <= i < nodes@.len() ==> #[trigger] nodes@[i] < g.nodes@.len(),
    ensures
        res@ == layer_port_order(g, nodes@, side),
{
    let mut res: Vec<usize> = Vec::new();
    let mut i: usize = 0;
    assert(nodes@.take(0) == Seq::<usize>::empty());
    while i < nodes.len()
        invariant
            g.wf(),
            forall|i: int| 0 <= i < nodes@.len() ==> #[trigger] nodes@[i] < g.nodes@.len(),
            i <= nodes@.len(),
            res@ == layer_port_order(g, nodes@.take(i as int), side),
        decreases nodes@.len() - i,
    {
        let ports = in_north_south_east_west_order(g, nodes[i], side);
        let mut k: usize = 0;
        let ghost before = res@;
        while k < ports.len()
            invariant
                k <= ports@.len(),
                res@ == before + ports@.take(k as int),
            decreases ports@.len() - k,
        {
            res.push(ports[k]);
            assert(ports@.take(k as int + 1) == ports@.take(k as int).push(ports@[k as int]));
            k += 1;
        }
        assert(ports@.take(ports@.len() as int) == ports@);
        assert(nodes@.take(i as int + 1).drop_last() == nodes@.take(i as int));
        i += 1;
    }
    assert(nodes@.take(nodes@.len() as int) == nodes@);
    res
}

/// Records for each element of `order` its index in `order`.
fn assign_indices_exec(table: &mut Vec<Option<usize>>, order: &Vec<usize>)
    ensures
        final(table)@ == assign_indices(old(table)@, order@),
{
    let ghost init = table@;
    let mut i: usize = 0;
    assert(order@.take(0) == Seq::<usize>::empty());
    while i < order.len()
        invariant
            i <= order@.len(),
            table@ == assign_indices(init, order@.take(i as int)),
        decreases order@.len() - i,
    {
        let x = order[i];
        assert(order@.take(i as int + 1).drop_last() == order@.take(i as int));
        if x < table.len() {
            table.set(x, Some(i));
        }
        i += 1;
    }
    assert(order@.take(order@.len() as int) == order@);
}

/// The adjacent positions of the edges of one port.
fn collect_edges_adjacencies(
    g: &LGraph,
    pos: &Vec<Option<usize>>,
    side: PortSide,
    es: &Vec<usize>,
    res: &mut Vec<usize>,
)
    requires
        g.wf(),
        forall|i: int| 0 <= i < es@.len() ==> #[trigger] es@[i] < g.edges@.len(),
    ensures
        final(res)@ == old(res)@ + edges_adjacencies(g, pos@, side, es@),
{
    let ghost before = res@;
    let mut i: usize = 0;
    assert(es@.take(0) == Seq::<usize>::empty());
    while i < es.len()
        invariant
            g.wf(),
            forall|i: int| 0 <= i < es@.len() ==> #[trigger] es@[i] < g.edges@.len(),
            i <= es@.len(),
            res@ == before + edges_adjacencies(g, pos@, side, es@.take(i as int)),
        decreases es@.len() - i,
    {
        let e = es[i];
        assert(es@.take(i as int + 1).drop_last() == es@.take(i as int));
        if !g.is_self_loop_exec(e) && !g.is_in_layer_edge_exec(e) {
            let q = match side {
                PortSide::West => g.edges[e].source,
                _ => g.edges[e].target,
            };
            if q < pos.len() {
                match pos[q] {
                    Some(x) => {
                        res.push(x);
                    },
                    None => {},
                }
            }
        }
        i += 1;
    }
    assert(es@.take(es@.len() as int) == es@);
}

/// The positions that the edges of node `n` reach on the given side.
fn collect_node_adjacencies(g: &LGraph, pos: &Vec<Option<usize>>, side: PortSide, n: usize) -> (res:
    Vec<usize>)
    requires
        g.wf(),
        n < g.nodes@.len(),
    ensures
        res@ == node_adjacencies(g, pos@, side, n as int),
{
    let ports = in_north_south_east_west_order(g, n, side);
    let mut res: Vec<usize> = Vec::new();
    let mut i: usize = 0;
    assert(ports@.take(0) == Seq::<usize>::empty());
    while i < ports.len()
        invariant
            g.wf(),
            n < g.nodes@.len(),
            ports@ == nsew_order(g, n as int, side),
            i <= ports@.len(),
            res@ == ports_adjacencies(g, pos@, side, ports@.take(i as int)),
        decreases ports@.len() - i,
    {
        let p = ports[i];
        let es = match side {
            PortSide::West => g.incoming_edges(p),
            _ => g.outgoing_edges(p),
        };
        proof {
            assert forall|k: int| 0 <= k < es@.len() implies #[trigger] es@[k] < g.edges@.len() by {
                let all = Seq::new(g.edges@.len(), |e: int| e as usize);
                if side is West {
                    all.lemma_filter_contains_rev(|e: usize| g.edges@[e as int].target == p, es@[k]);
                } else {
                    all.lemma_filter_contains_rev(|e: usize| g.edges@[e as int].source == p, es@[k]);
                }
            }
            assert(es@ == side_edges(g, p as int, side));
        }
        collect_edges_adjacencies(g, pos, side, &es, &mut res);
        assert(ports@.take(i as int + 1).drop_last() == ports@.take(i as int));
        i += 1;
    }
    assert(ports@.take(ports@.len() as int) == ports@);
    res
}

/// Counts the crossings caused by the edges of two nodes of the free layer to
/// the neighbouring layers, with either node above the other.
pub struct BetweenLayerEdgeTwoNodeCrossingsCounter {
    upper_lower_crossings: i32,
    lower_upper_crossings: i32,
    current_node_order: Vec<Vec<usize>>,
    free_layer_index: usize,
    port_positions: Vec<Option<usize>>,
    node_indices: Vec<Option<usize>>,
    eastern_adjacencies: Vec<Vec<usize>>,
    western_adjacencies: Vec<Vec<usize>>,
}

/// The counts for an ordered pair of adjacency lists.
pub open spec fn pair_counts(upper: Seq<usize>, lower: Seq<usize>) -> (i32, i32) {
    (clamp_i32(crossing_pairs(upper, lower)), clamp_i32(crossing_pairs(lower, upper)))
}

impl BetweenLayerEdgeTwoNodeCrossingsCounter {
    /// The index of a node in the free layer, if it is there.
    pub closed spec fn node_index(&self, n: usize) -> Option<usize> {
        if n < self.node_indices@.len() {
            self.node_indices@[n as int]
        } else {
            None
        }
    }

    /// The sorted adjacency list of the node at index `i` of the free layer.
    pub closed spec fn adjacency(&self, side: PortSide, i: int) -> Seq<usize> {
        if side is West {
            self.western_adjacencies@[i]@
        } else {
            self.eastern_adjacencies@[i]@
        }
    }

    /// The number of nodes of the free layer.
    pub closed spec fn free_layer_len(&self) -> nat {
        self.eastern_adjacencies@.len()
    }

    /// The crossing counts last computed.
    pub closed spec fn counts(&self) -> (i32, i32) {
        (self.upper_lower_crossings, self.lower_upper_crossings)
    }

    /// The adjacency lists match the free layer, are sorted, and every
    /// recorded node index points into the free layer.
    pub closed spec fn inv(&self) -> bool {
        &&& self.western_adjacencies@.len() == self.eastern_adjacencies@.len()
        &&& forall|i: int|
            0 <= i < self.eastern_adjacencies@.len() ==> is_sorted(
                #[trigger] self.eastern_adjacencies@[i]@,
            )
        &&& forall|i: int|
            0 <= i < self.western_adjacencies@.len() ==> is_sorted(
                #[trigger] self.western_adjacencies@[i]@,
            )
        &&& forall|n: int|
            0 <= n < self.node_indices@.len() ==> (#[trigger] self.node_indices@[n] matches Some(
                k,
            ) ==> k < self.eastern_adjacencies@.len())
        &&& self.upper_lower_crossings >= 0
        &&& self.lower_upper_crossings >= 0
    }

    /// The counts that one side contributes for the two nodes: nothing when a
    /// node is missing from the free layer or both are the same.
    pub open spec fn side_counts(&self, upper: usize, lower: usize, side: PortSide) -> (i32, i32) {
        match (self.node_index(upper), self.node_index(lower)) {
            (Some(a), Some(b)) => if a == b {
                (0, 0)
            } else {
                pair_counts(self.adjacency(side, a as int), self.adjacency(side, b as int))
            },
            _ => (0, 0),
        }
    }

    /// Sets up the counter for the layer `free_layer_index` of the given node order.
    pub fn new(g: &LGraph, current_node_order: Vec<Vec<usize>>, free_layer_index: usize) -> (res:
        Self)
        requires
            g.wf(),
            order_in_graph(g, current_node_order@),
        ensures
            res.inv(),
            res.counts() == (0i32, 0i32),
            free_layer_index < current_node_order@.len() ==> res.free_layer_len()
                == current_node_order@[free_layer_index as int]@.len(),
            free_layer_index >= current_node_order@.len() ==> res.free_layer_len() == 0,
            forall|n: usize|
                #![trigger res.node_index(n)]
                free_layer_index < current_node_order@.len() && n < g.nodes@.len() ==> res.node_index(n)
                    == assign_indices(
                    Seq::new(g.nodes@.len(), |i: int| None::<usize>),
                    current_node_order@[free_layer_index as int]@,
                )[n as int],
            forall|side: PortSide, i: int|
                #![trigger res.adjacency(side, i)]
                0 <= i < res.free_layer_len() && (side is West || side is East) ==> res.adjacency(
                    side,
                    i,
                ).to_multiset() == node_adjacencies(
                    g,
                    neighbouring_positions(g, current_node_order@, free_layer_index as int),
                    side,
                    current_node_order@[free_layer_index as int]@[i] as int,
                ).to_multiset(),
    {
        let mut port_positions: Vec<Option<usize>> = Vec::new();
        let mut k: usize = 0;
        while k < g.ports.len()
            invariant
                k <= g.ports@.len(),
                port_positions@ == Seq::new(k as nat, |i: int| None::<usize>),
            decreases g.ports@.len() - k,
        {
            port_positions.push(None);
            k += 1;
        }
        let ghost order = current_node_order@;
        let ghost none = Seq::new(g.ports@.len(), |i: int| None::<usize>);
        assert(port_positions@ == none);
        if free_layer_index > 0 && free_layer_index - 1 < current_node_order.len() {
            let layer_ports = collect_layer_port_order(
                g,
                &current_node_order[free_layer_index - 1],
                PortSide::East,
            );
            assign_indices_exec(&mut port_positions, &layer_ports);
        }
        if free_layer_index < current_node_order.len() && free_layer_index + 1
            < current_node_order.len() {
            let layer_ports = collect_layer_port_order(
                g,
                &current_node_order[free_layer_index + 1],
                PortSide::West,
            );
            assign_indices_exec(&mut port_positions, &layer_ports);
        }
        assert(free_layer_index < order.len() ==> port_positions@ == neighbouring_positions(
            g,
            order,
            free_layer_index as int,
        ));
        let mut node_indices: Vec<Option<usize>> = Vec::new();
        let mut k: usize = 0;
        while k < g.nodes.len()
            invariant
                k <= g.nodes@.len(),
                node_indices@ == Seq::new(k as nat, |i: int| None::<usize>),
            decreases g.nodes@.len() - k,
        {
            node_indices.push(None);
            k += 1;
        }
        let mut eastern_adjacencies: Vec<Vec<usize>> = Vec::new();
        let mut western_adjacencies: Vec<Vec<usize>> = Vec::new();
        if free_layer_index < current_node_order.len() {
            assign_indices_exec(&mut node_indices, &current_node_order[free_layer_index]);
            let free = &current_node_order[free_layer_index];
            let mut i: usize = 0;
            while i < free.len()
                invariant
                    g.wf(),
                    order_in_graph(g, order),
                    order == current_node_order@,
                    free_layer_index < order.len(),
                    port_positions@ == neighbouring_positions(g, order, free_layer_index as int),
                    free@ == order[free_layer_index as int]@,
                    i <= free@.len(),
                    eastern_adjacencies@.len() == i,
                    western_adjacencies@.len() == i,
                    forall|m: int| 0 <= m < i ==> is_sorted(#[trigger] eastern_adjacencies@[m]@),
                    forall|m: int| 0 <= m < i ==> is_sorted(#[trigger] western_adjacencies@[m]@),
                    forall|m: int|
                        0 <= m < i ==> (#[trigger] eastern_adjacencies@[m]@).to_multiset()
                            == node_adjacencies(
                            g,
                            port_positions@,
                            PortSide::East,
                            free@[m] as int,
                        ).to_multiset(),
                    forall|m: int|
                        0 <= m < i ==> (#[trigger] western_adjacencies@[m]@).to_multiset()
                            == node_adjacencies(
                            g,
                            port_positions@,
                            PortSide::West,
                            free@[m] as int,
                        ).to_multiset(),
                decreases free@.len() - i,
            {
                assert(free@[i as int] < g.nodes@.len());
                let east = collect_node_adjacencies(g, &port_positions, PortSide::East, free[i]);
                let west = collect_node_adjacencies(g, &port_positions, PortSide::West, free[i]);
                let se = sort_positions(&east);
                let sw = sort_positions(&west);
                eastern_adjacencies.push(se);
                western_adjacencies.push(sw);
                assert(is_sorted(eastern_adjacencies@[i as int]@));
                assert(is_sorted(western_adjacencies@[i as int]@));
                i += 1;
            }
        }
        proof {
            if free_layer_index < order.len() {
                lemma_assign_indices(
                    Seq::new(g.nodes@.len(), |i: int| None::<usize>),
                    order[free_layer_index as int]@,
                );
            }
        }
        let res = BetweenLayerEdgeTwoNodeCrossingsCounter {
            upper_lower_crossings: 0,
            lower_upper_crossings: 0,
            current_node_order,
            free_layer_index,
            port_positions,
            node_indices,
            eastern_adjacencies,
            western_adjacencies,
        };
        res
    }

    /// The two counters hold the same free layer and adjacency lists.
    pub closed spec fn same_setup(&self, other: &Self) -> bool {
        &&& self.node_indices@ == other.node_indices@
        &&& self.eastern_adjacencies@ == other.eastern_adjacencies@
        &&& self.western_adjacencies@ == other.western_adjacencies@
    }

    /// Having the same setup carries over from one counter to the next.
    pub proof fn lemma_same_setup_trans(&self, mid: &Self, other: &Self)
        requires
            self.same_setup(mid),
            mid.same_setup(other),
        ensures
            self.same_setup(other),
    {
    }

    /// Counters with the same setup contribute the same counts.
    pub proof fn lemma_same_setup_counts(&self, other: &Self)
        requires
            self.same_setup(other),
        ensures
            forall|u: usize, l: usize, side: PortSide|
                #[trigger] self.side_counts(u, l, side) == other.side_counts(u, l, side),
    {
    }

    /// Every counter has its own setup.
    pub proof fn lemma_same_setup_refl(&self)
        ensures
            self.same_setup(self),
    {
    }

    /// Sets both counts to zero.
    fn reset_crossing_count(&mut self)
        requires
            old(self).inv(),
        ensures
            final(self).inv(),
            final(self).same_setup(old(self)),
            final(self).counts() == (0i32, 0i32),
    {
        self.upper_lower_crossings = 0;
        self.lower_upper_crossings = 0;
    }

    /// Adds the crossings that the given side contributes for the two nodes.
    fn add_crossings(&mut self, upper_node: usize, lower_node: usize, side: PortSide)
        requires
            old(self).inv(),
        ensures
            final(self).inv(),
            final(self).same_setup(old(self)),
            final(self).counts() == (
                clamp_i32(
                    (old(self).counts().0 + old(self).side_counts(upper_node, lower_node, side).0) as nat,
                ),
                clamp_i32(
                    (old(self).counts().1 + old(self).side_counts(upper_node, lower_node, side).1) as nat,
                ),
            ),
    {
        let upper_index = if upper_node < self.node_indices.len() {
            self.node_indices[upper_node]
        } else {
            None
        };
        let lower_index = if lower_node < self.node_indices.len() {
            self.node_indices[lower_node]
        } else {
            None
        };
        match (upper_index, lower_index) {
            (Some(a), Some(b)) => {
                if a == b {
                    return;
                }
                let (ul, lu) = match side {
                    PortSide::West => count_crossings_by_merging_adjacency_lists(
                        &self.western_adjacencies[a],
                        &self.western_adjacencies[b],
                    ),
                    _ => count_crossings_by_merging_adjacency_lists(
                        &self.eastern_adjacencies[a],
                        &self.eastern_adjacencies[b],
                    ),
                };
                self.upper_lower_crossings = saturating_sum(self.upper_lower_crossings, ul);
                self.lower_upper_crossings = saturating_sum(self.lower_upper_crossings, lu);
            },
            _ => {},
        }
    }

    /// Counts the crossings of the eastern edges of the two nodes.
    pub fn count_eastern_edge_crossings(&mut self, upper_node: usize, lower_node: usize)
        requires
            old(self).inv(),
        ensures
            final(self).inv(),
            final(self).same_setup(old(self)),
            final(self).counts() == if upper_node == lower_node {
                (0i32, 0i32)
            } else {
                old(self).side_counts(upper_node, lower_node, PortSide::East)
            },
    {
        self.reset_crossing_count();
        if upper_node == lower_node {
            return;
        }
        self.add_crossings(upper_node, lower_node, PortSide::East);
    }

    /// Counts the crossings of the western edges of the two nodes.
    pub fn count_western_edge_crossings(&mut self, upper_node: usize, lower_node: usize)
        requires
            old(self).inv(),
        ensures
            final(self).inv(),
            final(self).same_setup(old(self)),
            final(self).counts() == if upper_node == lower_node {
                (0i32, 0i32)
            } else {
                old(self).side_counts(upper_node, lower_node, PortSide::West)
            },
    {
        self.reset_crossing_count();
        if upper_node == lower_node {
            return;
        }
        self.add_crossings(upper_node, lower_node, PortSide::West);
    }

    /// Counts the crossings of the edges on both sides of the two nodes.
    pub fn count_both_side_crossings(&mut self, upper_node: usize, lower_node: usize)
        requires
            old(self).inv(),
        ensures
            final(self).inv(),
            final(self).same_setup(old(self)),
            final(self).counts() == if upper_node == lower_node {
                (0i32, 0i32)
            } else {
                (
                    clamp_i32(
                        (old(self).side_counts(upper_node, lower_node, PortSide::West).0 + old(
                            self,
                        ).side_counts(upper_node, lower_node, PortSide::East).0) as nat,
                    ),
                    clamp_i32(
                        (old(self).side_counts(upper_node, lower_node, PortSide::West).1 + old(
                            self,
                        ).side_counts(upper_node, lower_node, PortSide::East).1) as nat,
                    ),
                )
            },
    {
        self.reset_crossing_count();
        if upper_node == lower_node {
            return;
        }
        self.add_crossings(upper_node, lower_node, PortSide::West);
        self.add_crossings(upper_node, lower_node, PortSide::East);
    }

    /// The crossings when the upper node stays above the lower one.
    pub fn upper_lower_crossings(&self) -> (res: i32)
        ensures
            res == self.counts().0,
    {
        self.upper_lower_crossings
    }

    /// The crossings when the lower node is placed above the upper one.
    pub fn lower_upper_crossings(&self) -> (res: i32)
        ensures
            res == self.counts().1,
    {
        self.lower_upper_crossings
    }
}

} // verus!

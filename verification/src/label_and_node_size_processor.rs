//! Port ordering and label placement decisions used when sizing nodes.
use vstd::prelude::*;

use crate::graph::{LGraph, LNode, PortConstraints, PortSide};

verus! {

/// Places ports and labels and sizes the nodes.
pub struct LabelAndNodeSizeProcessor;

/// Edge `e` enters or leaves port `p`.
pub open spec fn edge_touches(g: &LGraph, e: int, p: int) -> bool {
    g.edges@[e].source == p || g.edges@[e].target == p
}

/// Some edge enters or leaves port `p`.
pub open spec fn has_edges(g: &LGraph, p: int) -> bool {
    exists|e: int| 0 <= e < g.edges@.len() && #[trigger] edge_touches(g, e, p)
}

/// Labels of a port go next to it when that is wanted and possible: with
/// inside labels only for a port without edges, with outside labels only for
/// a port not connected to external nodes.
pub open spec fn spec_label_next_to_port(
    g: &LGraph,
    p: int,
    inside_labels: bool,
    place_next_to_port_if_possible: bool,
) -> bool {
    if !place_next_to_port_if_possible {
        false
    } else if inside_labels {
        !has_edges(g, p)
    } else {
        !g.ports@[p].connected_to_external_nodes
    }
}

/// Whether the labels of the given port are placed next to the port rather
/// than below it.
pub fn label_next_to_port(
    g: &LGraph,
    port: usize,
    inside_labels: bool,
    place_next_to_port_if_possible: bool,
) -> (res: bool)
    requires
        port < g.ports@.len(),
    ensures
        res == spec_label_next_to_port(g, port as int, inside_labels, place_next_to_port_if_possible),
{
    if !place_next_to_port_if_possible {
        return false;
    }
    if inside_labels {
        let mut e: usize = 0;
        while e < g.edges.len()
            invariant
                inside_labels,
                place_next_to_port_if_possible,
                e <= g.edges@.len(),
                forall|f: int| 0 <= f < e ==> !#[trigger] edge_touches(g, f, port as int),
            decreases g.edges@.len() - e,
        {
            if g.edges[e].source == port || g.edges[e].target == port {
                assert(edge_touches(g, e as int, port as int));
                return false;
            }
            e += 1;
        }
        return true;
    }
    !g.ports[port].connected_to_external_nodes
}

/// The rank of a side in clockwise port order.
pub open spec fn spec_side_ordinal(side: PortSide) -> i32 {
    match side {
        PortSide::Undefined => 0,
        PortSide::North => 1,
        PortSide::East => 2,
        PortSide::South => 3,
        PortSide::West => 4,
    }
}

/// The rank of a side in clockwise port order.
pub fn side_ordinal(side: PortSide) -> (res: i32)
    ensures
        res == spec_side_ordinal(side),
{
    match side {
        PortSide::Undefined => 0,
        PortSide::North => 1,
        PortSide::East => 2,
        PortSide::South => 3,
        PortSide::West => 4,
    }
}

/// The rank of the side of the `i`th listed port.
pub open spec fn rank_at(g: &LGraph, ports: Seq<usize>, i: int) -> i32 {
    spec_side_ordinal(g.ports@[ports[i] as int].side)
}

/// `(low, high)` bounds the ports of `side` in a list sorted by side: `low`
/// is the first index whose rank reaches the side's, `high` the first from
/// there whose rank passes it (each the list's length where there is none).
pub open spec fn is_side_range(g: &LGraph, ports: Seq<usize>, side: PortSide, low: int, high: int) -> bool {
    let lb = spec_side_ordinal(side);
    &&& 0 <= low <= high <= ports.len()
    &&& forall|i: int| 0 <= i < low ==> #[trigger] rank_at(g, ports, i) < lb
    &&& low == ports.len() || rank_at(g, ports, low) >= lb
    &&& forall|i: int| low <= i < high ==> #[trigger] rank_at(g, ports, i) < lb + 1
    &&& high == ports.len() || rank_at(g, ports, high) >= lb + 1
}

/// The index range of the ports on `side` in a list sorted by side.
pub fn find_port_side_range(g: &LGraph, ports: &Vec<usize>, side: PortSide) -> (res: (usize, usize))
    requires
        forall|i: int| 0 <= i < ports@.len() ==> #[trigger] ports@[i] < g.ports@.len(),
    ensures
        is_side_range(g, ports@, side, res.0 as int, res.1 as int),
{
    if ports.len() == 0 {
        return (0, 0);
    }
    let lb = side_ordinal(side);
    let hb = lb + 1;
    let mut low_idx: usize = 0;
    while low_idx < ports.len() && side_ordinal(g.ports[ports[low_idx]].side) < lb
        invariant
            forall|i: int| 0 <= i < ports@.len() ==> #[trigger] ports@[i] < g.ports@.len(),
            lb == spec_side_ordinal(side),
            low_idx <= ports@.len(),
            forall|i: int| 0 <= i < low_idx ==> #[trigger] rank_at(g, ports@, i) < lb,
        decreases ports@.len() - low_idx,
    {
        low_idx += 1;
    }
    let mut high_idx: usize = low_idx;
    while high_idx < ports.len() && side_ordinal(g.ports[ports[high_idx]].side) < hb
        invariant
            forall|i: int| 0 <= i < ports@.len() ==> #[trigger] ports@[i] < g.ports@.len(),
            hb == spec_side_ordinal(side) + 1,
            low_idx <= high_idx <= ports@.len(),
            forall|i: int| low_idx <= i < high_idx ==> #[trigger] rank_at(g, ports@, i) < hb,
        decreases ports@.len() - high_idx,
    {
        high_idx += 1;
    }
    (low_idx, high_idx)
}

/// The list with the entries from `low` up to `high` in reverse order; a
/// range of fewer than two entries leaves it as it is.
pub open spec fn reversed_range(s: Seq<usize>, low: int, high: int) -> Seq<usize> {
    if high <= low + 1 {
        s
    } else {
        s.take(low) + s.subrange(low, high).reverse() + s.skip(high)
    }
}

/// Reverses the entries of `ports` from `low` up to (not including) `high`.
pub fn reverse_range(ports: &mut Vec<usize>, low_idx: usize, high_idx: usize)
    requires
        high_idx <= low_idx + 1 || (low_idx <= high_idx && high_idx <= old(ports)@.len()),
    ensures
        final(ports)@ == reversed_range(old(ports)@, low_idx as int, high_idx as int),
{
    if high_idx <= low_idx || high_idx - low_idx <= 1 {
        return;
    }
    let ghost s = ports@;
    let mut i: usize = low_idx;
    let mut j: usize = high_idx - 1;
    while i < j
        invariant
            low_idx <= i,
            i <= j + 1,
            j < high_idx,
            high_idx <= s.len(),
            i + j == low_idx + high_idx - 1,
            ports@.len() == s.len(),
            forall|k: int| 0 <= k < low_idx || high_idx <= k < s.len() ==> #[trigger] ports@[k]
                == s[k],
            forall|k: int| i <= k <= j ==> #[trigger] ports@[k] == s[k],
            forall|k: int| low_idx <= k < i ==> #[trigger] ports@[k] == s[low_idx + high_idx - 1 - k],
            forall|k: int| j < k < high_idx ==> #[trigger] ports@[k] == s[low_idx + high_idx - 1 - k],
        decreases j + 1 - i,
    {
        let a = ports[i];
        let b = ports[j];
        ports.set(i, b);
        ports.set(j, a);
        i += 1;
        j -= 1;
    }
    assert(ports@ =~= reversed_range(s, low_idx as int, high_idx as int));
}

/// Reversing the same range twice gives the list back.
pub proof fn lemma_reversed_range_involution(s: Seq<usize>, low: int, high: int)
    requires
        high <= low + 1 || (0 <= low <= high <= s.len()),
    ensures
        reversed_range(reversed_range(s, low, high), low, high) == s,
{
    if high > low + 1 {
        let r = reversed_range(s, low, high);
        assert(r.len() == s.len());
        assert(r.take(low) =~= s.take(low));
        assert(r.skip(high) =~= s.skip(high));
        assert(r.subrange(low, high) =~= s.subrange(low, high).reverse());
        assert(r.subrange(low, high).reverse() =~= s.subrange(low, high));
        assert(reversed_range(r, low, high) =~= s);
    }
}

/// Reverses the southern and then the western ports of a list sorted by
/// side, so that both sides run clockwise.
pub fn reverse_west_and_south_side(g: &LGraph, ports: &mut Vec<usize>)
    requires
        forall|i: int| 0 <= i < old(ports)@.len() ==> #[trigger] old(ports)@[i] < g.ports@.len(),
    ensures
        old(ports)@.len() <= 1 ==> final(ports)@ == old(ports)@,
        old(ports)@.len() > 1 ==> exists|sl: int, sh: int, wl: int, wh: int|
            is_side_range(g, old(ports)@, PortSide::South, sl, sh) && is_side_range(
                g,
                reversed_range(old(ports)@, sl, sh),
                PortSide::West,
                wl,
                wh,
            ) && final(ports)@ == reversed_range(reversed_range(old(ports)@, sl, sh), wl, wh),
{
    if ports.len() <= 1 {
        return;
    }
    let ghost s0 = ports@;
    let (south_low, south_high) = find_port_side_range(g, ports, PortSide::South);
    reverse_range(ports, south_low, south_high);
    let ghost s1 = ports@;
    assert(s1.len() == s0.len());
    assert forall|i: int| 0 <= i < s1.len() implies #[trigger] s1[i] < g.ports@.len() by {
        if south_high > south_low + 1 && south_low <= i < south_high {
            assert(s1[i] == s0[south_low + south_high - 1 - i]);
        } else if south_high > south_low + 1 && i >= south_high {
            assert(s1[i] == s0[i]);
        } else {
            assert(s1[i] == s0[i]);
        }
    }
    let (west_low, west_high) = find_port_side_range(g, ports, PortSide::West);
    reverse_range(ports, west_low, west_high);
    assert(is_side_range(g, s0, PortSide::South, south_low as int, south_high as int));
}


/// The ports of the list on the given side, in list order.
pub open spec fn on_side(g: &LGraph, ports: Seq<usize>, side: PortSide) -> Seq<usize> {
    ports.filter(|p: usize| g.ports@[p as int].side == side)
}

/// The ports sorted by side (undefined, north, east, south, west), keeping
/// the list order within a side.
pub open spec fn sorted_by_side(g: &LGraph, ports: Seq<usize>) -> Seq<usize> {
    on_side(g, ports, PortSide::Undefined) + on_side(g, ports, PortSide::North) + on_side(
        g,
        ports,
        PortSide::East,
    ) + on_side(g, ports, PortSide::South) + on_side(g, ports, PortSide::West)
}

/// The ports in clockwise order: sorted by side, with the southern and the
/// western ports reversed.
pub open spec fn clockwise_order(g: &LGraph, ports: Seq<usize>) -> Seq<usize> {
    on_side(g, ports, PortSide::Undefined) + on_side(g, ports, PortSide::North) + on_side(
        g,
        ports,
        PortSide::East,
    ) + on_side(g, ports, PortSide::South).reverse() + on_side(g, ports, PortSide::West).reverse()
}

/// Some port of node `n` has an edge that has no origin.
pub open spec fn touches_edge_without_origin(g: &LGraph, n: int, has_origin: Seq<bool>) -> bool {
    exists|i: int, e: int|
        0 <= i < g.nodes@[n].ports@.len() && 0 <= e < g.edges@.len() && #[trigger] edge_touches(
            g,
            e,
            g.nodes@[n].ports@[i] as int,
        ) && !has_origin[e]
}

/// The node's ports are put in clockwise order: when port sides are fixed
/// but not their order, the node has more than one port, and none of its
/// edges lacks an origin.
pub open spec fn reorders_ports(g: &LGraph, n: int, pc: PortConstraints, has_origin: Seq<bool>) -> bool {
    &&& pc.spec_is_side_fixed()
    &&& !pc.spec_is_order_fixed()
    &&& g.nodes@[n].ports@.len() > 1
    &&& !touches_edge_without_origin(g, n, has_origin)
}

/// Two nodes agree on everything but the order of their ports.
pub open spec fn same_but_ports(a: LNode, b: LNode) -> bool {
    &&& a.node_type == b.node_type
    &&& a.layer == b.layer
    &&& a.id == b.id
    &&& a.layer_constraint == b.layer_constraint
    &&& a.in_layer_constraint == b.in_layer_constraint
    &&& a.edge_constraint == b.edge_constraint
    &&& a.port_constraints == b.port_constraints
    &&& a.origin == b.origin
    &&& a.in_layer_layout_unit == b.in_layer_layout_unit
    &&& a.in_layer_successor_constraints == b.in_layer_successor_constraints
    &&& a.ext_port_side == b.ext_port_side
    &&& a.layer_id == b.layer_id
    &&& a.position_id == b.position_id
    &&& a.long_edge_source == b.long_edge_source
    &&& a.long_edge_target == b.long_edge_target
    &&& a.long_edge_has_label_dummies == b.long_edge_has_label_dummies
    &&& a.long_edge_before_label_dummy == b.long_edge_before_label_dummy
    &&& a.layer_split == b.layer_split
    &&& a.reset_on_long_edges == b.reset_on_long_edges
    &&& a.minimize_edge_length == b.minimize_edge_length
    &&& a.breaking_point_info == b.breaking_point_info
    &&& a.comment_box == b.comment_box
    &&& a.comment_conn_port == b.comment_conn_port
    &&& a.alignment == b.alignment
    &&& a.label_placement == b.label_placement
    &&& a.ext_port_replaced_dummy == b.ext_port_replaced_dummy
    &&& a.represented_labels == b.represented_labels
}

/// Appends the ports of the list on the given side, in list order.
fn push_side(g: &LGraph, ports: &Vec<usize>, side: PortSide, res: &mut Vec<usize>)
    requires
        forall|i: int| 0 <= i < ports@.len() ==> #[trigger] ports@[i] < g.ports@.len(),
    ensures
        final(res)@ == old(res)@ + on_side(g, ports@, side),
{
    let ghost pred = |p: usize| g.ports@[p as int].side == side;
    let ghost start = res@;
    let mut i: usize = 0;
    while i < ports.len()
        invariant
            i <= ports@.len(),
            forall|i: int| 0 <= i < ports@.len() ==> #[trigger] ports@[i] < g.ports@.len(),
            pred == (|p: usize| g.ports@[p as int].side == side),
            res@ == start + ports@.take(i as int).filter(pred),
        decreases ports@.len() - i,
    {
        let p = ports[i];
        proof {
            reveal_with_fuel(Seq::filter, 1);
            assert(ports@.take(i as int + 1).drop_last() == ports@.take(i as int));
            assert(ports@.take(i as int + 1).last() == p);
        }
        if g.ports[p].side == side {
            res.push(p);
        }
        i += 1;
    }
    assert(ports@.take(ports@.len() as int) == ports@);
}

/// In a list whose ranks are below the side's before `before`, equal to it
/// for `count` entries, and above it after that, the side's range is exactly
/// those entries.
proof fn lemma_side_range_of_sorted(
    g: &LGraph,
    b: Seq<usize>,
    side: PortSide,
    low: int,
    high: int,
    before: int,
    count: int,
)
    requires
        is_side_range(g, b, side, low, high),
        0 <= before,
        0 <= count,
        before + count <= b.len(),
        forall|i: int| 0 <= i < before ==> #[trigger] rank_at(g, b, i) < spec_side_ordinal(side),
        forall|i: int| before <= i < before + count ==> #[trigger] rank_at(g, b, i) == spec_side_ordinal(side),
        forall|i: int| before + count <= i < b.len() ==> #[trigger] rank_at(g, b, i) > spec_side_ordinal(side),
    ensures
        low == before,
        high == before + count,
{
    if low < before {
        assert(rank_at(g, b, low) < spec_side_ordinal(side));
    }
    if low > before {
        assert(rank_at(g, b, before) < spec_side_ordinal(side));
    }
    if high < before + count {
        assert(rank_at(g, b, high) == spec_side_ordinal(side));
    }
    if high > before + count {
        assert(rank_at(g, b, before + count) < spec_side_ordinal(side) + 1);
    }
}

/// The entries of the part of a list on a side all have that side's rank.
proof fn lemma_side_ranks(g: &LGraph, ports: Seq<usize>, side: PortSide, b: Seq<usize>, start: int)
    requires
        0 <= start,
        start + on_side(g, ports, side).len() <= b.len(),
        forall|i: int| 0 <= i < on_side(g, ports, side).len() ==> #[trigger] b[start + i] == on_side(g, ports, side)[i]
            || b[start + i] == on_side(g, ports, side).reverse()[i],
    ensures
        forall|i: int|
            start <= i < start + on_side(g, ports, side).len() ==> #[trigger] rank_at(g, b, i) == spec_side_ordinal(
                side,
            ),
{
    let s = on_side(g, ports, side);
    let pred = |p: usize| g.ports@[p as int].side == side;
    assert forall|i: int| start <= i < start + s.len() implies #[trigger] rank_at(g, b, i) == spec_side_ordinal(side) by {
        let k = i - start;
        assert(b[start + k] == s[k] || b[start + k] == s.reverse()[k]);
        ports.lemma_filter_pred(pred, k);
        ports.lemma_filter_pred(pred, s.len() - 1 - k);
        assert(s.reverse()[k] == s[s.len() - 1 - k]);
    }
}

/// Whether some port of node `n` has an edge without an origin.
pub fn has_edge_without_origin(g: &LGraph, n: usize, edge_has_origin: &Vec<bool>) -> (res: bool)
    requires
        g.wf(),
        n < g.nodes@.len(),
        edge_has_origin@.len() == g.edges@.len(),
    ensures
        res == touches_edge_without_origin(g, n as int, edge_has_origin@),
{
    let ghost ps = g.nodes@[n as int].ports@;
    let mut i: usize = 0;
    while i < g.nodes[n].ports.len()
        invariant
            n < g.nodes@.len(),
            ps == g.nodes@[n as int].ports@,
            edge_has_origin@.len() == g.edges@.len(),
            i <= ps.len(),
            forall|k: int, e: int|
                0 <= k < i && 0 <= e < g.edges@.len() && #[trigger] edge_touches(g, e, ps[k] as int)
                    ==> edge_has_origin@[e],
        decreases ps.len() - i,
    {
        let p = g.nodes[n].ports[i];
        let mut e: usize = 0;
        while e < g.edges.len()
            invariant
                n < g.nodes@.len(),
                ps == g.nodes@[n as int].ports@,
                i < ps.len(),
                p == ps[i as int],
                edge_has_origin@.len() == g.edges@.len(),
                e <= g.edges@.len(),
                forall|x: int| 0 <= x < e && #[trigger] edge_touches(g, x, p as int) ==> edge_has_origin@[x],
            decreases g.edges@.len() - e,
        {
            if (g.edges[e].source == p || g.edges[e].target == p) && !edge_has_origin[e] {
                assert(edge_touches(g, e as int, g.nodes@[n as int].ports@[i as int] as int));
                return true;
            }
            e += 1;
        }
        i += 1;
    }
    false
}

/// The entries of the list sorted by side are ports of the graph.
proof fn lemma_sorted_ports_valid(g: &LGraph, ps: Seq<usize>)
    requires
        forall|i: int| 0 <= i < ps.len() ==> #[trigger] ps[i] < g.ports@.len(),
    ensures
        forall|i: int| 0 <= i < sorted_by_side(g, ps).len() ==> #[trigger] sorted_by_side(g, ps)[i] < g.ports@.len(),
        forall|i: int| 0 <= i < clockwise_order(g, ps).len() ==> ps.contains(#[trigger] clockwise_order(g, ps)[i]),
{
    let u = on_side(g, ps, PortSide::Undefined);
    let no = on_side(g, ps, PortSide::North);
    let ea = on_side(g, ps, PortSide::East);
    let so = on_side(g, ps, PortSide::South);
    let we = on_side(g, ps, PortSide::West);
    let c0: int = (u.len() + no.len() + ea.len()) as int;
    let b = sorted_by_side(g, ps);
    let cw = clockwise_order(g, ps);
    assert forall|i: int| 0 <= i < cw.len() implies ps.contains(#[trigger] cw[i]) by {
        let x = cw[i];
        if i < u.len() {
            assert(u.contains(x));
            ps.lemma_filter_contains_rev(|p: usize| g.ports@[p as int].side == PortSide::Undefined, x);
        } else if i < u.len() + no.len() {
            assert(no[i - u.len()] == x);
            assert(no.contains(x));
            ps.lemma_filter_contains_rev(|p: usize| g.ports@[p as int].side == PortSide::North, x);
        } else if i < c0 {
            assert(ea[i - u.len() - no.len()] == x);
            assert(ea.contains(x));
            ps.lemma_filter_contains_rev(|p: usize| g.ports@[p as int].side == PortSide::East, x);
        } else if i < c0 + so.len() {
            let k = i - c0;
            assert(x == so.reverse()[k]);
            assert(so[so.len() - 1 - k] == x);
            assert(so.contains(x));
            ps.lemma_filter_contains_rev(|p: usize| g.ports@[p as int].side == PortSide::South, x);
        } else {
            let k = i - c0 - so.len();
            assert(x == we.reverse()[k]);
            assert(we[we.len() - 1 - k] == x);
            assert(we.contains(x));
            ps.lemma_filter_contains_rev(|p: usize| g.ports@[p as int].side == PortSide::West, x);
        }
    }
    assert forall|i: int| 0 <= i < b.len() implies #[trigger] b[i] < g.ports@.len() by {
        let x = b[i];
        if i < u.len() {
            assert(u.contains(x));
            ps.lemma_filter_contains_rev(|p: usize| g.ports@[p as int].side == PortSide::Undefined, x);
        } else if i < u.len() + no.len() {
            assert(no[i - u.len()] == x);
            assert(no.contains(x));
            ps.lemma_filter_contains_rev(|p: usize| g.ports@[p as int].side == PortSide::North, x);
        } else if i < c0 {
            assert(ea[i - u.len() - no.len()] == x);
            assert(ea.contains(x));
            ps.lemma_filter_contains_rev(|p: usize| g.ports@[p as int].side == PortSide::East, x);
        } else if i < c0 + so.len() {
            assert(so[i - c0] == x);
            assert(so.contains(x));
            ps.lemma_filter_contains_rev(|p: usize| g.ports@[p as int].side == PortSide::South, x);
        } else {
            assert(we[i - c0 - so.len()] == x);
            assert(we.contains(x));
            ps.lemma_filter_contains_rev(|p: usize| g.ports@[p as int].side == PortSide::West, x);
        }
        let j = choose|j: int| 0 <= j < ps.len() && ps[j] == x;
        assert(ps[j] < g.ports@.len());
    }
}

/// Reversing the southern and then the western range of the list sorted by
/// side gives the clockwise order.
#[verifier::spinoff_prover]
proof fn lemma_clockwise_from_reversals(g: &LGraph, ps: Seq<usize>, sl: int, sh: int, wl: int, wh: int)
    requires
        is_side_range(g, sorted_by_side(g, ps), PortSide::South, sl, sh),
        is_side_range(g, reversed_range(sorted_by_side(g, ps), sl, sh), PortSide::West, wl, wh),
    ensures
        reversed_range(reversed_range(sorted_by_side(g, ps), sl, sh), wl, wh) == clockwise_order(g, ps),
{
    let u = on_side(g, ps, PortSide::Undefined);
    let no = on_side(g, ps, PortSide::North);
    let ea = on_side(g, ps, PortSide::East);
    let so = on_side(g, ps, PortSide::South);
    let we = on_side(g, ps, PortSide::West);
    let b = sorted_by_side(g, ps);
    let c0: int = (u.len() + no.len() + ea.len()) as int;
    let c1: int = c0 + so.len() as int;
    assert(b =~= u + no + ea + so + we);
    lemma_side_ranks(g, ps, PortSide::Undefined, b, 0);
    lemma_side_ranks(g, ps, PortSide::North, b, u.len() as int);
    lemma_side_ranks(g, ps, PortSide::East, b, (u.len() + no.len()) as int);
    lemma_side_ranks(g, ps, PortSide::South, b, c0);
    lemma_side_ranks(g, ps, PortSide::West, b, c1);
    assert forall|i: int| 0 <= i < c0 implies #[trigger] rank_at(g, b, i) < 3 by {
        if i < u.len() {
            assert(rank_at(g, b, i) == 0);
        } else if i < u.len() + no.len() {
            assert(rank_at(g, b, i) == 1);
        } else {
            assert(rank_at(g, b, i) == 2);
        }
    }
    lemma_side_range_of_sorted(g, b, PortSide::South, sl, sh, c0, so.len() as int);
    let b1 = reversed_range(b, sl, sh);
    assert(b1 =~= u + no + ea + so.reverse() + we) by {
        if so.len() <= 1 {
            assert(so.reverse() =~= so);
        }
    }
    lemma_side_ranks(g, ps, PortSide::South, b1, c0);
    lemma_side_ranks(g, ps, PortSide::West, b1, c1);
    assert forall|i: int| 0 <= i < c1 implies #[trigger] rank_at(g, b1, i) < 4 by {
        if i < c0 {
            assert(b1[i] == b[i]);
            assert(rank_at(g, b, i) < 3);
        }
    }
    lemma_side_range_of_sorted(g, b1, PortSide::West, wl, wh, c1, we.len() as int);
    if we.len() <= 1 {
        assert(we.reverse() =~= we);
    }
    assert(reversed_range(b1, wl, wh) =~= clockwise_order(g, ps));
}

/// Puts the ports of node `n` in clockwise order when that is called for
/// (see `reorders_ports`); `edge_has_origin` tells for each edge whether it
/// has an origin.
pub fn ensure_clockwise_port_order(
    g: &mut LGraph,
    n: usize,
    port_constraints: PortConstraints,
    edge_has_origin: &Vec<bool>,
)
    requires
        old(g).wf(),
        n < old(g).nodes@.len(),
        edge_has_origin@.len() == old(g).edges@.len(),
    ensures
        final(g).wf(),
        final(g).ports == old(g).ports,
        final(g).edges == old(g).edges,
        final(g).layers == old(g).layers,
        final(g).layerless_nodes == old(g).layerless_nodes,
        final(g).nodes@.len() == old(g).nodes@.len(),
        forall|m: int| 0 <= m < old(g).nodes@.len() && m != n ==> #[trigger] final(g).nodes@[m] == old(g).nodes@[m],
        same_but_ports(final(g).nodes@[n as int], old(g).nodes@[n as int]),
        final(g).nodes@[n as int].ports@ == if reorders_ports(old(g), n as int, port_constraints, edge_has_origin@) {
            clockwise_order(old(g), old(g).nodes@[n as int].ports@)
        } else {
            old(g).nodes@[n as int].ports@
        },
{
    if !port_constraints.is_side_fixed() || port_constraints.is_order_fixed() {
        return;
    }
    if g.nodes[n].ports.len() <= 1 {
        return;
    }
    if has_edge_without_origin(g, n, edge_has_origin) {
        return;
    }
    let ghost g0 = *g;
    let ghost ps = g0.nodes@[n as int].ports@;
    let ports = crate::graph::copy_list(&g.nodes[n].ports);
    assert forall|i: int| 0 <= i < ports@.len() implies #[trigger] ports@[i] < g.ports@.len() by {
        assert(g.nodes@[n as int].ports@[i] < g.ports@.len());
    }
    let mut sorted: Vec<usize> = Vec::new();
    push_side(g, &ports, PortSide::Undefined, &mut sorted);
    push_side(g, &ports, PortSide::North, &mut sorted);
    push_side(g, &ports, PortSide::East, &mut sorted);
    push_side(g, &ports, PortSide::South, &mut sorted);
    push_side(g, &ports, PortSide::West, &mut sorted);
    let ghost b = sorted@;
    proof {
        assert(b =~= sorted_by_side(&g0, ps));
        lemma_sorted_ports_valid(&g0, ps);
    }
    reverse_west_and_south_side(g, &mut sorted);
    proof {
        if b.len() > 1 {
            let (sl, sh, wl, wh) = choose|sl: int, sh: int, wl: int, wh: int|
                is_side_range(g, b, PortSide::South, sl, sh) && is_side_range(
                    g,
                    reversed_range(b, sl, sh),
                    PortSide::West,
                    wl,
                    wh,
                ) && sorted@ == reversed_range(reversed_range(b, sl, sh), wl, wh);
            lemma_clockwise_from_reversals(&g0, ps, sl, sh, wl, wh);
        } else {
            let so = on_side(&g0, ps, PortSide::South);
            let we = on_side(&g0, ps, PortSide::West);
            assert(b =~= on_side(&g0, ps, PortSide::Undefined) + on_side(&g0, ps, PortSide::North) + on_side(
                &g0,
                ps,
                PortSide::East,
            ) + so + we);
            assert(so.reverse() =~= so);
            assert(we.reverse() =~= we);
            assert(sorted@ =~= clockwise_order(&g0, ps));
        }
    }
    g.nodes[n].ports = sorted;
    proof {
        let cw = clockwise_order(&g0, ps);
        assert forall|m: int, i: int| 0 <= m < g.nodes@.len() && 0 <= i < g.nodes@[m].ports@.len() implies {
            &&& #[trigger] g.nodes@[m].ports@[i] < g.ports@.len()
            &&& g.ports@[g.nodes@[m].ports@[i] as int].node == Some(m as usize)
        } by {
            if m == n {
                assert(ps.contains(cw[i]));
                let j = choose|j: int| 0 <= j < ps.len() && ps[j] == cw[i];
                assert(g0.nodes@[m].ports@[j] < g0.ports@.len());
            } else {
                assert(g.nodes@[m] == g0.nodes@[m]);
            }
        }
        assert forall|l: int, i: int| 0 <= l < g.layers@.len() && 0 <= i < g.layers@[l]@.len() implies {
            &&& #[trigger] g.layers@[l]@[i] < g.nodes@.len()
            &&& g.nodes@[g.layers@[l]@[i] as int].layer == Some(l as usize)
        } by {
            assert(g0.layers@[l]@[i] < g0.nodes@.len());
        }
    }
}

} // verus!

//! The integer bookkeeping of breaking point insertion: which edges are
//! open between two layers, and the list of cuts that is improved one cut at
//! a time.
use vstd::prelude::*;

use crate::breaking_point_processor::port_edges;
use crate::breaking_point_info::BreakingPointInfo;
use crate::graph::{
    LEdge, LGraph, LNode, LPort, NodeType, Origin, PortConstraints, PortSide, lemma_index_of_unique,
    insert_layer, layer_after_insert, layer_views, lemma_remove_unique, same_but_layer, take_layer,
};

verus! {

/// Inserts breaking points where the drawing wraps: each edge open across a
/// cut is led through a pair of breaking point dummies.
pub struct BreakingPointInserter;

/// A cut before a layer index, linked to its neighbouring cuts.
#[derive(Clone, Copy, Debug, PartialEq, Eq, Structural)]
pub struct CutState {
    pub index: i32,
    pub new_index: i32,
    pub prev: Option<usize>,
    pub suc: Option<usize>,
    pub assigned: bool,
}

/// The links of the cut list run strictly forward (`suc`) and strictly
/// backward (`prev`) and stay inside the list.
pub open spec fn cuts_linked(cuts: Seq<CutState>) -> bool {
    forall|i: int|
        0 <= i < cuts.len() ==> {
            &&& (#[trigger] cuts[i]).suc matches Some(j) ==> i < j < cuts.len()
            &&& cuts[i].prev matches Some(j) ==> 0 <= j < i
        }
}

/// The first cut from `c` on, following the `suc` links, that is not
/// assigned yet.
pub open spec fn first_unassigned(cuts: Seq<CutState>, c: int) -> Option<usize>
    decreases cuts.len() - c,
    when 0 <= c < cuts.len() && cuts_linked(cuts)
{
    if !cuts[c].assigned {
        Some(c as usize)
    } else {
        match cuts[c].suc {
            Some(j) => first_unassigned(cuts, j as int),
            None => None,
        }
    }
}

/// The first unassigned cut from the given one on, if there is one.
pub fn cut_self_or_next(cuts: &Vec<CutState>, cut: Option<usize>) -> (res: Option<usize>)
    requires
        cuts_linked(cuts@),
        cut matches Some(c) ==> c < cuts@.len(),
    ensures
        res == match cut {
            Some(c) => first_unassigned(cuts@, c as int),
            None => None,
        },
{
    let mut current = cut;
    while current.is_some()
        invariant
            cuts_linked(cuts@),
            current matches Some(c) ==> c < cuts@.len(),
            (match current {
                Some(c) => first_unassigned(cuts@, c as int),
                None => None,
            }) == (match cut {
                Some(c) => first_unassigned(cuts@, c as int),
                None => None,
            }),
        decreases match current {
            Some(c) => cuts@.len() - c,
            None => 0,
        },
    {
        let idx = current.unwrap();
        if !cuts[idx].assigned {
            return Some(idx);
        }
        current = cuts[idx].suc;
    }
    None
}

/// The first unassigned cut after the given one, if there is one.
pub fn cut_next(cuts: &Vec<CutState>, cut: usize) -> (res: Option<usize>)
    requires
        cuts_linked(cuts@),
        cut < cuts@.len(),
    ensures
        res == match cuts@[cut as int].suc {
            Some(c) => first_unassigned(cuts@, c as int),
            None => None,
        },
{
    cut_self_or_next(cuts, cuts[cut].suc)
}

/// The unassigned cuts reached from `c` along the `prev` links before an
/// assigned one.
pub open spec fn prev_run(cuts: Seq<CutState>, c: int) -> Set<int>
    decreases c,
    when 0 <= c < cuts.len() && cuts_linked(cuts)
{
    match cuts[c].prev {
        Some(j) => if cuts[j as int].assigned {
            Set::empty()
        } else {
            prev_run(cuts, j as int).insert(j as int)
        },
        None => Set::empty(),
    }
}

/// The unassigned cuts reached from `c` along the `suc` links before an
/// assigned one.
pub open spec fn suc_run(cuts: Seq<CutState>, c: int) -> Set<int>
    decreases cuts.len() - c,
    when 0 <= c < cuts.len() && cuts_linked(cuts)
{
    match cuts[c].suc {
        Some(j) => if cuts[j as int].assigned {
            Set::empty()
        } else {
            suc_run(cuts, j as int).insert(j as int)
        },
        None => Set::empty(),
    }
}

/// The cuts that move with an assigned cut: the cut itself and the
/// unassigned cuts on both sides up to the next assigned ones.
pub open spec fn moved_with(cuts: Seq<CutState>, cut: int, k: int) -> bool {
    k == cut || prev_run(cuts, cut).contains(k) || suc_run(cuts, cut).contains(k)
}

/// The cuts before `c` along the `prev` links lie before `c`, and following
/// the run from one of them stays inside the run.
proof fn lemma_prev_run(cuts: Seq<CutState>, c: int, j: int)
    requires
        cuts_linked(cuts),
        0 <= c < cuts.len(),
    ensures
        forall|k: int| #[trigger] prev_run(cuts, c).contains(k) ==> 0 <= k < c,
        prev_run(cuts, c).contains(j) ==> prev_run(cuts, j).subset_of(prev_run(cuts, c)),
    decreases c,
{
    assert(cuts_linked(cuts) && 0 <= c < cuts.len());
    if let Some(p) = cuts[c].prev {
        assert(0 <= p < c);
        if !cuts[p as int].assigned {
            lemma_prev_run(cuts, p as int, j);
        }
    }
}

/// The cuts after `c` along the `suc` links lie after `c`, and following
/// the run from one of them stays inside the run.
proof fn lemma_suc_run(cuts: Seq<CutState>, c: int, j: int)
    requires
        cuts_linked(cuts),
        0 <= c < cuts.len(),
    ensures
        forall|k: int| #[trigger] suc_run(cuts, c).contains(k) ==> c < k < cuts.len(),
        suc_run(cuts, c).contains(j) ==> suc_run(cuts, j).subset_of(suc_run(cuts, c)),
    decreases cuts.len() - c,
{
    assert(cuts_linked(cuts) && 0 <= c < cuts.len());
    if let Some(p) = cuts[c].suc {
        assert(c < p < cuts.len());
        if !cuts[p as int].assigned {
            lemma_suc_run(cuts, p as int, j);
        }
    }
}

/// Every field but the index is as in `old`.
pub open spec fn same_links(a: CutState, b: CutState) -> bool {
    &&& a.new_index == b.new_index
    &&& a.prev == b.prev
    &&& a.suc == b.suc
    &&& a.assigned == b.assigned
}

/// The index a cut has after an assigned cut moved by `offset`.
pub open spec fn offset_index(cuts: Seq<CutState>, cut: int, offset: int, k: int) -> int {
    if moved_with(cuts, cut, k) {
        cuts[k].index + offset
    } else {
        cuts[k].index as int
    }
}

/// Moves an assigned cut to its new index, and with it the unassigned cuts
/// on both sides up to the next assigned ones; an unassigned cut stays.
pub fn offset_assigned_cut(cuts: &mut Vec<CutState>, cut: usize)
    requires
        cuts_linked(old(cuts)@),
        cut < old(cuts)@.len(),
        offset_in_range(old(cuts)@, cut as int),
    ensures
        final(cuts)@.len() == old(cuts)@.len(),
        !old(cuts)@[cut as int].assigned ==> final(cuts)@ == old(cuts)@,
        old(cuts)@[cut as int].assigned ==> forall|k: int|
            0 <= k < old(cuts)@.len() ==> same_links(#[trigger] final(cuts)@[k], old(cuts)@[k])
                && final(cuts)@[k].index == offset_index(
                old(cuts)@,
                cut as int,
                old(cuts)@[cut as int].new_index - old(cuts)@[cut as int].index,
                k,
            ),
{
    if !cuts[cut].assigned {
        return;
    }
    let ghost c0 = cuts@;
    let offset = cuts[cut].new_index - cuts[cut].index;
    proof {
        lemma_prev_run(c0, cut as int, 0);
        lemma_suc_run(c0, cut as int, 0);
        assert(moved_with(c0, cut as int, cut as int));
    }
    let new_index = cuts[cut].index + offset;
    cuts[cut].index = new_index;
    let mut cur = cut;
    let mut going = true;
    while going
        invariant
            cuts_linked(c0),
            cut < c0.len(),
            offset == c0[cut as int].new_index - c0[cut as int].index,
            forall|k: int|
                0 <= k < c0.len() && #[trigger] moved_with(c0, cut as int, k) ==> i32::MIN
                    <= c0[k].index + offset <= i32::MAX,
            cuts@.len() == c0.len(),
            cur < c0.len(),
            cur == cut || prev_run(c0, cut as int).contains(cur as int),
            !going ==> prev_run(c0, cur as int) == Set::<int>::empty(),
            forall|k: int|
                0 <= k < c0.len() ==> same_links(#[trigger] cuts@[k], c0[k]) && cuts@[k].index == if k
                    == cut || (prev_run(c0, cut as int).contains(k) && !prev_run(
                    c0,
                    cur as int,
                ).contains(k)) {
                    c0[k].index + offset
                } else {
                    c0[k].index as int
                },
        decreases cur + if going {
            1int
        } else {
            0int
        },
    {
        proof {
            lemma_prev_run(c0, cut as int, cur as int);
            lemma_prev_run(c0, cur as int, 0);
        }
        assert(cuts_linked(c0) && 0 <= cur < c0.len());
        match cuts[cur].prev {
            Some(p) => {
                assert(c0[cur as int].prev == Some(p));
                if cuts[p].assigned {
                    going = false;
                } else {
                    assert(prev_run(c0, cur as int) == prev_run(c0, p as int).insert(p as int));
                    proof {
                        lemma_prev_run(c0, p as int, 0);
                    }
                    assert(moved_with(c0, cut as int, p as int));
                    let v = cuts[p].index + offset;
                    cuts[p].index = v;
                    cur = p;
                }
            },
            None => {
                going = false;
            },
        }
    }
    let ghost c1 = cuts@;
    cur = cut;
    going = true;
    while going
        invariant
            cuts_linked(c0),
            cut < c0.len(),
            offset == c0[cut as int].new_index - c0[cut as int].index,
            forall|k: int|
                0 <= k < c0.len() && #[trigger] moved_with(c0, cut as int, k) ==> i32::MIN
                    <= c0[k].index + offset <= i32::MAX,
            forall|k: int| #[trigger] prev_run(c0, cut as int).contains(k) ==> 0 <= k < cut,
            cuts@.len() == c0.len(),
            cur < c0.len(),
            cur == cut || suc_run(c0, cut as int).contains(cur as int),
            !going ==> suc_run(c0, cur as int) == Set::<int>::empty(),
            forall|k: int|
                0 <= k < c0.len() ==> same_links(#[trigger] cuts@[k], c0[k]) && cuts@[k].index == if k
                    == cut || prev_run(c0, cut as int).contains(k) || (suc_run(
                    c0,
                    cut as int,
                ).contains(k) && !suc_run(c0, cur as int).contains(k)) {
                    c0[k].index + offset
                } else {
                    c0[k].index as int
                },
        decreases c0.len() - cur + if going {
            1int
        } else {
            0int
        },
    {
        proof {
            lemma_suc_run(c0, cut as int, cur as int);
            lemma_suc_run(c0, cur as int, 0);
        }
        assert(cuts_linked(c0) && 0 <= cur < c0.len());
        match cuts[cur].suc {
            Some(p) => {
                assert(c0[cur as int].suc == Some(p));
                if cuts[p].assigned {
                    going = false;
                } else {
                    assert(suc_run(c0, cur as int) == suc_run(c0, p as int).insert(p as int));
                    proof {
                        lemma_suc_run(c0, p as int, 0);
                    }
                    assert(moved_with(c0, cut as int, p as int));
                    assert(!prev_run(c0, cut as int).contains(p as int));
                    let v = cuts[p].index + offset;
                    cuts[p].index = v;
                    cur = p;
                }
            },
            None => {
                going = false;
            },
        }
    }
}

/// The layer of the node that the edge leaves, if it has one.
pub open spec fn source_layer(g: &LGraph, e: int) -> Option<usize> {
    match g.ports@[g.edges@[e].source as int].node {
        Some(n) => g.nodes@[n as int].layer,
        None => None,
    }
}

/// The layer of the node that the edge enters, if it has one.
pub open spec fn target_layer(g: &LGraph, e: int) -> Option<usize> {
    match g.ports@[g.edges@[e].target as int].node {
        Some(n) => g.nodes@[n as int].layer,
        None => None,
    }
}

/// Edge `e` is open in front of layer `idx`: it leaves a layer before `idx`
/// and does not enter a layer from its own up to just before `idx`.
pub open spec fn open_at(g: &LGraph, e: int, idx: int) -> bool {
    &&& source_layer(g, e) matches Some(sl)
    &&& sl < idx
    &&& !(target_layer(g, e) matches Some(tl) && sl <= tl < idx)
}

/// The edges open in front of layer `idx`.
pub open spec fn open_edges(g: &LGraph, idx: int) -> Set<usize> {
    Set::new(|e: usize| e < g.edges@.len() && open_at(g, e as int, idx))
}

/// Whether the edge is in the list.
pub fn contains_edge(edges: &Vec<usize>, edge: usize) -> (res: bool)
    ensures
        res == edges@.contains(edge),
{
    let mut i: usize = 0;
    while i < edges.len()
        invariant
            i <= edges@.len(),
            forall|j: int| 0 <= j < i ==> edges@[j] != edge,
        decreases edges@.len() - i,
    {
        if edges[i] == edge {
            assert(edges@[i as int] == edge);
            return true;
        }
        i += 1;
    }
    false
}

/// Removes the first occurrence of the edge from the list, if there is one.
pub fn remove_edge(edges: &mut Vec<usize>, edge: usize)
    ensures
        !old(edges)@.contains(edge) ==> final(edges)@ == old(edges)@,
        old(edges)@.contains(edge) ==> exists|i: int|
            0 <= i < old(edges)@.len() && old(edges)@[i] == edge && (forall|j: int|
                0 <= j < i ==> old(edges)@[j] != edge) && final(edges)@ == old(edges)@.remove(i),
{
    let mut i: usize = 0;
    while i < edges.len()
        invariant
            edges@ == old(edges)@,
            i <= edges@.len(),
            forall|j: int| 0 <= j < i ==> edges@[j] != edge,
        decreases edges@.len() - i,
    {
        if edges[i] == edge {
            let ghost before = edges@;
            edges.remove(i);
            assert(before[i as int] == edge);
            return;
        }
        i += 1;
    }
}

/// The layer of the node at the given port, if it has one.
fn port_layer(g: &LGraph, p: usize) -> (res: Option<usize>)
    requires
        g.wf(),
        p < g.ports@.len(),
    ensures
        res == match g.ports@[p as int].node {
            Some(n) => g.nodes@[n as int].layer,
            None => None,
        },
{
    assert(g.ports@[p as int].node matches Some(n) ==> n < g.nodes@.len());
    match g.ports[p].node {
        Some(n) => g.nodes[n].layer,
        None => None,
    }
}

/// For each layer the number of edges open in front of it, sweeping the
/// layers in order: the edges leaving a layer open, those entering it
/// close; the last entry, behind the last layer, stays zero.
pub fn compute_edge_spans(g: &LGraph) -> (spans: Vec<i32>)
    requires
        g.wf(),
        g.layers_listed(),
        g.edges@.len() <= i32::MAX,
    ensures
        spans@.len() == g.layers@.len() + 1,
        spans@[g.layers@.len() as int] == 0,
        forall|idx: int| 0 <= idx < g.layers@.len() ==> #[trigger] spans@[idx] == open_edges(g, idx).len(),
{
    let nl = g.layers.len();
    let ne = g.edges.len();
    let mut spans: Vec<i32> = Vec::new();
    let mut open: Vec<usize> = Vec::new();
    let mut idx: usize = 0;
    while idx < nl
        invariant
            g.wf(),
            nl == g.layers@.len(),
            ne == g.edges@.len(),
            ne <= i32::MAX,
            idx <= nl,
            spans@.len() == idx,
            forall|k: int| 0 <= k < idx ==> #[trigger] spans@[k] == open_edges(g, k).len(),
            open@.no_duplicates(),
            forall|x: usize| #[trigger] open@.contains(x) <==> (x < ne && open_at(g, x as int, idx as int)),
        decreases nl - idx,
    {
        proof {
            assert(open@.to_set() =~= open_edges(g, idx as int));
            open@.unique_seq_to_set();
            let all = Set::<usize>::range(0, ne);
            <usize as vstd::set_lib::FiniteRange>::range_properties(0, ne);
            assert(open@.to_set().subset_of(all));
            vstd::set_lib::lemma_len_subset(open@.to_set(), all);
        }
        spans.push(open.len() as i32);
        let mut e: usize = 0;
        while e < ne
            invariant
                g.wf(),
                ne == g.edges@.len(),
                idx < nl,
                nl == g.layers@.len(),
                e <= ne,
                open@.no_duplicates(),
                forall|x: usize| #[trigger] open@.contains(x) <==> (x < ne && (open_at(g, x as int, idx as int)
                    || (x < e && source_layer(g, x as int) == Some(idx)))),
            decreases ne - e,
        {
            assert(g.edges@[e as int].source < g.ports@.len());
            let sl = port_layer(g, g.edges[e].source);
            if sl == Some(idx) && !contains_edge(&open, e) {
                let ghost o0 = open@;
                open.push(e);
                assert forall|x: usize| #[trigger] open@.contains(x) <==> (o0.contains(x) || x == e) by {
                    if o0.contains(x) {
                        let j = choose|j: int| 0 <= j < o0.len() && o0[j] == x;
                        assert(open@[j] == x);
                    }
                    if x == e {
                        assert(open@[o0.len() as int] == x);
                    }
                    if open@.contains(x) {
                        let j = choose|j: int| 0 <= j < open@.len() && open@[j] == x;
                        if j < o0.len() {
                            assert(o0[j] == x);
                        }
                    }
                }
                assert forall|a: int, b: int| 0 <= a < open@.len() && 0 <= b < open@.len() && a != b implies open@[a] != open@[b] by {
                    if a == o0.len() {
                        assert(o0.contains(open@[b]));
                    } else if b == o0.len() {
                        assert(o0.contains(open@[a]));
                    }
                }
            }
            e += 1;
        }
        let mut e: usize = 0;
        while e < ne
            invariant
                g.wf(),
                ne == g.edges@.len(),
                idx < nl,
                nl == g.layers@.len(),
                e <= ne,
                open@.no_duplicates(),
                forall|x: usize| #[trigger] open@.contains(x) <==> (x < ne && (open_at(g, x as int, idx as int)
                    || source_layer(g, x as int) == Some(idx)) && !(x < e && target_layer(g, x as int) == Some(idx))),
            decreases ne - e,
        {
            assert(g.edges@[e as int].source < g.ports@.len());
            let tl = port_layer(g, g.edges[e].target);
            if tl == Some(idx) {
                let ghost o0 = open@;
                remove_edge(&mut open, e);
                proof {
                    if o0.contains(e) {
                        let i = choose|i: int| 0 <= i < o0.len() && o0[i] == e && (forall|j: int| 0 <= j < i ==> o0[j] != e) && open@ == o0.remove(i);
                        lemma_remove_unique(o0, i);
                    }
                }
            }
            e += 1;
        }
        assert forall|x: usize| #[trigger] open@.contains(x) <==> (x < ne && open_at(g, x as int, idx + 1)) by {
            if x < ne {
                assert(open_at(g, x as int, idx + 1) == ((open_at(g, x as int, idx as int) || source_layer(g, x as int) == Some(idx)) && !(target_layer(g, x as int) == Some(idx))));
            }
        }
        idx += 1;
    }
    spans.push(0);
    spans
}

/// The moves of `offset_assigned_cut` stay within `i32`: for an assigned
/// cut, its offset and every index it moves fit; an unassigned cut moves
/// nothing.
pub open spec fn offset_in_range(cuts: Seq<CutState>, cut: int) -> bool {
    cuts[cut].assigned ==> {
        let offset = cuts[cut].new_index - cuts[cut].index;
        &&& i32::MIN <= offset <= i32::MAX
        &&& forall|k: int|
            0 <= k < cuts.len() && #[trigger] moved_with(cuts, cut, k) ==> i32::MIN <= cuts[k].index
                + offset <= i32::MAX
    }
}

/// Whether moving the given cut keeps every index within `i32`.
pub fn offset_fits(cuts: &Vec<CutState>, cut: usize) -> (res: bool)
    requires
        cuts_linked(cuts@),
        cut < cuts@.len(),
    ensures
        res == offset_in_range(cuts@, cut as int),
{
    let ghost c0 = cuts@;
    if !cuts[cut].assigned {
        return true;
    }
    let diff: i64 = cuts[cut].new_index as i64 - cuts[cut].index as i64;
    if diff < i32::MIN as i64 || diff > i32::MAX as i64 {
        return false;
    }
    proof {
        lemma_prev_run(c0, cut as int, 0);
        lemma_suc_run(c0, cut as int, 0);
    }
    let v: i64 = cuts[cut].index as i64 + diff;
    if v < i32::MIN as i64 || v > i32::MAX as i64 {
        return false;
    }
    let mut cur = cut;
    let mut going = true;
    while going
        invariant
            cuts@ == c0,
            cuts_linked(c0),
            cut < c0.len(),
            c0[cut as int].assigned,
            diff == c0[cut as int].new_index - c0[cut as int].index,
            i32::MIN <= c0[cut as int].index + diff <= i32::MAX,
            cur < c0.len(),
            cur == cut || prev_run(c0, cut as int).contains(cur as int),
            !going ==> prev_run(c0, cur as int) == Set::<int>::empty(),
            forall|k: int| #[trigger] prev_run(c0, cut as int).contains(k) && !prev_run(c0, cur as int).contains(k)
                ==> i32::MIN <= c0[k].index + diff <= i32::MAX,
        decreases cur + if going {
            1int
        } else {
            0int
        },
    {
        proof {
            lemma_prev_run(c0, cut as int, cur as int);
            lemma_prev_run(c0, cur as int, 0);
        }
        assert(cuts_linked(c0) && 0 <= cur < c0.len());
        match cuts[cur].prev {
            Some(p) => {
                if cuts[p].assigned {
                    going = false;
                } else {
                    assert(prev_run(c0, cur as int) == prev_run(c0, p as int).insert(p as int));
                    proof {
                        lemma_prev_run(c0, p as int, 0);
                    }
                    let w: i64 = cuts[p].index as i64 + diff;
                    if w < i32::MIN as i64 || w > i32::MAX as i64 {
                        assert(moved_with(c0, cut as int, p as int));
                        return false;
                    }
                    cur = p;
                }
            },
            None => {
                going = false;
            },
        }
    }
    cur = cut;
    going = true;
    while going
        invariant
            cuts@ == c0,
            cuts_linked(c0),
            cut < c0.len(),
            c0[cut as int].assigned,
            diff == c0[cut as int].new_index - c0[cut as int].index,
            i32::MIN <= c0[cut as int].index + diff <= i32::MAX,
            forall|k: int| #[trigger] prev_run(c0, cut as int).contains(k) ==> i32::MIN <= c0[k].index + diff <= i32::MAX,
            cur < c0.len(),
            cur == cut || suc_run(c0, cut as int).contains(cur as int),
            !going ==> suc_run(c0, cur as int) == Set::<int>::empty(),
            forall|k: int| #[trigger] suc_run(c0, cut as int).contains(k) && !suc_run(c0, cur as int).contains(k)
                ==> i32::MIN <= c0[k].index + diff <= i32::MAX,
        decreases c0.len() - cur + if going {
            1int
        } else {
            0int
        },
    {
        proof {
            lemma_suc_run(c0, cut as int, cur as int);
            lemma_suc_run(c0, cur as int, 0);
        }
        assert(cuts_linked(c0) && 0 <= cur < c0.len());
        match cuts[cur].suc {
            Some(p) => {
                if cuts[p].assigned {
                    going = false;
                } else {
                    assert(suc_run(c0, cur as int) == suc_run(c0, p as int).insert(p as int));
                    proof {
                        lemma_suc_run(c0, p as int, 0);
                    }
                    let w: i64 = cuts[p].index as i64 + diff;
                    if w < i32::MIN as i64 || w > i32::MAX as i64 {
                        assert(moved_with(c0, cut as int, p as int));
                        return false;
                    }
                    cur = p;
                }
            },
            None => {
                going = false;
            },
        }
    }
    true
}


/// The edges leaving (`forwards`) or entering the node, port by port.
pub open spec fn node_edges_of(g: &LGraph, n: usize, forwards: bool) -> Seq<usize> {
    port_edges(g, g.nodes@[n as int].ports@, forwards)
}

/// A list of distinct edges of the graph.
pub open spec fn edge_list_ok(g: &LGraph, s: Seq<usize>) -> bool {
    &&& s.no_duplicates()
    &&& forall|i: int| 0 <= i < s.len() ==> #[trigger] s[i] < g.edges@.len()
}

/// The list with the edge appended, unless it holds it already.
pub open spec fn with_edge(s: Seq<usize>, e: usize) -> Seq<usize> {
    if s.contains(e) {
        s
    } else {
        s.push(e)
    }
}

/// The list without the edge.
pub open spec fn without_edge(s: Seq<usize>, e: usize) -> Seq<usize> {
    if s.contains(e) {
        s.remove(s.index_of(e))
    } else {
        s
    }
}

/// The list after each of the edges was appended in turn, unless held.
pub open spec fn add_edges(s: Seq<usize>, es: Seq<usize>) -> Seq<usize>
    decreases es.len(),
{
    if es.len() == 0 {
        s
    } else {
        with_edge(add_edges(s, es.drop_last()), es.last())
    }
}

/// The list after each of the edges was taken out in turn.
pub open spec fn drop_edges(s: Seq<usize>, es: Seq<usize>) -> Seq<usize>
    decreases es.len(),
{
    if es.len() == 0 {
        s
    } else {
        without_edge(drop_edges(s, es.drop_last()), es.last())
    }
}

/// The open edges after passing the nodes in turn: the edges leaving a
/// node join the list, then those entering it leave.
pub open spec fn pass_nodes(g: &LGraph, s: Seq<usize>, nodes: Seq<usize>) -> Seq<usize>
    decreases nodes.len(),
{
    if nodes.len() == 0 {
        s
    } else {
        let t = pass_nodes(g, s, nodes.drop_last());
        drop_edges(add_edges(t, node_edges_of(g, nodes.last(), true)), node_edges_of(g, nodes.last(), false))
    }
}

/// The edges at a list of ports are edges of the graph.
pub proof fn lemma_port_edges_valid(g: &LGraph, ports: Seq<usize>, forwards: bool)
    ensures
        forall|i: int| 0 <= i < port_edges(g, ports, forwards).len() ==> #[trigger] port_edges(
            g,
            ports,
            forwards,
        )[i] < g.edges@.len(),
    decreases ports.len(),
{
    if ports.len() > 0 {
        lemma_port_edges_valid(g, ports.drop_last(), forwards);
        let a = port_edges(g, ports.drop_last(), forwards);
        let b = if forwards {
            g.outgoing_of(ports.last() as int)
        } else {
            g.incoming_of(ports.last() as int)
        };
        crate::edge_and_layer_constraint_edge_reverser::lemma_port_edges(g, ports.last());
        assert forall|i: int| 0 <= i < (a + b).len() implies #[trigger] (a + b)[i] < g.edges@.len() by {
            if i >= a.len() {
                assert(b.contains(b[i - a.len()]));
            }
        }
    }
}

/// A list of distinct edges holds no more than all edges.
pub proof fn lemma_edge_list_len(g: &LGraph, s: Seq<usize>)
    requires
        edge_list_ok(g, s),
    ensures
        s.len() <= g.edges@.len(),
{
    s.unique_seq_to_set();
    assert(g.edges.len() == g.edges@.len());
    let all = Set::<usize>::range(0, g.edges@.len() as usize);
    <usize as vstd::set_lib::FiniteRange>::range_properties(0, g.edges@.len() as usize);
    assert forall|x: usize| s.to_set().contains(x) implies all.contains(x) by {
        assert(s.contains(x));
        let i = choose|i: int| 0 <= i < s.len() && s[i] == x;
        assert(x < g.edges@.len());
    }
    vstd::set_lib::lemma_len_subset(s.to_set(), all);
}

/// The edges leaving (`forwards`) or entering the node, port by port.
pub fn node_edges(g: &LGraph, n: usize, forwards: bool) -> (res: Vec<usize>)
    requires
        g.wf(),
        n < g.nodes@.len(),
    ensures
        res@ == node_edges_of(g, n, forwards),
        forall|i: int| 0 <= i < res@.len() ==> #[trigger] res@[i] < g.edges@.len(),
{
    let ghost ports = g.nodes@[n as int].ports@;
    let mut res: Vec<usize> = Vec::new();
    let mut j: usize = 0;
    while j < g.nodes[n].ports.len()
        invariant
            g.wf(),
            n < g.nodes@.len(),
            ports == g.nodes@[n as int].ports@,
            j <= ports.len(),
            res@ == port_edges(g, ports.take(j as int), forwards),
        decreases ports.len() - j,
    {
        let p = g.nodes[n].ports[j];
        let list = if forwards {
            g.outgoing_edges(p)
        } else {
            g.incoming_edges(p)
        };
        let ghost before = res@;
        let mut k: usize = 0;
        while k < list.len()
            invariant
                k <= list@.len(),
                res@ == before + list@.take(k as int),
            decreases list@.len() - k,
        {
            res.push(list[k]);
            assert(list@.take(k as int + 1) == list@.take(k as int).push(list@[k as int]));
            k += 1;
        }
        assert(list@.take(list@.len() as int) == list@);
        assert(ports.take(j as int + 1).drop_last() == ports.take(j as int));
        j += 1;
    }
    assert(ports.take(ports.len() as int) == ports);
    proof {
        lemma_port_edges_valid(g, ports, forwards);
    }
    res
}

/// Appends the edge unless the list holds it.
pub fn add_edge_once(list: &mut Vec<usize>, e: usize)
    ensures
        final(list)@ == with_edge(old(list)@, e),
{
    if !contains_edge(list, e) {
        list.push(e);
    }
}

/// Takes the edge out of a list without duplicates.
pub fn drop_edge(list: &mut Vec<usize>, e: usize)
    requires
        old(list)@.no_duplicates(),
    ensures
        final(list)@ == without_edge(old(list)@, e),
        final(list)@.no_duplicates(),
        forall|x: usize| #[trigger] final(list)@.contains(x) <==> (old(list)@.contains(x) && x != e),
{
    let ghost l0 = list@;
    remove_edge(list, e);
    proof {
        if l0.contains(e) {
            let i = choose|i: int|
                0 <= i < l0.len() && l0[i] == e && (forall|j: int| 0 <= j < i ==> l0[j] != e) && list@ == l0.remove(i);
            lemma_index_of_unique(l0, i);
            lemma_remove_unique(l0, i);
        } else {
            assert forall|x: usize| #[trigger] list@.contains(x) <==> (l0.contains(x) && x != e) by {}
        }
    }
}

/// Passes the nodes of layer `l` in turn: the edges leaving a node join the
/// open list, then those entering it leave.
pub fn pass_layer(g: &LGraph, open: &mut Vec<usize>, l: usize)
    requires
        g.wf(),
        l < g.layers@.len(),
        edge_list_ok(g, old(open)@),
    ensures
        final(open)@ == pass_nodes(g, old(open)@, g.layers@[l as int]@),
        edge_list_ok(g, final(open)@),
{
    let ghost o0 = open@;
    let ghost layer = g.layers@[l as int]@;
    let mut i: usize = 0;
    while i < g.layers[l].len()
        invariant
            g.wf(),
            l < g.layers@.len(),
            layer == g.layers@[l as int]@,
            i <= layer.len(),
            open@ == pass_nodes(g, o0, layer.take(i as int)),
            edge_list_ok(g, open@),
        decreases layer.len() - i,
    {
        let n = g.layers[l][i];
        let ghost t = open@;
        let outs = node_edges(g, n, true);
        let mut k: usize = 0;
        while k < outs.len()
            invariant
                k <= outs@.len(),
                forall|x: int| 0 <= x < outs@.len() ==> #[trigger] outs@[x] < g.edges@.len(),
                open@ == add_edges(t, outs@.take(k as int)),
                edge_list_ok(g, open@),
            decreases outs@.len() - k,
        {
            let ghost before = open@;
            add_edge_once(open, outs[k]);
            assert(outs@.take(k as int + 1).drop_last() == outs@.take(k as int));
            proof {
                if !before.contains(outs@[k as int]) {
                    assert forall|a: int, b: int| 0 <= a < open@.len() && 0 <= b < open@.len() && a != b implies open@[a] != open@[b] by {
                        if a == before.len() {
                            assert(before.contains(open@[b]));
                        } else if b == before.len() {
                            assert(before.contains(open@[a]));
                        }
                    }
                }
            }
            k += 1;
        }
        assert(outs@.take(outs@.len() as int) == outs@);
        let ghost t2 = open@;
        let ins = node_edges(g, n, false);
        let mut k: usize = 0;
        while k < ins.len()
            invariant
                k <= ins@.len(),
                open@ == drop_edges(t2, ins@.take(k as int)),
                edge_list_ok(g, open@),
            decreases ins@.len() - k,
        {
            let ghost before = open@;
            drop_edge(open, ins[k]);
            assert(ins@.take(k as int + 1).drop_last() == ins@.take(k as int));
            proof {
                assert forall|x: int| 0 <= x < open@.len() implies #[trigger] open@[x] < g.edges@.len() by {
                    assert(open@.contains(open@[x]));
                    assert(before.contains(open@[x]));
                }
            }
            k += 1;
        }
        assert(ins@.take(ins@.len() as int) == ins@);
        assert(layer.take(i as int + 1).drop_last() == layer.take(i as int));
        i += 1;
    }
    assert(layer.take(layer.len() as int) == layer);
}


/// Every breaking point record that a node names is in the list.
pub open spec fn records_ok(g: &LGraph, infos: Seq<BreakingPointInfo>) -> bool {
    forall|n: int|
        0 <= n < g.nodes@.len() ==> (#[trigger] g.nodes@[n].breaking_point_info matches Some(i) ==> i
            < infos.len())
}

/// A fresh breaking point marker: a breaking point node with fixed port
/// sides, the two given ports, the given layer and record, and nothing else
/// set.
pub open spec fn fresh_marker(n: LNode, in_port: int, out_port: int, layer: int, info: int) -> bool {
    &&& n.node_type == NodeType::BreakingPoint
    &&& n.ports@ == seq![in_port as usize, out_port as usize]
    &&& n.layer == Some(layer as usize)
    &&& n.port_constraints == Some(PortConstraints::FixedSide)
    &&& n.breaking_point_info == Some(info as usize)
    &&& n.id == 0
    &&& n.layer_constraint is None
    &&& n.in_layer_constraint is None
    &&& n.edge_constraint is None
    &&& n.origin == Origin::Unset
    &&& n.in_layer_layout_unit is None
    &&& n.in_layer_successor_constraints@.len() == 0
    &&& n.ext_port_side is None
    &&& n.layer_id is None
    &&& n.position_id is None
    &&& n.long_edge_source is None
    &&& n.long_edge_target is None
    &&& n.long_edge_has_label_dummies is None
    &&& n.long_edge_before_label_dummy is None
    &&& n.layer_split is None
    &&& n.reset_on_long_edges is None
    &&& n.minimize_edge_length is None
    &&& n.comment_box is None
    &&& n.comment_conn_port is None
    &&& n.alignment is None
    &&& n.label_placement is None
    &&& n.ext_port_replaced_dummy is None
    &&& n.represented_labels is None
}

/// A fresh port of the node on the given side.
pub open spec fn fresh_port(p: LPort, node: int, side: PortSide) -> bool {
    &&& p.node == Some(node as usize)
    &&& p.side == side
    &&& p.connected_to_external_nodes
    &&& p.port_dummy is None
    &&& p.origin == Origin::Unset
    &&& p.port_index is None
}

/// The record of the node at the port when that node is a breaking point.
pub open spec fn prev_record(g: &LGraph, port: int) -> Option<usize> {
    match g.ports@[port].node {
        Some(n) => if g.nodes@[n as int].node_type == NodeType::BreakingPoint {
            g.nodes@[n as int].breaking_point_info
        } else {
            None
        },
        None => None,
    }
}

/// `b` with records `ib` is `a` with records `ia` after edge `e` was led
/// through a new start marker at the end of layer `l1` and a new end marker
/// at the end of layer `l2`: the markers, their west (in) and east (out)
/// ports, an edge from the edge's source to the start marker and one from
/// the start to the end marker are appended; the edge now leaves the end
/// marker; a new record names the markers and edges, and when the edge came
/// from a breaking point, the new record and that breaking point's record
/// point to each other.
pub open spec fn edge_split(
    a: &LGraph,
    ia: Seq<BreakingPointInfo>,
    b: &LGraph,
    ib: Seq<BreakingPointInfo>,
    e: int,
    l1: int,
    l2: int,
) -> bool {
    let n0 = a.nodes@.len() as int;
    let p0 = a.ports@.len() as int;
    let e0 = a.edges@.len() as int;
    let i0 = ia.len() as int;
    let prev = prev_record(a, a.edges@[e].source as int);
    &&& b.nodes@.len() == n0 + 2
    &&& forall|n: int| 0 <= n < n0 ==> #[trigger] b.nodes@[n] == a.nodes@[n]
    &&& fresh_marker(b.nodes@[n0], p0, p0 + 1, l1, i0)
    &&& fresh_marker(b.nodes@[n0 + 1], p0 + 2, p0 + 3, l2, i0)
    &&& b.ports@.len() == p0 + 4
    &&& forall|p: int| 0 <= p < p0 ==> #[trigger] b.ports@[p] == a.ports@[p]
    &&& fresh_port(b.ports@[p0], n0, PortSide::West)
    &&& fresh_port(b.ports@[p0 + 1], n0, PortSide::East)
    &&& fresh_port(b.ports@[p0 + 2], n0 + 1, PortSide::West)
    &&& fresh_port(b.ports@[p0 + 3], n0 + 1, PortSide::East)
    &&& b.edges@.len() == e0 + 2
    &&& forall|x: int| 0 <= x < e0 && x != e ==> #[trigger] b.edges@[x] == a.edges@[x]
    &&& b.edges@[e].source == (p0 + 3) as usize
    &&& b.edges@[e].target == a.edges@[e].target
    &&& b.edges@[e].reversed == a.edges@[e].reversed
    &&& b.edges@[e0] == LEdge { source: a.edges@[e].source, target: p0 as usize, reversed: false }
    &&& b.edges@[e0 + 1] == LEdge {
        source: (p0 + 1) as usize,
        target: (p0 + 2) as usize,
        reversed: false,
    }
    &&& b.layers@.len() == a.layers@.len()
    &&& forall|l: int|
        0 <= l < a.layers@.len() ==> #[trigger] b.layers@[l]@ == if l == l1 {
            a.layers@[l]@.push(n0 as usize)
        } else if l == l2 {
            a.layers@[l]@.push((n0 + 1) as usize)
        } else {
            a.layers@[l]@
        }
    &&& b.layerless_nodes == a.layerless_nodes
    &&& ib.len() == i0 + 1
    &&& ib[i0] == BreakingPointInfo {
        start: n0 as usize,
        end: (n0 + 1) as usize,
        node_start_edge: e0 as usize,
        start_end_edge: (e0 + 1) as usize,
        original_edge: e as usize,
        start_in_layer_dummy: None,
        start_in_layer_edge: None,
        end_in_layer_dummy: None,
        end_in_layer_edge: None,
        prev: prev,
        next: None,
    }
    &&& forall|i: int|
        0 <= i < i0 ==> #[trigger] ib[i] == if prev == Some(i as usize) {
            BreakingPointInfo { next: Some(i0 as usize), ..ia[i] }
        } else {
            ia[i]
        }
}

/// Leads edge `e` through a new start marker appended to layer `l1` and a
/// new end marker appended to layer `l2` (see `edge_split`).
pub fn split_edge(g: &mut LGraph, infos: &mut Vec<BreakingPointInfo>, e: usize, l1: usize, l2: usize)
    requires
        old(g).wf(),
        old(g).layers_listed(),
        records_ok(old(g), old(infos)@),
        e < old(g).edges@.len(),
        l1 < old(g).layers@.len(),
        l2 < old(g).layers@.len(),
        l1 != l2,
        old(g).nodes@.len() + 2 <= usize::MAX,
        old(g).ports@.len() + 4 <= usize::MAX,
        (old(g).edges@.len() + 2) * 2 <= usize::MAX,
    ensures
        final(g).wf(),
        final(g).layers_listed(),
        records_ok(final(g), final(infos)@),
        edge_split(old(g), old(infos)@, final(g), final(infos)@, e as int, l1 as int, l2 as int),
{
    let ghost g0 = *g;
    let ghost i0s = infos@;
    let n0 = g.nodes.len();
    let p0 = g.ports.len();
    let e0 = g.edges.len();
    let i0 = infos.len();
    let src = g.edges[e].source;
    assert(src < g.ports@.len());
    let prev: Option<usize> = match g.ports[src].node {
        Some(pn) => {
            assert(pn < g.nodes@.len());
            if g.nodes[pn].node_type == NodeType::BreakingPoint {
                g.nodes[pn].breaking_point_info
            } else {
                None
            }
        },
        None => None,
    };
    assert(prev == prev_record(&g0, src as int));
    let mut ip1 = LPort::new();
    ip1.node = Some(n0);
    ip1.side = PortSide::West;
    g.ports.push(ip1);
    let mut op1 = LPort::new();
    op1.node = Some(n0);
    op1.side = PortSide::East;
    g.ports.push(op1);
    let mut ip2 = LPort::new();
    ip2.node = Some(n0 + 1);
    ip2.side = PortSide::West;
    g.ports.push(ip2);
    let mut op2 = LPort::new();
    op2.node = Some(n0 + 1);
    op2.side = PortSide::East;
    g.ports.push(op2);
    let mut start = LNode::new(NodeType::BreakingPoint);
    start.port_constraints = Some(PortConstraints::FixedSide);
    start.layer = Some(l1);
    start.ports = vec![p0, p0 + 1];
    start.breaking_point_info = Some(i0);
    g.nodes.push(start);
    let mut end = LNode::new(NodeType::BreakingPoint);
    end.port_constraints = Some(PortConstraints::FixedSide);
    end.layer = Some(l2);
    end.ports = vec![p0 + 2, p0 + 3];
    end.breaking_point_info = Some(i0);
    g.nodes.push(end);
    let mut list1 = take_layer(g, l1);
    list1.push(n0);
    g.layers[l1] = list1;
    let mut list2 = take_layer(g, l2);
    list2.push(n0 + 1);
    g.layers[l2] = list2;
    g.edges.push(LEdge { source: src, target: p0, reversed: false });
    g.edges.push(LEdge { source: p0 + 1, target: p0 + 2, reversed: false });
    g.edges[e].source = p0 + 3;
    let mut info = BreakingPointInfo::new(n0, n0 + 1, e0, e0 + 1, e);
    info.prev = prev;
    infos.push(info);
    match prev {
        Some(pi) => {
            assert(pi < i0);
            infos[pi].next = Some(i0);
        },
        None => {},
    }
    proof {
        let n0i = n0 as int;
        let p0i = p0 as int;
        assert(g.nodes@[n0i].ports@ == seq![p0, (p0 + 1) as usize]);
        assert(g.nodes@[n0i + 1].ports@ == seq![(p0 + 2) as usize, (p0 + 3) as usize]);
        assert forall|x: int| 0 <= x < g.edges@.len() implies #[trigger] g.edges@[x].source < g.ports@.len()
            && g.edges@[x].target < g.ports@.len() by {
            if x < e0 && x != e {
                assert(g.edges@[x] == g0.edges@[x]);
            } else if x == e {
                assert(g0.edges@[x].target < g0.ports@.len());
            }
        }
        assert forall|p: int| 0 <= p < g.ports@.len() implies (#[trigger] g.ports@[p].node matches Some(n) ==> n
            < g.nodes@.len()) by {
            if p < p0 {
                assert(g.ports@[p] == g0.ports@[p]);
            }
        }
        assert forall|n: int, i: int| 0 <= n < g.nodes@.len() && 0 <= i < g.nodes@[n].ports@.len() implies {
            &&& #[trigger] g.nodes@[n].ports@[i] < g.ports@.len()
            &&& g.ports@[g.nodes@[n].ports@[i] as int].node == Some(n as usize)
        } by {
            if n < n0 {
                assert(g.nodes@[n] == g0.nodes@[n]);
                assert(g0.nodes@[n].ports@[i] < g0.ports@.len());
                assert(g.ports@[g0.nodes@[n].ports@[i] as int] == g0.ports@[g0.nodes@[n].ports@[i] as int]);
            }
        }
        assert forall|l: int, i: int| 0 <= l < g.layers@.len() && 0 <= i < g.layers@[l]@.len() implies {
            &&& #[trigger] g.layers@[l]@[i] < g.nodes@.len()
            &&& g.nodes@[g.layers@[l]@[i] as int].layer == Some(l as usize)
        } by {
            if (l == l1 || l == l2) && i == g0.layers@[l]@.len() {
            } else {
                assert(g.layers@[l]@[i] == g0.layers@[l]@[i]);
                assert(g0.layers@[l]@[i] < g0.nodes@.len());
                assert(g.nodes@[g0.layers@[l]@[i] as int] == g0.nodes@[g0.layers@[l]@[i] as int]);
            }
        }
        assert forall|l: int| 0 <= l < g.layers@.len() implies #[trigger] g.layers@[l]@.no_duplicates() by {
            assert(g0.layers@[l]@.no_duplicates());
            if l == l1 || l == l2 {
                let x = g.layers@[l]@.last();
                assert forall|i: int| 0 <= i < g0.layers@[l]@.len() implies g0.layers@[l]@[i] != x by {
                    assert(g0.layers@[l]@[i] < g0.nodes@.len());
                }
            }
        }
        assert forall|l: int| 0 <= l < g.layerless_nodes@.len() implies #[trigger] g.layerless_nodes@[l]
            < g.nodes@.len() by {
            assert(g0.layerless_nodes@[l] < g0.nodes@.len());
        }
        assert forall|n: int| 0 <= n < g.nodes@.len() implies (#[trigger] g.nodes@[n].layer matches Some(l) ==> (l
            < g.layers@.len() && g.layers@[l as int]@.contains(n as usize))) by {
            if n < n0 {
                assert(g.nodes@[n] == g0.nodes@[n]);
                if let Some(l) = g0.nodes@[n].layer {
                    assert(g0.layers@[l as int]@.contains(n as usize));
                    let i = choose|i: int| 0 <= i < g0.layers@[l as int]@.len() && g0.layers@[l as int]@[i] == n as usize;
                    assert(g.layers@[l as int]@[i] == n as usize);
                }
            } else if n == n0 {
                assert(g.layers@[l1 as int]@[g0.layers@[l1 as int]@.len() as int] == n as usize);
            } else {
                assert(g.layers@[l2 as int]@[g0.layers@[l2 as int]@.len() as int] == n as usize);
            }
        }
        assert forall|n: int| 0 <= n < g.nodes@.len() implies (#[trigger] g.nodes@[n].breaking_point_info matches Some(i) ==> i
            < infos@.len()) by {
            if n < n0 {
                assert(g.nodes@[n] == g0.nodes@[n]);
            }
        }
        assert forall|i: int| 0 <= i < i0 implies #[trigger] infos@[i] == if prev == Some(i as usize) {
            BreakingPointInfo { next: Some(i0 as usize), ..i0s[i] }
        } else {
            i0s[i]
        } by {}
    }
}


/// `b` is `a` with two empty layers inserted behind layer `idx`; the nodes
/// of the later layers record their layer two higher.
pub open spec fn bp_layers_inserted(a: &LGraph, b: &LGraph, idx: int) -> bool {
    &&& b.ports == a.ports
    &&& b.edges == a.edges
    &&& b.layerless_nodes == a.layerless_nodes
    &&& layer_views(b) == layer_views(a).insert(idx + 1, Seq::<usize>::empty()).insert(
        idx + 2,
        Seq::<usize>::empty(),
    )
    &&& b.nodes@.len() == a.nodes@.len()
    &&& forall|n: int|
        0 <= n < a.nodes@.len() ==> same_but_layer(#[trigger] b.nodes@[n], a.nodes@[n]) && b.nodes@[n].layer
            == layer_after_insert(layer_after_insert(a.nodes@[n].layer, idx + 1), idx + 2)
}

/// The graphs and records of a cut behind layer `idx`: the chain starts
/// with `a` after two layers were inserted behind `idx`, and each next
/// entry is the one before with the next open edge split into the two new
/// layers.
pub open spec fn cut_chain(
    a: &LGraph,
    ia: Seq<BreakingPointInfo>,
    chain: Seq<(LGraph, Seq<BreakingPointInfo>)>,
    idx: int,
    open: Seq<usize>,
) -> bool {
    &&& chain.len() == open.len() + 1
    &&& bp_layers_inserted(a, &chain[0].0, idx)
    &&& chain[0].1 == ia
    &&& forall|j: int|
        0 <= j < open.len() ==> #[trigger] edge_split(
            &chain[j].0,
            chain[j].1,
            &chain[j + 1].0,
            chain[j + 1].1,
            open[j] as int,
            idx + 1,
            idx + 2,
        )
}

/// `b` with records `ib` is `a` with records `ia` after a cut behind layer
/// `idx` that split the open edges in turn.
pub open spec fn cut_made(
    a: &LGraph,
    ia: Seq<BreakingPointInfo>,
    b: &LGraph,
    ib: Seq<BreakingPointInfo>,
    idx: int,
    open: Seq<usize>,
) -> bool {
    exists|chain: Seq<(LGraph, Seq<BreakingPointInfo>)>|
        #[trigger] cut_chain(a, ia, chain, idx, open) && chain.last() == (*b, ib)
}

/// Cuts behind layer `idx`: inserts the two breaking point layers and leads
/// each open edge, in turn, through a new pair of markers; each edge that
/// was not split before joins the list of split edges.
fn cut_after(
    g: &mut LGraph,
    infos: &mut Vec<BreakingPointInfo>,
    idx: usize,
    open: &Vec<usize>,
    already: &mut Vec<usize>,
)
    requires
        old(g).wf(),
        old(g).layers_listed(),
        records_ok(old(g), old(infos)@),
        idx < old(g).layers@.len(),
        old(g).layers@.len() + 2 < usize::MAX,
        edge_list_ok(old(g), open@),
        edge_list_ok(old(g), old(already)@),
        old(g).nodes@.len() + 2 * open@.len() <= usize::MAX,
        old(g).ports@.len() + 4 * open@.len() <= usize::MAX,
        (old(g).edges@.len() + 2 * open@.len()) * 2 <= usize::MAX,
    ensures
        final(g).wf(),
        final(g).layers_listed(),
        records_ok(final(g), final(infos)@),
        cut_made(old(g), old(infos)@, final(g), final(infos)@, idx as int, open@),
        final(already)@ == add_edges(old(already)@, open@),
        edge_list_ok(final(g), final(already)@),
        final(g).layers@.len() == old(g).layers@.len() + 2,
        final(g).nodes@.len() == old(g).nodes@.len() + 2 * open@.len(),
        final(g).ports@.len() == old(g).ports@.len() + 4 * open@.len(),
        final(g).edges@.len() == old(g).edges@.len() + 2 * open@.len(),
{
    let ghost g0 = *g;
    let ghost inf0 = infos@;
    let ghost a0 = already@;
    insert_layer(g, idx + 1);
    let ghost g1 = *g;
    insert_layer(g, idx + 2);
    let ghost m0 = *g;
    proof {
        assert forall|n: int| 0 <= n < g0.nodes@.len() implies same_but_layer(#[trigger] g.nodes@[n], g0.nodes@[n])
            && g.nodes@[n].layer == layer_after_insert(layer_after_insert(g0.nodes@[n].layer, idx + 1), idx + 2) by {
            assert(same_but_layer(g1.nodes@[n], g0.nodes@[n]));
        }
        assert(bp_layers_inserted(&g0, g, idx as int));
        assert forall|n: int| 0 <= n < g.nodes@.len() implies (#[trigger] g.nodes@[n].breaking_point_info matches Some(i) ==> i
            < infos@.len()) by {
            assert(same_but_layer(g.nodes@[n], g0.nodes@[n]));
        }
    }
    let ghost mut chain: Seq<(LGraph, Seq<BreakingPointInfo>)> = seq![(*g, infos@)];
    let mut j: usize = 0;
    while j < open.len()
        invariant
            g.wf(),
            g.layers_listed(),
            records_ok(g, infos@),
            idx < g0.layers@.len(),
            g0.layers@.len() + 2 < usize::MAX,
            g.layers@.len() == g0.layers@.len() + 2,
            g.nodes@.len() == g0.nodes@.len() + 2 * j,
            g.ports@.len() == g0.ports@.len() + 4 * j,
            g.edges@.len() == g0.edges@.len() + 2 * j,
            g0.nodes@.len() + 2 * open@.len() <= usize::MAX,
            g0.ports@.len() + 4 * open@.len() <= usize::MAX,
            (g0.edges@.len() + 2 * open@.len()) * 2 <= usize::MAX,
            edge_list_ok(&g0, open@),
            edge_list_ok(&g0, a0),
            j <= open@.len(),
            chain.len() == j + 1,
            chain[0] == (m0, inf0),
            bp_layers_inserted(&g0, &m0, idx as int),
            forall|k: int|
                0 <= k < j ==> #[trigger] edge_split(
                    &chain[k].0,
                    chain[k].1,
                    &chain[k + 1].0,
                    chain[k + 1].1,
                    open@[k] as int,
                    idx + 1,
                    idx + 2,
                ),
            chain[j as int] == (*g, infos@),
            already@ == add_edges(a0, open@.take(j as int)),
            forall|x: int| 0 <= x < already@.len() ==> #[trigger] already@[x] < g0.edges@.len(),
            already@.no_duplicates(),
        decreases open@.len() - j,
    {
        let e = open[j];
        let ghost before = already@;
        add_edge_once(already, e);
        proof {
            assert(open@.take(j as int + 1).drop_last() == open@.take(j as int));
            if !before.contains(e) {
                assert forall|a: int, b: int| 0 <= a < already@.len() && 0 <= b < already@.len() && a != b implies already@[a] != already@[b] by {
                    if a == before.len() {
                        assert(before.contains(already@[b]));
                    } else if b == before.len() {
                        assert(before.contains(already@[a]));
                    }
                }
            }
        }
        let ghost gb = *g;
        let ghost ib = infos@;
        split_edge(g, infos, e, idx + 1, idx + 2);
        proof {
            let old_chain = chain;
            chain = chain.push((*g, infos@));
            assert forall|k: int|
                0 <= k < j + 1 implies #[trigger] edge_split(
                    &chain[k].0,
                    chain[k].1,
                    &chain[k + 1].0,
                    chain[k + 1].1,
                    open@[k] as int,
                    idx + 1,
                    idx + 2,
                ) by {
                if k < j {
                    assert(chain[k] == old_chain[k]);
                    assert(chain[k + 1] == old_chain[k + 1]);
                } else {
                    assert(chain[k] == (gb, ib));
                }
            }
        }
        j += 1;
    }
    assert(open@.take(open@.len() as int) == open@);
    assert(cut_chain(&g0, inf0, chain, idx as int, open@));
}

/// A state of the sweep over the layers: the graph, its breaking point
/// records, the open edges, the edges split so far, the layer index and the
/// index of the next cut.
pub open spec fn sweeping(
    cuts: Seq<i32>,
    s: (LGraph, Seq<BreakingPointInfo>, Seq<usize>, Seq<usize>, int, int),
) -> bool {
    s.4 < s.0.layers@.len() && s.5 < cuts.len()
}

/// One step of the sweep from a sweeping state at layer `s.4`: its nodes
/// are passed in turn (`pass_nodes`); when the next cut lies behind this
/// layer, the cut is made there with the open edges, which join the split
/// edges, and the sweep moves on to the next cut.
pub open spec fn sweep_step(
    cuts: Seq<i32>,
    s: (LGraph, Seq<BreakingPointInfo>, Seq<usize>, Seq<usize>, int, int),
    t: (LGraph, Seq<BreakingPointInfo>, Seq<usize>, Seq<usize>, int, int),
) -> bool {
    let open1 = pass_nodes(&s.0, s.2, s.0.layers@[s.4]@);
    &&& sweeping(cuts, s)
    &&& t.2 == open1
    &&& t.4 == s.4 + 1
    &&& if s.4 + 1 == cuts[s.5] as usize as int {
        &&& cut_made(&s.0, s.1, &t.0, t.1, s.4, open1)
        &&& t.3 == add_edges(s.3, open1)
        &&& t.5 == s.5 + 1
    } else {
        &&& t.0 == s.0
        &&& t.1 == s.1
        &&& t.3 == s.3
        &&& t.5 == s.5
    }
}

/// Each state of the trace but the last steps to the next.
pub open spec fn sweep_steps(
    cuts: Seq<i32>,
    trace: Seq<(LGraph, Seq<BreakingPointInfo>, Seq<usize>, Seq<usize>, int, int)>,
) -> bool {
    forall|i: int| 0 <= i < trace.len() - 1 ==> #[trigger] sweep_step(cuts, trace[i], trace[i + 1])
}

/// A whole sweep: each state but the last steps to the next; the last no
/// longer sweeps (no layer or no cut is left).
pub open spec fn sweep_run(
    cuts: Seq<i32>,
    trace: Seq<(LGraph, Seq<BreakingPointInfo>, Seq<usize>, Seq<usize>, int, int)>,
) -> bool {
    &&& trace.len() >= 1
    &&& sweep_steps(cuts, trace)
    &&& !sweeping(cuts, trace.last())
}

/// How many edges `e` edges may become over `cuts` cuts: each cut at most
/// triples them.
pub open spec fn edge_budget(e: nat, cuts: nat) -> nat
    decreases cuts,
{
    if cuts == 0 {
        e
    } else {
        3 * edge_budget(e, (cuts - 1) as nat)
    }
}

/// The budget grows with the number of cuts.
proof fn lemma_edge_budget_grows(e: nat, c1: nat, c2: nat)
    requires
        c1 <= c2,
    ensures
        e <= edge_budget(e, c1) <= edge_budget(e, c2),
    decreases c2,
{
    if c2 > c1 {
        lemma_edge_budget_grows(e, c1, (c2 - 1) as nat);
    } else if c1 > 0 {
        lemma_edge_budget_grows(e, 0, (c1 - 1) as nat);
    }
}

impl BreakingPointInserter {
    /// Sweeps the layers from the first, passing their nodes to keep the
    /// list of open edges; whenever the next cut lies right behind the
    /// current layer, two breaking point layers are inserted there and each
    /// open edge is led through a new pair of markers in them. Returns the
    /// number of distinct edges that were split.
    pub fn apply_cuts(&self, g: &mut LGraph, infos: &mut Vec<BreakingPointInfo>, cuts: &Vec<i32>) -> (res: i32)
        requires
            old(g).wf(),
            old(g).layers_listed(),
            records_ok(old(g), old(infos)@),
            old(g).layers@.len() + 2 * cuts@.len() + 1 < usize::MAX,
            old(g).nodes@.len() + old(g).ports@.len() + 3 * edge_budget(old(g).edges@.len(), cuts@.len())
                <= i32::MAX,
        ensures
            final(g).wf(),
            final(g).layers_listed(),
            records_ok(final(g), final(infos)@),
            exists|trace: Seq<(LGraph, Seq<BreakingPointInfo>, Seq<usize>, Seq<usize>, int, int)>|
                #[trigger] sweep_run(cuts@, trace) && trace[0] == (
                    *old(g),
                    old(infos)@,
                    Seq::<usize>::empty(),
                    Seq::<usize>::empty(),
                    0int,
                    0int,
                ) && trace.last().0 == *final(g) && trace.last().1 == final(infos)@ && res
                    == trace.last().3.len() && final(g).layers@.len() == old(g).layers@.len() + 2
                    * trace.last().5,
            final(g).nodes@.len() == old(g).nodes@.len() + (final(g).edges@.len() - old(g).edges@.len()),
            final(g).ports@.len() == old(g).ports@.len() + 2 * (final(g).edges@.len() - old(g).edges@.len()),
            final(g).edges@.len() >= old(g).edges@.len(),
    {
        let ghost g0 = *g;
        let ghost inf0 = infos@;
        let ghost e0 = g.edges@.len();
        let mut idx: usize = 0;
        let mut cut_index: usize = 0;
        let mut next_cut: usize = if cuts.len() > 0 {
            #[verifier::truncate]
            (cuts[0] as usize)
        } else {
            0
        };
        let mut open: Vec<usize> = Vec::new();
        let mut already: Vec<usize> = Vec::new();
        let ghost mut trace: Seq<(LGraph, Seq<BreakingPointInfo>, Seq<usize>, Seq<usize>, int, int)> = seq![
            (*g, infos@, open@, already@, 0int, 0int),
        ];
        proof {
            lemma_edge_budget_grows(e0, 0, cuts@.len());
        }
        while idx < g.layers.len() && cut_index < cuts.len()
            invariant
                g.wf(),
                g.layers_listed(),
                records_ok(g, infos@),
                g0.layers@.len() + 2 * cuts@.len() + 1 < usize::MAX,
                g0.nodes@.len() + g0.ports@.len() + 3 * edge_budget(e0, cuts@.len()) <= i32::MAX,
                e0 == g0.edges@.len(),
                cut_index <= cuts@.len(),
                cut_index < cuts@.len() ==> next_cut == cuts@[cut_index as int] as usize,
                g.layers@.len() == g0.layers@.len() + 2 * cut_index,
                e0 <= g.edges@.len() <= edge_budget(e0, cut_index as nat),
                g.nodes@.len() == g0.nodes@.len() + (g.edges@.len() - e0),
                g.ports@.len() == g0.ports@.len() + 2 * (g.edges@.len() - e0),
                edge_list_ok(g, open@),
                edge_list_ok(g, already@),
                trace.len() >= 1,
                trace[0] == (g0, inf0, Seq::<usize>::empty(), Seq::<usize>::empty(), 0int, 0int),
                sweep_steps(cuts@, trace),
                trace.last() == (*g, infos@, open@, already@, idx as int, cut_index as int),
            decreases g.layers@.len() + 2 * (cuts@.len() - cut_index) - idx,
        {
            let ghost s = (*g, infos@, open@, already@, idx as int, cut_index as int);
            assert(sweeping(cuts@, s));
            pass_layer(g, &mut open, idx);
            if idx + 1 == next_cut {
                proof {
                    lemma_edge_list_len(g, open@);
                    lemma_edge_budget_grows(e0, cut_index as nat + 1, cuts@.len());
                    assert(edge_budget(e0, cut_index as nat + 1) == 3 * edge_budget(e0, cut_index as nat));
                }
                let ghost ob = open@;
                cut_after(g, infos, idx, &open, &mut already);
                cut_index += 1;
                if cut_index < cuts.len() {
                    next_cut = #[verifier::truncate]
                    (cuts[cut_index] as usize);
                }
                proof {
                    assert(forall|x: int| 0 <= x < open@.len() ==> #[trigger] open@[x] < g.edges@.len());
                }
            }
            idx += 1;
            proof {
                let old_trace = trace;
                let new_state = (*g, infos@, open@, already@, idx as int, cut_index as int);
                assert(old_trace[old_trace.len() - 1] == s);
                assert(sweep_step(cuts@, s, new_state));
                trace = trace.push(new_state);
                assert(trace[old_trace.len() - 1] == s);
                assert(trace[old_trace.len() as int] == new_state);
                assert(sweep_steps(cuts@, old_trace));
                assert forall|i: int| 0 <= i < trace.len() - 1 implies #[trigger] sweep_step(
                    cuts@,
                    trace[i],
                    trace[i + 1],
                ) by {
                    if i < old_trace.len() - 1 {
                        assert(trace[i] == old_trace[i]);
                        assert(trace[i + 1] == old_trace[i + 1]);
                        assert(sweep_step(cuts@, old_trace[i], old_trace[i + 1]));
                    } else {
                        assert(trace[i] == s);
                        assert(trace[i + 1] == new_state);
                    }
                }
                assert(sweep_steps(cuts@, trace));
            }
        }
        proof {
            lemma_edge_list_len(g, already@);
            lemma_edge_budget_grows(e0, cut_index as nat, cuts@.len());
            assert(!(idx < g.layers@.len() && cut_index < cuts@.len()));
            assert(trace.last().4 == idx && trace.last().5 == cut_index && trace.last().0 == *g);
            assert(!sweeping(cuts@, trace.last()));
            assert(sweep_run(cuts@, trace));
        }
        already.len() as i32
    }
}

} // verus!

//! The breaking point remover, its graph work: once the wrapped drawing was
//! routed, each chain of breaking points gives its edge back. The original
//! edge leaves from where the first helper edge left, the two helper edges
//! are detached, and both breaking point dummies leave their layers; then the
//! same happens for the breaking point before. Joining the bend points and
//! spline routes of the three edges is left to the caller.
use vstd::prelude::*;

use crate::breaking_point_info::BreakingPointInfo;
use crate::breaking_point_inserter::records_ok;
use crate::breaking_point_processor::{is_end, spec_is_end};
use crate::graph::{LEdge, LGraph, LPort, copy_list};
use crate::hierarchical_port_orthogonal_edge_router::{loose_port, unlayered, unset_layer};

verus! {

/// Removes the breaking points once the edges were routed.
pub struct BreakingPointRemover;

/// The records fit the graph: every record a node names is in the list, the
/// markers of each record are nodes and its edges are edges of the graph,
/// and the record before it comes earlier in the list.
pub open spec fn remover_records_ok(g: &LGraph, infos: Seq<BreakingPointInfo>) -> bool {
    &&& records_ok(g, infos)
    &&& forall|i: int|
        0 <= i < infos.len() ==> {
            &&& #[trigger] infos[i].start < g.nodes@.len()
            &&& infos[i].end < g.nodes@.len()
            &&& infos[i].node_start_edge < g.edges@.len()
            &&& infos[i].start_end_edge < g.edges@.len()
            &&& infos[i].original_edge < g.edges@.len()
            &&& (infos[i].prev matches Some(j) ==> j < i)
        }
}

/// Edge `e` of `a` once record `r` gave its edge back: the two helper
/// edges are detached at the loose port `lp`, and the original edge leaves
/// from the source of the edge into the start marker.
pub open spec fn joined_edge(a: &LGraph, e: int, r: BreakingPointInfo, lp: usize) -> LEdge {
    let x = a.edges@[e];
    if e == r.start_end_edge || e == r.node_start_edge {
        LEdge { source: lp, target: lp, reversed: x.reversed }
    } else if e == r.original_edge {
        LEdge { source: a.edges@[r.node_start_edge as int].source, target: x.target, reversed: x.reversed }
    } else {
        x
    }
}

/// `m` is `a` with the edges of record `r` joined (see `joined_edge`) and
/// one loose port appended.
pub open spec fn edges_joined(a: &LGraph, m: &LGraph, r: BreakingPointInfo) -> bool {
    &&& m.ports@.len() == a.ports@.len() + 1
    &&& forall|p: int| 0 <= p < a.ports@.len() ==> #[trigger] m.ports@[p] == a.ports@[p]
    &&& loose_port(m.ports@[a.ports@.len() as int])
    &&& m.edges@.len() == a.edges@.len()
    &&& forall|e: int| 0 <= e < a.edges@.len() ==> #[trigger] m.edges@[e] == joined_edge(a, e, r, a.ports@.len() as usize)
    &&& m.nodes == a.nodes
    &&& m.layers == a.layers
    &&& m.layerless_nodes == a.layerless_nodes
}

/// `b` is `a` after record `r` was removed: its edges were joined (giving
/// `m1`), its end marker left its layer (giving `m2`), then its start
/// marker.
pub open spec fn record_removed(a: &LGraph, b: &LGraph, r: BreakingPointInfo, m1: LGraph, m2: LGraph) -> bool {
    &&& edges_joined(a, &m1, r)
    &&& unlayered(&m1, &m2, r.end)
    &&& unlayered(&m2, b, r.start)
}

/// Record `i` and, in turn, each record before it.
pub open spec fn prev_records(infos: Seq<BreakingPointInfo>, i: int) -> Seq<usize>
    decreases i,
{
    if 0 <= i < infos.len() {
        match infos[i].prev {
            Some(j) => if j < i {
                seq![i as usize] + prev_records(infos, j as int)
            } else {
                seq![i as usize]
            },
            None => seq![i as usize],
        }
    } else {
        Seq::empty()
    }
}

/// `b` is `a` after record `r` was removed, by way of some `m1` and `m2`.
pub open spec fn record_gone(a: &LGraph, b: &LGraph, r: BreakingPointInfo) -> bool {
    exists|m1: LGraph, m2: LGraph| #[trigger] record_removed(a, b, r, m1, m2)
}

/// The graphs after each record of the list in turn was removed.
pub open spec fn removal_chain(chain: Seq<LGraph>, infos: Seq<BreakingPointInfo>, recs: Seq<usize>) -> bool {
    &&& chain.len() == recs.len() + 1
    &&& forall|k: int| 0 <= k < recs.len() ==> #[trigger] record_gone(&chain[k], &chain[k + 1], infos[recs[k] as int])
}

/// `b` is `a` after record `i` and then, in turn, each record before it
/// were removed.
pub open spec fn removal_done(a: LGraph, b: LGraph, infos: Seq<BreakingPointInfo>, i: int) -> bool {
    exists|chain: Seq<LGraph>|
        #[trigger] removal_chain(chain, infos, prev_records(infos, i)) && chain[0] == a && chain.last() == b
}

/// `b` is `a` after node `n` was looked at: when it is the end marker of
/// its record and that record has no next one, the record and those before
/// it are removed; otherwise nothing changes.
pub open spec fn end_visited(a: LGraph, b: LGraph, infos: Seq<BreakingPointInfo>, n: usize) -> bool {
    if spec_is_end(&a, infos, n) && infos[a.nodes@[n as int].breaking_point_info->0 as int].next is None {
        removal_done(a, b, infos, a.nodes@[n as int].breaking_point_info->0 as int)
    } else {
        b == a
    }
}

/// The graphs after each node of the list in turn was looked at.
pub open spec fn visit_chain(chain: Seq<LGraph>, infos: Seq<BreakingPointInfo>, ns: Seq<usize>) -> bool {
    &&& chain.len() == ns.len() + 1
    &&& forall|k: int| 0 <= k < ns.len() ==> #[trigger] end_visited(chain[k], chain[k + 1], infos, ns[k])
}

/// `b` is `a` after each node of the list was looked at in turn.
pub open spec fn layer_visited(a: LGraph, b: LGraph, infos: Seq<BreakingPointInfo>, ns: Seq<usize>) -> bool {
    exists|c: Seq<LGraph>| #[trigger] visit_chain(c, infos, ns) && c[0] == a && c.last() == b
}

/// The graphs after the nodes of each layer in turn were looked at, each
/// layer as it was when its turn came.
pub open spec fn layers_chain(chain: Seq<LGraph>, infos: Seq<BreakingPointInfo>, l: int) -> bool {
    &&& chain.len() == l + 1
    &&& forall|k: int| 0 <= k < l ==> #[trigger] layer_visited(chain[k], chain[k + 1], infos, chain[k].layers@[k]@)
}

/// `b` is `a` after the nodes of each of the first `l` layers were looked
/// at, layer by layer, each layer as it was when its turn came.
pub open spec fn layers_visited(a: LGraph, b: LGraph, infos: Seq<BreakingPointInfo>, l: int) -> bool {
    exists|c: Seq<LGraph>| #[trigger] layers_chain(c, infos, l) && c[0] == a && c.last() == b
}

/// Joins the edges of record `r` (see `edges_joined`).
fn join_edges(g: &mut LGraph, r: &BreakingPointInfo)
    requires
        old(g).wf(),
        r.node_start_edge < old(g).edges@.len(),
        r.start_end_edge < old(g).edges@.len(),
        r.original_edge < old(g).edges@.len(),
    ensures
        final(g).wf(),
        edges_joined(old(g), final(g), *r),
{
    let ghost g0 = *g;
    let lp = g.ports.len();
    g.ports.push(LPort::new());
    assert(g.ports@[lp as int] == g0.ports@.push(g.ports@[lp as int])[lp as int]);
    let source = g.edges[r.node_start_edge].source;
    let o = r.original_edge;
    g.edges[o].source = source;
    let s = r.start_end_edge;
    g.edges[s].source = lp;
    g.edges[s].target = lp;
    let n = r.node_start_edge;
    g.edges[n].source = lp;
    g.edges[n].target = lp;
    proof {
        assert forall|e: int| 0 <= e < g0.edges@.len() implies #[trigger] g.edges@[e] == joined_edge(&g0, e, *r, lp) by {}
        assert forall|x: int| 0 <= x < g.edges@.len() implies #[trigger] g.edges@[x].source < g.ports@.len()
            && g.edges@[x].target < g.ports@.len() by {
            assert(g.edges@[x] == joined_edge(&g0, x, *r, lp));
            assert(g0.edges@[x].source < g0.ports@.len());
            assert(g0.edges@[r.node_start_edge as int].source < g0.ports@.len());
        }
        assert forall|q: int| 0 <= q < g.ports@.len() implies (#[trigger] g.ports@[q].node matches Some(m) ==> m
            < g.nodes@.len()) by {
            if q < lp {
                assert(g.ports@[q] == g0.ports@[q]);
            }
        }
        assert forall|m: int, i: int| 0 <= m < g.nodes@.len() && 0 <= i < g.nodes@[m].ports@.len() implies {
            &&& #[trigger] g.nodes@[m].ports@[i] < g.ports@.len()
            &&& g.ports@[g.nodes@[m].ports@[i] as int].node == Some(m as usize)
        } by {
            assert(g0.nodes@[m].ports@[i] < g0.ports@.len());
            assert(g.ports@[g0.nodes@[m].ports@[i] as int] == g0.ports@[g0.nodes@[m].ports@[i] as int]);
        }
    }
}

/// The records still fit a graph that differs only in where its nodes lie,
/// its ports and where its edges run.
proof fn lemma_records_kept(a: &LGraph, b: &LGraph, infos: Seq<BreakingPointInfo>)
    requires
        remover_records_ok(a, infos),
        b.nodes@.len() == a.nodes@.len(),
        b.edges@.len() == a.edges@.len(),
        forall|n: int| 0 <= n < a.nodes@.len() ==> #[trigger] b.nodes@[n].breaking_point_info == a.nodes@[n].breaking_point_info,
    ensures
        remover_records_ok(b, infos),
{
    assert forall|n: int| 0 <= n < b.nodes@.len() implies (#[trigger] b.nodes@[n].breaking_point_info matches Some(i) ==> i
        < infos.len()) by {
        assert(b.nodes@[n].breaking_point_info == a.nodes@[n].breaking_point_info);
    }
}

/// Where nodes lie is all that leaving a layer changes of them.
proof fn lemma_unlayered_keeps(a: &LGraph, b: &LGraph, n: usize)
    requires
        unlayered(a, b, n),
        n < a.nodes@.len(),
    ensures
        b.nodes@.len() == a.nodes@.len(),
        b.edges == a.edges,
        b.ports == a.ports,
        b.layers@.len() == a.layers@.len(),
        forall|m: int| 0 <= m < a.nodes@.len() ==> #[trigger] b.nodes@[m].breaking_point_info == a.nodes@[m].breaking_point_info,
{
}

/// Removes record `i` and then, in turn, each record before it (see
/// `removal_done`).
fn remove(g: &mut LGraph, infos: &Vec<BreakingPointInfo>, i: usize) -> (chain: Ghost<Seq<LGraph>>)
    requires
        old(g).wf(),
        old(g).layers_listed(),
        remover_records_ok(old(g), infos@),
        i < infos@.len(),
    ensures
        final(g).wf(),
        final(g).layers_listed(),
        remover_records_ok(final(g), infos@),
        removal_chain(chain@, infos@, prev_records(infos@, i as int)),
        chain@[0] == *old(g),
        chain@.last() == *final(g),
        final(g).nodes@.len() == old(g).nodes@.len(),
        final(g).edges@.len() == old(g).edges@.len(),
        final(g).layers@.len() == old(g).layers@.len(),
    decreases i,
{
    let ghost a = *g;
    let r = &infos[i];
    assert(r.start < a.nodes@.len());
    join_edges(g, r);
    let ghost m1 = *g;
    unset_layer(g, r.end);
    let ghost m2 = *g;
    proof {
        lemma_unlayered_keeps(&m1, &m2, r.end);
    }
    unset_layer(g, r.start);
    let ghost m = *g;
    proof {
        lemma_unlayered_keeps(&m2, &m, r.start);
        lemma_records_kept(&a, &m, infos@);
        assert(record_removed(&a, &m, infos@[i as int], m1, m2));
        assert(record_gone(&a, &m, infos@[i as int]));
    }
    match r.prev {
        Some(j) => {
            let rest = remove(g, infos, j);
            let ghost chain = seq![a] + rest@;
            proof {
                let recs = prev_records(infos@, i as int);
                assert(recs == seq![i] + prev_records(infos@, j as int));
                assert forall|k: int| 0 <= k < recs.len() implies #[trigger] record_gone(
                    &chain[k],
                    &chain[k + 1],
                    infos@[recs[k] as int],
                ) by {
                    if k > 0 {
                        let pj = prev_records(infos@, j as int);
                        assert(removal_chain(rest@, infos@, pj));
                        assert(recs.len() == pj.len() + 1);
                        assert(0 <= k - 1 < pj.len());
                        assert(chain[k] == rest@[k - 1]);
                        assert(chain[k + 1] == rest@[k]);
                        assert(recs[k] == prev_records(infos@, j as int)[k - 1]);
                        let q = k - 1;
                        assert(record_gone(&rest@[q], &rest@[q + 1], infos@[pj[q] as int]));
                        assert(rest@[q + 1] == chain[k + 1]);
                    } else {
                        assert(chain[0] == a);
                        assert(chain[1] == rest@[0]);
                        assert(recs[0] == i);
                    }
                }
            }
            Ghost(chain)
        },
        None => {
            let ghost chain = seq![a, m];
            proof {
                assert(prev_records(infos@, i as int) == seq![i]);
            }
            Ghost(chain)
        },
    }
}

impl BreakingPointRemover {
    /// Looks at the nodes of each layer in turn, layer by layer, each layer
    /// as it is when its turn comes; each end marker of a record without a
    /// next one has that record and those before it removed (see
    /// `layers_visited`).
    pub fn process(&self, g: &mut LGraph, infos: &Vec<BreakingPointInfo>)
        requires
            old(g).wf(),
            old(g).layers_listed(),
            remover_records_ok(old(g), infos@),
        ensures
            final(g).wf(),
            final(g).layers_listed(),
            layers_visited(*old(g), *final(g), infos@, old(g).layers@.len() as int),
    {
        let ghost g0 = *g;
        let ghost mut lc: Seq<LGraph> = seq![*g];
        let mut l: usize = 0;
        while l < g.layers.len()
            invariant
                g.wf(),
                g.layers_listed(),
                remover_records_ok(g, infos@),
                g.layers@.len() == g0.layers@.len(),
                l <= g.layers@.len(),
                lc.len() == l + 1,
                lc[0] == g0,
                lc[l as int] == *g,
                forall|k: int| 0 <= k < l ==> #[trigger] layer_visited(lc[k], lc[k + 1], infos@, lc[k].layers@[k]@),
            decreases g.layers@.len() - l,
        {
            let ns = copy_list(&g.layers[l]);
            let ghost gl = *g;
            let ghost mut vc: Seq<LGraph> = seq![*g];
            proof {
                assert forall|k: int| 0 <= k < ns@.len() implies #[trigger] ns@[k] < gl.nodes@.len() by {
                    assert(gl.layers@[l as int]@[k] < gl.nodes@.len());
                }
            }
            let mut i: usize = 0;
            while i < ns.len()
                invariant
                    g.wf(),
                    g.layers_listed(),
                    remover_records_ok(g, infos@),
                    g.layers@.len() == g0.layers@.len(),
                    g.nodes@.len() == gl.nodes@.len(),
                    l < g.layers@.len(),
                    ns@ == gl.layers@[l as int]@,
                    forall|k: int| 0 <= k < ns@.len() ==> #[trigger] ns@[k] < gl.nodes@.len(),
                    i <= ns@.len(),
                    vc.len() == i + 1,
                    vc[0] == gl,
                    vc[i as int] == *g,
                    forall|k: int| 0 <= k < i ==> #[trigger] end_visited(vc[k], vc[k + 1], infos@, ns@[k]),
                decreases ns@.len() - i,
            {
                let n = ns[i];
                let ghost gb = *g;
                if is_end(g, infos, n) {
                    let k = g.nodes[n].breaking_point_info.unwrap();
                    if infos[k].next.is_none() {
                        let c = remove(g, infos, k);
                        proof {
                            assert(removal_chain(c@, infos@, prev_records(infos@, k as int)));
                            assert(removal_done(gb, *g, infos@, k as int));
                        }
                    }
                }
                proof {
                    assert(end_visited(gb, *g, infos@, n));
                    let old_vc = vc;
                    vc = vc.push(*g);
                    assert forall|k: int| 0 <= k < i + 1 implies #[trigger] end_visited(vc[k], vc[k + 1], infos@, ns@[k]) by {
                        if k < i {
                            assert(vc[k] == old_vc[k]);
                            assert(vc[k + 1] == old_vc[k + 1]);
                        }
                    }
                }
                i += 1;
            }
            proof {
                assert(visit_chain(vc, infos@, gl.layers@[l as int]@));
                assert(layer_visited(gl, *g, infos@, gl.layers@[l as int]@));
                let old_lc = lc;
                lc = lc.push(*g);
                assert forall|k: int| 0 <= k < l + 1 implies #[trigger] layer_visited(lc[k], lc[k + 1], infos@, lc[k].layers@[k]@) by {
                    if k < l {
                        assert(lc[k] == old_lc[k]);
                        assert(lc[k + 1] == old_lc[k + 1]);
                    } else {
                        assert(lc[k] == gl);
                    }
                }
            }
            l += 1;
        }
        proof {
            assert(layers_chain(lc, infos@, g0.layers@.len() as int));
        }
    }
}

} // verus!

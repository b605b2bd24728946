//! Moves the nodes constrained to the top of their layer to the top, and
//! those constrained to the bottom to the bottom.
use vstd::prelude::*;

use crate::graph::{lemma_filter_facts, InLayerConstraint, LGraph};

verus! {

/// The in-layer constraint of a node, unconstrained when unset.
pub open spec fn in_layer_constraint_of(g: &LGraph, n: usize) -> InLayerConstraint {
    match g.nodes@[n as int].in_layer_constraint {
        Some(c) => c,
        None => InLayerConstraint::Unconstrained,
    }
}

/// The nodes of a layer with the given in-layer constraint, in layer order.
pub open spec fn constrained_nodes(g: &LGraph, layer: Seq<usize>, c: InLayerConstraint) -> Seq<usize> {
    layer.filter(|n: usize| in_layer_constraint_of(g, n) == c)
}

/// A layer after processing: the top-constrained nodes, then the
/// unconstrained ones, then the bottom-constrained ones, each group in the
/// layer's order.
pub open spec fn reordered_layer(g: &LGraph, layer: Seq<usize>) -> Seq<usize> {
    constrained_nodes(g, layer, InLayerConstraint::Top) + constrained_nodes(
        g,
        layer,
        InLayerConstraint::Unconstrained,
    ) + constrained_nodes(g, layer, InLayerConstraint::Bottom)
}

/// Filtering a sequence without duplicates keeps only its elements that meet
/// the predicate, without duplicates.
pub proof fn lemma_filter_no_duplicates(s: Seq<usize>, p: spec_fn(usize) -> bool)
    requires
        s.no_duplicates(),
    ensures
        s.filter(p).no_duplicates(),
        forall|x: usize| #[trigger] s.filter(p).contains(x) ==> s.contains(x) && p(x),
        forall|x: usize| s.contains(x) && p(x) ==> #[trigger] s.filter(p).contains(x),
    decreases s.len(),
{
    reveal_with_fuel(Seq::filter, 1);
    if s.len() > 0 {
        let rest = s.drop_last();
        assert(rest.no_duplicates());
        lemma_filter_no_duplicates(rest, p);
        assert forall|x: usize| s.contains(x) && p(x) implies #[trigger] s.filter(p).contains(x) by {
            let k = choose|k: int| 0 <= k < s.len() && s[k] == x;
            if k < s.len() - 1 {
                assert(rest[k] == x);
            } else {
                assert(s.filter(p) == rest.filter(p).push(s.last()));
                assert(s.filter(p)[s.filter(p).len() - 1] == x);
            }
        }
        assert forall|x: usize| #[trigger] s.filter(p).contains(x) implies s.contains(x) && p(x) by {
            if p(s.last()) && x == s.last() {
            } else {
                assert(rest.filter(p).contains(x));
                let k = choose|k: int| 0 <= k < rest.len() && rest[k] == x;
                assert(s[k] == x);
            }
        }
        if p(s.last()) {
            assert(!rest.contains(s.last())) by {
                if rest.contains(s.last()) {
                    let k = choose|k: int| 0 <= k < rest.len() && rest[k] == s.last();
                    assert(s[k] == s[s.len() - 1]);
                }
            }
            assert(!rest.filter(p).contains(s.last()));
        }
    }
}

/// Filtering a list whose every element meets the predicate keeps it whole;
/// filtering one whose no element meets it leaves nothing.
proof fn lemma_filter_uniform(s: Seq<usize>, p: spec_fn(usize) -> bool, all: bool)
    requires
        forall|i: int| 0 <= i < s.len() ==> #[trigger] p(s[i]) == all,
    ensures
        s.filter(p) == if all {
            s
        } else {
            Seq::<usize>::empty()
        },
    decreases s.len(),
{
    reveal_with_fuel(Seq::filter, 1);
    if s.len() > 0 {
        let rest = s.drop_last();
        assert forall|i: int| 0 <= i < rest.len() implies #[trigger] p(rest[i]) == all by {
            assert(rest[i] == s[i]);
        }
        lemma_filter_uniform(rest, p, all);
        assert(p(s[s.len() - 1]) == all);
        if all {
            assert(s == rest.push(s.last()));
        }
    }
}

/// The nodes of a layer with the given constraint all have it.
proof fn lemma_constrained_nodes_have_it(g: &LGraph, layer: Seq<usize>, c: InLayerConstraint)
    ensures
        forall|i: int|
            0 <= i < constrained_nodes(g, layer, c).len() ==> #[trigger] in_layer_constraint_of(
                g,
                constrained_nodes(g, layer, c)[i],
            ) == c,
{
    lemma_filter_facts(layer, |n: usize| in_layer_constraint_of(g, n) == c);
}

/// Reordering a reordered layer changes nothing: the constraints are
/// already honoured.
#[verifier::spinoff_prover]
#[verifier::rlimit(40)]
pub proof fn lemma_reordered_layer_idempotent(g: &LGraph, layer: Seq<usize>)
    ensures
        reordered_layer(g, reordered_layer(g, layer)) == reordered_layer(g, layer),
{
    let t = constrained_nodes(g, layer, InLayerConstraint::Top);
    let u = constrained_nodes(g, layer, InLayerConstraint::Unconstrained);
    let b = constrained_nodes(g, layer, InLayerConstraint::Bottom);
    lemma_constrained_nodes_have_it(g, layer, InLayerConstraint::Top);
    lemma_constrained_nodes_have_it(g, layer, InLayerConstraint::Unconstrained);
    lemma_constrained_nodes_have_it(g, layer, InLayerConstraint::Bottom);
    let r = t + u + b;
    let cs = seq![InLayerConstraint::Top, InLayerConstraint::Unconstrained, InLayerConstraint::Bottom];
    assert forall|k: int| 0 <= k < 3 implies #[trigger] constrained_nodes(g, r, cs[k]) == if k == 0 {
        t
    } else if k == 1 {
        u
    } else {
        b
    } by {
        let c = cs[k];
        let p = |n: usize| in_layer_constraint_of(g, n) == c;
        Seq::filter_distributes_over_add(t + u, b, p);
        Seq::filter_distributes_over_add(t, u, p);
        lemma_filter_uniform(t, p, c == InLayerConstraint::Top);
        lemma_filter_uniform(u, p, c == InLayerConstraint::Unconstrained);
        lemma_filter_uniform(b, p, c == InLayerConstraint::Bottom);
        assert(Seq::<usize>::empty() + Seq::<usize>::empty() == Seq::<usize>::empty());
    }
    assert(constrained_nodes(g, r, InLayerConstraint::Top) == t);
    assert(constrained_nodes(g, r, InLayerConstraint::Unconstrained) == u);
    assert(constrained_nodes(g, r, InLayerConstraint::Bottom) == b);
}

/// Reordering keeps the nodes of the layer: it is a permutation.
pub proof fn lemma_reordered_layer_permutation(g: &LGraph, layer: Seq<usize>)
    ensures
        reordered_layer(g, layer).to_multiset() == layer.to_multiset(),
    decreases layer.len(),
{
    broadcast use vstd::seq_lib::group_to_multiset_ensures;
    if layer.len() == 0 {
        reveal_with_fuel(Seq::filter, 1);
        assert(reordered_layer(g, layer) =~= Seq::<usize>::empty());
    } else {
        let rest = layer.drop_last();
        let x = layer.last();
        assert(layer == rest.push(x));
        lemma_reordered_layer_permutation(g, rest);
        let pt = |n: usize| in_layer_constraint_of(g, n) == InLayerConstraint::Top;
        let pu = |n: usize| in_layer_constraint_of(g, n) == InLayerConstraint::Unconstrained;
        let pb = |n: usize| in_layer_constraint_of(g, n) == InLayerConstraint::Bottom;
        rest.lemma_filter_push(x, pt);
        rest.lemma_filter_push(x, pu);
        rest.lemma_filter_push(x, pb);
        let t = rest.filter(pt);
        let u = rest.filter(pu);
        let b = rest.filter(pb);
        vstd::seq_lib::lemma_multiset_commutative(t + u, b);
        vstd::seq_lib::lemma_multiset_commutative(t, u);
        let c = in_layer_constraint_of(g, x);
        if c == InLayerConstraint::Top {
            vstd::seq_lib::lemma_multiset_commutative(t.push(x) + u, b);
            vstd::seq_lib::lemma_multiset_commutative(t.push(x), u);
        } else if c == InLayerConstraint::Unconstrained {
            vstd::seq_lib::lemma_multiset_commutative(t + u.push(x), b);
            vstd::seq_lib::lemma_multiset_commutative(t, u.push(x));
        } else {
            vstd::seq_lib::lemma_multiset_commutative(t + u, b.push(x));
        }
        assert(reordered_layer(g, layer).to_multiset() =~= layer.to_multiset());
    }
}

/// Collects the nodes of a layer with the given constraint, in layer order.
fn collect_constrained(g: &LGraph, layer: &Vec<usize>, c: InLayerConstraint) -> (res: Vec<usize>)
    requires
        forall|i: int| 0 <= i < layer@.len() ==> #[trigger] layer@[i] < g.nodes@.len(),
    ensures
        res@ == constrained_nodes(g, layer@, c),
{
    let ghost pred = |n: usize| in_layer_constraint_of(g, n) == c;
    let mut res: Vec<usize> = Vec::new();
    let mut i: usize = 0;
    while i < layer.len()
        invariant
            forall|i: int| 0 <= i < layer@.len() ==> #[trigger] layer@[i] < g.nodes@.len(),
            pred == (|n: usize| in_layer_constraint_of(g, n) == c),
            i <= layer@.len(),
            res@ == layer@.take(i as int).filter(pred),
        decreases layer@.len() - i,
    {
        assert(layer@.take(i as int + 1).drop_last() == layer@.take(i as int));
        reveal_with_fuel(Seq::filter, 1);
        let n = layer[i];
        let constraint = match g.nodes[n].in_layer_constraint {
            Some(k) => k,
            None => InLayerConstraint::Unconstrained,
        };
        if constraint == c {
            res.push(n);
        }
        i += 1;
    }
    assert(layer@.take(layer@.len() as int) == layer@);
    res
}

/// Reorders every layer of the graph by in-layer constraints.
pub struct InLayerConstraintProcessor;

impl InLayerConstraintProcessor {
    /// Moves top-constrained nodes to the top and bottom-constrained nodes to
    /// the bottom of each layer, keeping the order within each group.
    pub fn process(&self, g: &mut LGraph)
        requires
            old(g).wf(),
        ensures
            final(g).wf(),
            final(g).nodes == old(g).nodes,
            final(g).ports == old(g).ports,
            final(g).edges == old(g).edges,
            final(g).layerless_nodes == old(g).layerless_nodes,
            final(g).layers@.len() == old(g).layers@.len(),
            forall|l: int|
                0 <= l < old(g).layers@.len() ==> #[trigger] final(g).layers@[l]@ == reordered_layer(
                    old(g),
                    old(g).layers@[l]@,
                ),
    {
        let ghost old_g = *g;
        let mut l: usize = 0;
        while l < g.layers.len()
            invariant
                g.wf(),
                g.nodes == old_g.nodes,
                g.ports == old_g.ports,
                g.edges == old_g.edges,
                g.layerless_nodes == old_g.layerless_nodes,
                g.layers@.len() == old_g.layers@.len(),
                l <= g.layers@.len(),
                forall|k: int|
                    0 <= k < l ==> #[trigger] g.layers@[k]@ == reordered_layer(
                        &old_g,
                        old_g.layers@[k]@,
                    ),
                forall|k: int| l <= k < g.layers@.len() ==> #[trigger] g.layers@[k] == old_g.layers@[k],
            decreases g.layers@.len() - l,
        {
            let ghost layer = g.layers@[l as int]@;
            assert forall|i: int| 0 <= i < layer.len() implies #[trigger] layer[i] < g.nodes@.len() by {
                assert(g.layers@[l as int]@[i] < g.nodes@.len());
            }
            let mut top = collect_constrained(g, &g.layers[l], InLayerConstraint::Top);
            let mut middle = collect_constrained(g, &g.layers[l], InLayerConstraint::Unconstrained);
            let mut bottom = collect_constrained(g, &g.layers[l], InLayerConstraint::Bottom);
            proof {
                let pt = |n: usize| in_layer_constraint_of(g, n) == InLayerConstraint::Top;
                let pm = |n: usize| in_layer_constraint_of(g, n) == InLayerConstraint::Unconstrained;
                let pb = |n: usize| in_layer_constraint_of(g, n) == InLayerConstraint::Bottom;
                assert(layer.no_duplicates());
                lemma_filter_no_duplicates(layer, pt);
                lemma_filter_no_duplicates(layer, pm);
                lemma_filter_no_duplicates(layer, pb);
            }
            let ghost t = top@;
            let ghost m = middle@;
            let ghost b = bottom@;
            top.append(&mut middle);
            top.append(&mut bottom);
            let ghost r = top@;
            proof {
                assert(r == t + m + b);
                assert((|n: usize| in_layer_constraint_of(g, n) == InLayerConstraint::Top) =~= (|
                    n: usize,
                | in_layer_constraint_of(&old_g, n) == InLayerConstraint::Top));
                assert((|n: usize| in_layer_constraint_of(g, n) == InLayerConstraint::Unconstrained)
                    =~= (|n: usize|
                    in_layer_constraint_of(&old_g, n) == InLayerConstraint::Unconstrained));
                assert((|n: usize| in_layer_constraint_of(g, n) == InLayerConstraint::Bottom) =~= (|
                    n: usize,
                | in_layer_constraint_of(&old_g, n) == InLayerConstraint::Bottom));
                assert(r == reordered_layer(&old_g, old_g.layers@[l as int]@));
                assert forall|i: int, j: int| 0 <= i < r.len() && 0 <= j < r.len() && i != j implies r[i]
                    != r[j] by {
                    assert(r.contains(r[i]));
                    if i < t.len() {
                        assert(t.contains(r[i]));
                    } else if i < t.len() + m.len() {
                        assert(m[i - t.len()] == r[i]);
                        assert(m.contains(r[i]));
                    } else {
                        assert(b[i - t.len() - m.len()] == r[i]);
                        assert(b.contains(r[i]));
                    }
                    if j < t.len() {
                        assert(t.contains(r[j]));
                    } else if j < t.len() + m.len() {
                        assert(m[j - t.len()] == r[j]);
                        assert(m.contains(r[j]));
                    } else {
                        assert(b[j - t.len() - m.len()] == r[j]);
                        assert(b.contains(r[j]));
                    }
                }
                assert forall|i: int| 0 <= i < r.len() implies layer.contains(#[trigger] r[i]) by {
                    if i < t.len() {
                        assert(t.contains(r[i]));
                    } else if i < t.len() + m.len() {
                        assert(m[i - t.len()] == r[i]);
                        assert(m.contains(r[i]));
                    } else {
                        assert(b[i - t.len() - m.len()] == r[i]);
                        assert(b.contains(r[i]));
                    }
                }
            }
            g.layers.set(l, top);
            proof {
                assert forall|i: int| 0 <= i < r.len() implies #[trigger] r[i] < g.nodes@.len()
                    && g.nodes@[r[i] as int].layer == Some(l) by {
                    assert(layer.contains(r[i]));
                    let k = choose|k: int| 0 <= k < layer.len() && layer[k] == r[i];
                    assert(old_g.layers@[l as int]@[k] == r[i]);
                }
            }
            l += 1;
        }
    }
}

} // verus!

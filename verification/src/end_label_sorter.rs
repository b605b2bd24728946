//! The end label sorter: the labels that a label dummy stands for are put in
//! the order of their texts; labels with the same text keep their order.
use vstd::prelude::*;

use crate::graph::{lemma_filter_facts, LGraph, LNode, NodeType, copy_list, labels_view};

verus! {

/// Sorts the labels of label dummies by their texts.
pub struct EndLabelSorter;

/// Text `a` comes before text `b` in the order of their bytes: at the first
/// byte where they differ the smaller byte wins, and a text that is a proper
/// beginning of the other comes first (the order of `str`).
pub open spec fn text_lt(a: Seq<u8>, b: Seq<u8>) -> bool
    decreases a.len(),
{
    if a.len() == 0 {
        b.len() > 0
    } else if b.len() == 0 {
        false
    } else if a[0] != b[0] {
        a[0] < b[0]
    } else {
        text_lt(a.drop_first(), b.drop_first())
    }
}

/// No text comes before itself, nor before a text that comes before it.
pub proof fn lemma_text_lt_asymmetric(a: Seq<u8>, b: Seq<u8>)
    ensures
        !text_lt(a, a),
        text_lt(a, b) ==> !text_lt(b, a),
    decreases a.len(),
{
    if a.len() > 0 && b.len() > 0 && a[0] == b[0] {
        lemma_text_lt_asymmetric(a.drop_first(), b.drop_first());
    }
    if a.len() > 0 {
        lemma_text_lt_asymmetric(a.drop_first(), a.drop_first());
    }
}

/// The order of texts is transitive.
pub proof fn lemma_text_lt_transitive(a: Seq<u8>, b: Seq<u8>, c: Seq<u8>)
    requires
        text_lt(a, b),
        text_lt(b, c),
    ensures
        text_lt(a, c),
    decreases a.len(),
{
    if a.len() > 0 && b.len() > 0 && c.len() > 0 && a[0] == b[0] && b[0] == c[0] {
        lemma_text_lt_transitive(a.drop_first(), b.drop_first(), c.drop_first());
    }
}

/// Of two different texts one comes before the other.
pub proof fn lemma_text_lt_total(a: Seq<u8>, b: Seq<u8>)
    ensures
        a == b || text_lt(a, b) || text_lt(b, a),
    decreases a.len(),
{
    if a.len() == 0 && b.len() == 0 {
        assert(a =~= b);
    } else if a.len() > 0 && b.len() > 0 && a[0] == b[0] {
        lemma_text_lt_total(a.drop_first(), b.drop_first());
        if a.drop_first() == b.drop_first() {
            assert(a =~= seq![a[0]] + a.drop_first());
            assert(b =~= seq![b[0]] + b.drop_first());
        }
    }
}

/// Whether text `a` comes before text `b`.
pub fn text_less(a: &Vec<u8>, b: &Vec<u8>) -> (res: bool)
    ensures
        res == text_lt(a@, b@),
{
    let mut k: usize = 0;
    assert(a@.skip(0) == a@ && b@.skip(0) == b@);
    while k < a.len() && k < b.len()
        invariant
            k <= a@.len(),
            k <= b@.len(),
            text_lt(a@, b@) == text_lt(a@.skip(k as int), b@.skip(k as int)),
        decreases a@.len() - k,
    {
        assert(a@.skip(k as int)[0] == a@[k as int]);
        assert(b@.skip(k as int)[0] == b@[k as int]);
        if a[k] != b[k] {
            return a[k] < b[k];
        }
        assert(a@.skip(k as int).drop_first() == a@.skip(k as int + 1));
        assert(b@.skip(k as int).drop_first() == b@.skip(k as int + 1));
        k += 1;
    }
    k == a.len() && k < b.len()
}

/// The text of a label.
pub open spec fn text_of(texts: Seq<Vec<u8>>, l: usize) -> Seq<u8> {
    texts[l as int]@
}

/// The labels of the list whose text is `t`, in list order.
pub open spec fn with_text(s: Seq<usize>, texts: Seq<Vec<u8>>, t: Seq<u8>) -> Seq<usize> {
    s.filter(|x: usize| text_of(texts, x) == t)
}

/// `res` holds the labels in the order of their texts, labels with the same
/// text in their old order: no label comes after one whose text comes after
/// its own, and for each text the labels with it are those of the old list,
/// in the same order.
pub open spec fn sorted_by_text(res: Seq<usize>, labels: Seq<usize>, texts: Seq<Vec<u8>>) -> bool {
    &&& res.len() == labels.len()
    &&& forall|i: int, j: int|
        0 <= i < j < res.len() ==> !text_lt(text_of(texts, #[trigger] res[j]), text_of(texts, #[trigger] res[i]))
    &&& forall|t: Seq<u8>| #[trigger] with_text(res, texts, t) == with_text(labels, texts, t)
}

/// A list has no labels of a text that none of its labels has.
proof fn lemma_with_text_none(s: Seq<usize>, texts: Seq<Vec<u8>>, t: Seq<u8>)
    requires
        forall|i: int| 0 <= i < s.len() ==> text_of(texts, #[trigger] s[i]) != t,
    ensures
        with_text(s, texts, t) == Seq::<usize>::empty(),
{
    let f = with_text(s, texts, t);
    if f.len() > 0 {
        s.lemma_filter_pred(|x: usize| text_of(texts, x) == t, 0);
        assert(f.contains(f[0]));
        s.lemma_filter_contains_rev(|x: usize| text_of(texts, x) == t, f[0]);
    }
}

/// The labels sorted by their texts, labels with the same text in their old
/// order (see `sorted_by_text`).
pub fn sort_by_text(labels: &Vec<usize>, texts: &Vec<Vec<u8>>) -> (res: Vec<usize>)
    requires
        forall|i: int| 0 <= i < labels@.len() ==> #[trigger] labels@[i] < texts@.len(),
    ensures
        sorted_by_text(res@, labels@, texts@),
{
    let mut res: Vec<usize> = Vec::new();
    let mut i: usize = 0;
    while i < labels.len()
        invariant
            i <= labels@.len(),
            forall|i: int| 0 <= i < labels@.len() ==> #[trigger] labels@[i] < texts@.len(),
            res@.len() == i,
            forall|k: int| 0 <= k < res@.len() ==> #[trigger] res@[k] < texts@.len(),
            forall|a: int, b: int|
                0 <= a < b < res@.len() ==> !text_lt(
                    text_of(texts@, #[trigger] res@[b]),
                    text_of(texts@, #[trigger] res@[a]),
                ),
            forall|t: Seq<u8>| #[trigger] with_text(res@, texts@, t) == with_text(labels@.take(i as int), texts@, t),
        decreases labels@.len() - i,
    {
        let x = labels[i];
        let ghost tx = text_of(texts@, x);
        let mut p: usize = 0;
        while p < res.len() && !text_less(&texts[x], &texts[res[p]])
            invariant
                p <= res@.len(),
                x < texts@.len(),
                tx == text_of(texts@, x),
                forall|k: int| 0 <= k < res@.len() ==> #[trigger] res@[k] < texts@.len(),
                forall|q: int| 0 <= q < p ==> !text_lt(tx, text_of(texts@, #[trigger] res@[q])),
            decreases res@.len() - p,
        {
            p += 1;
        }
        let ghost r = res@;
        proof {
            assert forall|q: int| p <= q < r.len() implies text_lt(tx, text_of(texts@, #[trigger] r[q])) by {
                assert(text_lt(tx, text_of(texts@, r[p as int])));
                if q > p {
                    assert(!text_lt(text_of(texts@, r[q]), text_of(texts@, r[p as int])));
                    lemma_text_lt_total(text_of(texts@, r[q]), text_of(texts@, r[p as int]));
                    if text_of(texts@, r[q]) != text_of(texts@, r[p as int]) {
                        lemma_text_lt_transitive(tx, text_of(texts@, r[p as int]), text_of(texts@, r[q]));
                    }
                }
            }
        }
        res.insert(p, x);
        proof {
            let r2 = res@;
            assert(r2 =~= r.take(p as int) + seq![x] + r.skip(p as int));
            assert forall|k: int| 0 <= k < r2.len() implies #[trigger] r2[k] < texts@.len() by {
                if k < p {
                    assert(r2[k] == r[k]);
                } else if k > p {
                    assert(r2[k] == r[k - 1]);
                }
            }
            assert forall|a: int, b: int| 0 <= a < b < r2.len() implies !text_lt(
                text_of(texts@, #[trigger] r2[b]),
                text_of(texts@, #[trigger] r2[a]),
            ) by {
                if b < p {
                    assert(r2[a] == r[a] && r2[b] == r[b]);
                } else if b == p {
                    assert(r2[a] == r[a]);
                } else if a == p {
                    assert(r2[b] == r[b - 1]);
                    lemma_text_lt_asymmetric(tx, text_of(texts@, r[b - 1]));
                } else if a < p {
                    assert(r2[a] == r[a] && r2[b] == r[b - 1]);
                } else {
                    assert(r2[a] == r[a - 1] && r2[b] == r[b - 1]);
                }
            }
            assert(labels@.take(i as int + 1) == labels@.take(i as int).push(x));
            assert forall|t: Seq<u8>| #[trigger] with_text(r2, texts@, t) == with_text(
                labels@.take(i as int + 1),
                texts@,
                t,
            ) by {
                let pred = |y: usize| text_of(texts@, y) == t;
                let aa = r.take(p as int);
                let bb = r.skip(p as int);
                let xx = seq![x];
                let li = labels@.take(i as int);
                assert(with_text(r2, texts@, t) == r2.filter(pred));
                assert(with_text(r, texts@, t) == r.filter(pred));
                assert(with_text(li, texts@, t) == li.filter(pred));
                assert(with_text(labels@.take(i as int + 1), texts@, t) == li.push(x).filter(pred));
                Seq::filter_distributes_over_add(aa + xx, bb, pred);
                Seq::filter_distributes_over_add(aa, xx, pred);
                Seq::filter_distributes_over_add(aa, bb, pred);
                assert(r =~= aa + bb);
                assert(r2 =~= (aa + xx) + bb);
                reveal_with_fuel(Seq::filter, 2);
                assert(li.push(x).drop_last() =~= li);
                assert(xx.drop_last() =~= Seq::<usize>::empty());
                if tx == t {
                    assert forall|k: int| 0 <= k < bb.len() implies text_of(texts@, #[trigger] bb[k]) != t by {
                        assert(bb[k] == r[p + k]);
                        assert(text_lt(tx, text_of(texts@, r[p + k])));
                        lemma_text_lt_asymmetric(tx, tx);
                    }
                    lemma_with_text_none(bb, texts@, t);
                    assert(bb.filter(pred) =~= Seq::<usize>::empty());
                    assert(xx.filter(pred) =~= seq![x]);
                    assert(r2.filter(pred) =~= aa.filter(pred).push(x));
                    assert(r.filter(pred) =~= aa.filter(pred));
                    assert(li.push(x).filter(pred) == li.filter(pred).push(x));
                } else {
                    assert(xx.filter(pred) =~= Seq::<usize>::empty());
                    assert(r2.filter(pred) =~= aa.filter(pred) + bb.filter(pred));
                    assert(li.push(x).filter(pred) == li.filter(pred));
                }
            }
        }
        i += 1;
    }
    assert(labels@.take(labels@.len() as int) == labels@);
    res
}


/// Every label that the node stands for is in the list of label texts.
pub open spec fn labels_known(n: LNode, texts: Seq<Vec<u8>>) -> bool {
    match n.represented_labels {
        Some(v) => forall|i: int| 0 <= i < v@.len() ==> #[trigger] v@[i] < texts.len(),
        None => true,
    }
}

/// `b` is node `a` after its labels were sorted: a node that stands for at
/// least two labels has them in text order (see `sorted_by_text`); any other
/// node keeps what it has.
pub open spec fn represented_sorted(a: LNode, b: LNode, texts: Seq<Vec<u8>>) -> bool {
    match labels_view(a.represented_labels) {
        Some(v) => if v.len() >= 2 {
            labels_view(b.represented_labels) matches Some(w) && sorted_by_text(w, v, texts)
        } else {
            labels_view(b.represented_labels) == labels_view(a.represented_labels)
        },
        None => b.represented_labels is None,
    }
}

/// Two nodes agree on everything but the labels they stand for.
pub open spec fn same_but_labels(a: LNode, b: LNode) -> bool {
    &&& a.node_type == b.node_type
    &&& a.ports == b.ports
    &&& a.layer == b.layer
    &&& a.id == b.id
    &&& a.layer_constraint == b.layer_constraint
    &&& a.in_layer_constraint == b.in_layer_constraint
    &&& a.edge_constraint == b.edge_constraint
    &&& a.port_constraints == b.port_constraints
    &&& a.origin == b.origin
    &&& a.in_layer_layout_unit == b.in_layer_layout_unit
    &&& a.in_layer_successor_constraints == b.in_layer_successor_constraints
    &&& a.ext_port_side == b.ext_port_side
    &&& a.layer_id == b.layer_id
    &&& a.position_id == b.position_id
    &&& a.long_edge_source == b.long_edge_source
    &&& a.long_edge_target == b.long_edge_target
    &&& a.long_edge_has_label_dummies == b.long_edge_has_label_dummies
    &&& a.long_edge_before_label_dummy == b.long_edge_before_label_dummy
    &&& a.layer_split == b.layer_split
    &&& a.reset_on_long_edges == b.reset_on_long_edges
    &&& a.minimize_edge_length == b.minimize_edge_length
    &&& a.breaking_point_info == b.breaking_point_info
    &&& a.comment_box == b.comment_box
    &&& a.comment_conn_port == b.comment_conn_port
    &&& a.alignment == b.alignment
    &&& a.label_placement == b.label_placement
    &&& a.ext_port_replaced_dummy == b.ext_port_replaced_dummy
}

/// Sorts the labels that node `n` stands for, when there are at least two
/// (see `represented_sorted`).
pub fn sort_represented_labels(g: &mut LGraph, n: usize, texts: &Vec<Vec<u8>>)
    requires
        n < old(g).nodes@.len(),
        labels_known(old(g).nodes@[n as int], texts@),
    ensures
        final(g).ports == old(g).ports,
        final(g).edges == old(g).edges,
        final(g).layers == old(g).layers,
        final(g).layerless_nodes == old(g).layerless_nodes,
        final(g).nodes@.len() == old(g).nodes@.len(),
        forall|m: int| 0 <= m < old(g).nodes@.len() && m != n ==> #[trigger] final(g).nodes@[m] == old(g).nodes@[m],
        same_but_labels(final(g).nodes@[n as int], old(g).nodes@[n as int]),
        represented_sorted(old(g).nodes@[n as int], final(g).nodes@[n as int], texts@),
{
    let sorted = match &g.nodes[n].represented_labels {
        Some(labels) => {
            if labels.len() < 2 {
                return;
            }
            sort_by_text(labels, texts)
        },
        None => {
            return;
        },
    };
    g.nodes[n].represented_labels = Some(sorted);
}

impl EndLabelSorter {
    /// Sorts the labels of every label dummy in the layers (see
    /// `represented_sorted`); `texts` holds the text of each label.
    pub fn process(&self, g: &mut LGraph, texts: &Vec<Vec<u8>>)
        requires
            old(g).wf(),
            old(g).layers_listed(),
            forall|n: int| 0 <= n < old(g).nodes@.len() ==> labels_known(#[trigger] old(g).nodes@[n], texts@),
        ensures
            final(g).ports == old(g).ports,
            final(g).edges == old(g).edges,
            final(g).layers == old(g).layers,
            final(g).layerless_nodes == old(g).layerless_nodes,
            final(g).nodes@.len() == old(g).nodes@.len(),
            forall|m: int|
                0 <= m < old(g).nodes@.len() ==> same_but_labels(#[trigger] final(g).nodes@[m], old(g).nodes@[m])
                    && if old(g).nodes@[m].node_type == NodeType::Label && old(g).nodes@[m].layer is Some {
                    represented_sorted(old(g).nodes@[m], final(g).nodes@[m], texts@)
                } else {
                    final(g).nodes@[m].represented_labels == old(g).nodes@[m].represented_labels
                },
    {
        let ghost g0 = *g;
        let node_count = g.nodes.len();
        let mut l: usize = 0;
        while l < g.layers.len()
            invariant
                node_count == g0.nodes@.len(),
                g0.wf(),
                g0.layers_listed(),
                forall|n: int| 0 <= n < g0.nodes@.len() ==> labels_known(#[trigger] g0.nodes@[n], texts@),
                l <= g0.layers@.len(),
                g.ports == g0.ports,
                g.edges == g0.edges,
                g.layers == g0.layers,
                g.layerless_nodes == g0.layerless_nodes,
                g.nodes@.len() == g0.nodes@.len(),
                forall|m: int|
                    0 <= m < g0.nodes@.len() ==> same_but_labels(#[trigger] g.nodes@[m], g0.nodes@[m])
                        && if g0.nodes@[m].node_type == NodeType::Label && (g0.nodes@[m].layer matches Some(k) && k < l) {
                        represented_sorted(g0.nodes@[m], g.nodes@[m], texts@)
                    } else {
                        g.nodes@[m].represented_labels == g0.nodes@[m].represented_labels
                    },
            decreases g0.layers@.len() - l,
        {
            let nodes = copy_list(&g.layers[l]);
            let mut i: usize = 0;
            while i < nodes.len()
                invariant
                    node_count == g0.nodes@.len(),
                    g0.wf(),
                    g0.layers_listed(),
                    forall|n: int| 0 <= n < g0.nodes@.len() ==> labels_known(#[trigger] g0.nodes@[n], texts@),
                    l < g0.layers@.len(),
                    nodes@ == g0.layers@[l as int]@,
                    i <= nodes@.len(),
                    g.ports == g0.ports,
                    g.edges == g0.edges,
                    g.layers == g0.layers,
                    g.layerless_nodes == g0.layerless_nodes,
                    g.nodes@.len() == g0.nodes@.len(),
                    forall|m: int|
                        0 <= m < g0.nodes@.len() ==> same_but_labels(#[trigger] g.nodes@[m], g0.nodes@[m])
                            && if g0.nodes@[m].node_type == NodeType::Label && ((g0.nodes@[m].layer matches Some(k)
                            && k < l) || nodes@.take(i as int).contains(m as usize)) {
                            represented_sorted(g0.nodes@[m], g.nodes@[m], texts@)
                        } else {
                            g.nodes@[m].represented_labels == g0.nodes@[m].represented_labels
                        },
                decreases nodes@.len() - i,
            {
                let n = nodes[i];
                let ghost gb = *g;
                proof {
                    assert(g0.layers@[l as int]@[i as int] < g0.nodes@.len());
                    assert(g0.nodes@[n as int].layer == Some(l));
                    assert(nodes@.take(i as int + 1) == nodes@.take(i as int).push(n));
                    assert(!nodes@.take(i as int).contains(n)) by {
                        if nodes@.take(i as int).contains(n) {
                            let x = choose|x: int| 0 <= x < i && #[trigger] nodes@.take(i as int)[x] == n;
                            assert(g0.layers@[l as int]@.no_duplicates());
                            assert(nodes@[x] == nodes@[i as int]);
                        }
                    }
                    assert(same_but_labels(gb.nodes@[n as int], g0.nodes@[n as int]));
                    assert(labels_known(g0.nodes@[n as int], texts@));
                }
                if g.nodes[n].node_type == NodeType::Label {
                    sort_represented_labels(g, n, texts);
                }
                proof {
                    assert forall|m: int| 0 <= m < g0.nodes@.len() implies same_but_labels(#[trigger] g.nodes@[m], g0.nodes@[m])
                        && if g0.nodes@[m].node_type == NodeType::Label && ((g0.nodes@[m].layer matches Some(k)
                        && k < l) || nodes@.take(i as int + 1).contains(m as usize)) {
                        represented_sorted(g0.nodes@[m], g.nodes@[m], texts@)
                    } else {
                        g.nodes@[m].represented_labels == g0.nodes@[m].represented_labels
                    } by {
                        assert(same_but_labels(gb.nodes@[m], g0.nodes@[m]));
                        if m != n {
                            assert(g.nodes@[m] == gb.nodes@[m]);
                            if nodes@.take(i as int + 1).contains(m as usize) {
                                let x = choose|x: int| 0 <= x < i + 1 && #[trigger] nodes@.take(i as int + 1)[x] == m as usize;
                                assert(nodes@.take(i as int)[x] == m as usize);
                            }
                        } else {
                            assert(nodes@.take(i as int + 1)[i as int] == n);
                            assert(gb.nodes@[m].represented_labels == g0.nodes@[m].represented_labels);
                        }
                    }
                }
                i += 1;
            }
            proof {
                assert(nodes@.take(nodes@.len() as int) == nodes@);
                assert forall|m: int| 0 <= m < g0.nodes@.len() implies same_but_labels(#[trigger] g.nodes@[m], g0.nodes@[m])
                    && if g0.nodes@[m].node_type == NodeType::Label && (g0.nodes@[m].layer matches Some(k) && k < l + 1) {
                    represented_sorted(g0.nodes@[m], g.nodes@[m], texts@)
                } else {
                    g.nodes@[m].represented_labels == g0.nodes@[m].represented_labels
                } by {
                    if g0.nodes@[m].layer == Some(l) {
                        assert(g0.layers@[l as int]@.contains(m as usize));
                    }
                    if nodes@.contains(m as usize) {
                        let x = choose|x: int| 0 <= x < nodes@.len() && nodes@[x] == m as usize;
                        assert(g0.layers@[l as int]@[x] == m as usize);
                    }
                }
            }
            l += 1;
        }
        proof {
            assert forall|m: int| 0 <= m < g0.nodes@.len() implies (#[trigger] g0.nodes@[m].layer matches Some(k) ==> k < l) by {
                assert(g0.nodes@[m].layer matches Some(k) ==> k < g0.layers@.len());
            }
        }
    }
}


/// The labels are in text order: none comes after one whose text comes
/// after its own.
pub open spec fn in_text_order(s: Seq<usize>, texts: Seq<Vec<u8>>) -> bool {
    forall|i: int, j: int| 0 <= i < j < s.len() ==> !text_lt(text_of(texts, #[trigger] s[j]), text_of(texts, #[trigger] s[i]))
}

/// The last label of a list, when it has text `t`, is the last label of the
/// list with text `t`; the others with text `t` are those of the rest.
proof fn lemma_with_text_last(s: Seq<usize>, texts: Seq<Vec<u8>>, t: Seq<u8>)
    requires
        s.len() > 0,
    ensures
        text_of(texts, s.last()) == t ==> with_text(s, texts, t) == with_text(s.drop_last(), texts, t).push(s.last()),
        text_of(texts, s.last()) != t ==> with_text(s, texts, t) == with_text(s.drop_last(), texts, t),
{
    reveal_with_fuel(Seq::filter, 1);
}

/// Two lists of labels in text order with, for each text, the same labels
/// in the same order are the same.
proof fn lemma_text_order_unique(w1: Seq<usize>, w2: Seq<usize>, texts: Seq<Vec<u8>>)
    requires
        w1.len() == w2.len(),
        in_text_order(w1, texts),
        in_text_order(w2, texts),
        forall|t: Seq<u8>| #[trigger] with_text(w1, texts, t) == with_text(w2, texts, t),
    ensures
        w1 == w2,
    decreases w1.len(),
{
    if w1.len() == 0 {
        assert(w1 =~= w2);
    } else {
        let a = w1.last();
        let b = w2.last();
        let ta = text_of(texts, a);
        let tb = text_of(texts, b);
        let n = w1.len() - 1;
        lemma_text_lt_total(ta, tb);
        if ta != tb {
            if text_lt(ta, tb) {
                lemma_with_text_last(w2, texts, tb);
                assert(with_text(w2, texts, tb).contains(b));
                assert(with_text(w1, texts, tb).contains(b));
                w1.lemma_filter_contains_rev(|x: usize| text_of(texts, x) == tb, b);
                lemma_filter_facts(w1, |x: usize| text_of(texts, x) == tb);
                let i = choose|i: int| 0 <= i < w1.len() && w1[i] == b;
                if i < n {
                    assert(!text_lt(text_of(texts, w1[n]), text_of(texts, w1[i])));
                } else {
                    lemma_text_lt_asymmetric(ta, ta);
                }
            } else {
                lemma_with_text_last(w1, texts, ta);
                assert(with_text(w1, texts, ta).contains(a));
                assert(with_text(w2, texts, ta).contains(a));
                w2.lemma_filter_contains_rev(|x: usize| text_of(texts, x) == ta, a);
                let i = choose|i: int| 0 <= i < w2.len() && w2[i] == a;
                if i < n {
                    assert(!text_lt(text_of(texts, w2[n]), text_of(texts, w2[i])));
                } else {
                    lemma_text_lt_asymmetric(tb, tb);
                }
            }
        }
        lemma_with_text_last(w1, texts, ta);
        lemma_with_text_last(w2, texts, ta);
        assert(with_text(w1, texts, ta).last() == a);
        assert(with_text(w2, texts, ta).last() == b);
        let d1 = w1.drop_last();
        let d2 = w2.drop_last();
        assert forall|t: Seq<u8>| #[trigger] with_text(d1, texts, t) == with_text(d2, texts, t) by {
            lemma_with_text_last(w1, texts, t);
            lemma_with_text_last(w2, texts, t);
            if t == ta {
                assert(with_text(d1, texts, t) == with_text(w1, texts, t).drop_last());
                assert(with_text(d2, texts, t) == with_text(w2, texts, t).drop_last());
            }
        }
        assert forall|i: int, j: int| 0 <= i < j < d1.len() implies !text_lt(
            text_of(texts, #[trigger] d1[j]),
            text_of(texts, #[trigger] d1[i]),
        ) by {
            assert(d1[i] == w1[i] && d1[j] == w1[j]);
        }
        assert forall|i: int, j: int| 0 <= i < j < d2.len() implies !text_lt(
            text_of(texts, #[trigger] d2[j]),
            text_of(texts, #[trigger] d2[i]),
        ) by {
            assert(d2[i] == w2[i] && d2[j] == w2[j]);
        }
        lemma_text_order_unique(d1, d2, texts);
        assert(w1 =~= d1.push(a));
        assert(w2 =~= d2.push(b));
    }
}

/// The labels in text order are determined by the labels: two lists that
/// both hold them in text order, labels with the same text in their old
/// order, are the same.
pub proof fn lemma_sorted_by_text_unique(w1: Seq<usize>, w2: Seq<usize>, labels: Seq<usize>, texts: Seq<Vec<u8>>)
    requires
        sorted_by_text(w1, labels, texts),
        sorted_by_text(w2, labels, texts),
    ensures
        w1 == w2,
{
    assert forall|t: Seq<u8>| #[trigger] with_text(w1, texts, t) == with_text(w2, texts, t) by {
        assert(with_text(w1, texts, t) == with_text(labels, texts, t));
        assert(with_text(w2, texts, t) == with_text(labels, texts, t));
    }
    lemma_text_order_unique(w1, w2, texts);
}

/// Sorting labels that are in text order already gives them back unchanged.
pub proof fn lemma_sorting_sorted_labels(w: Seq<usize>, labels: Seq<usize>, texts: Seq<Vec<u8>>)
    requires
        in_text_order(labels, texts),
        sorted_by_text(w, labels, texts),
    ensures
        w == labels,
{
    lemma_sorted_by_text_unique(w, labels, labels, texts);
}

} // verus!

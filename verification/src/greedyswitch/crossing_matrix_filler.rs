//! Caches the between-layer crossing counts of pairs of nodes of the free layer.
use vstd::prelude::*;

use crate::graph::{LGraph, PortSide};
use crate::greedyswitch::between_layer_edge_two_node_crossings_counter::{
    BetweenLayerEdgeTwoNodeCrossingsCounter,
    clamp_i32,
    order_in_graph,
};
use crate::greedyswitch::switch_decider::CrossingCountSide;

verus! {

/// The kinds of crossing minimization.
#[derive(Clone, Copy, Debug, PartialEq, Eq, Structural)]
pub enum CrossMinType {
    Barycenter,
    OneSidedGreedySwitch,
    TwoSidedGreedySwitch,
}

/// The between-layer counts of a pair of nodes as the filler computes them:
/// one side only for the one-sided heuristic, both sides otherwise.
pub open spec fn fresh_counts(
    counter: BetweenLayerEdgeTwoNodeCrossingsCounter,
    one_sided: bool,
    direction: CrossingCountSide,
    upper: usize,
    lower: usize,
) -> (i32, i32) {
    if upper == lower {
        (0i32, 0i32)
    } else if one_sided {
        match direction {
            CrossingCountSide::East => counter.side_counts(upper, lower, PortSide::East),
            CrossingCountSide::West => counter.side_counts(upper, lower, PortSide::West),
        }
    } else {
        (
            clamp_i32(
                (counter.side_counts(upper, lower, PortSide::West).0 + counter.side_counts(
                    upper,
                    lower,
                    PortSide::East,
                ).0) as nat,
            ),
            clamp_i32(
                (counter.side_counts(upper, lower, PortSide::West).1 + counter.side_counts(
                    upper,
                    lower,
                    PortSide::East,
                ).1) as nat,
            ),
        )
    }
}

/// Writes one entry of a matrix.
fn set_entry<T>(m: &mut Vec<Vec<T>>, a: usize, b: usize, x: T)
    requires
        a < old(m)@.len(),
        b < old(m)@[a as int]@.len(),
    ensures
        final(m)@.len() == old(m)@.len(),
        forall|k: int| 0 <= k < old(m)@.len() && k != a ==> #[trigger] final(m)@[k] == old(m)@[k],
        final(m)@[a as int]@ == old(m)@[a as int]@.update(b as int, x),
{
    let mut row = m.remove(a);
    row.set(b, x);
    m.insert(a, row);
}

/// Fills the crossing matrix of the free layer lazily, one pair at a time.
pub struct CrossingMatrixFiller {
    is_crossing_matrix_filled: Vec<Vec<bool>>,
    crossing_matrix: Vec<Vec<i32>>,
    in_between_layer_crossing_counter: BetweenLayerEdgeTwoNodeCrossingsCounter,
    direction: CrossingCountSide,
    one_sided: bool,
    free_layer: Ghost<Seq<usize>>,
}

impl CrossingMatrixFiller {
    /// The nodes of the free layer, indexed by their ids.
    pub closed spec fn free_layer(&self) -> Seq<usize> {
        self.free_layer@
    }

    /// The counter that fills the matrix.
    pub closed spec fn counter(&self) -> BetweenLayerEdgeTwoNodeCrossingsCounter {
        self.in_between_layer_crossing_counter
    }

    /// Whether only one side is counted, and which.
    pub closed spec fn mode(&self) -> (bool, CrossingCountSide) {
        (self.one_sided, self.direction)
    }

    /// The matrix is square over the free layer and every filled entry holds
    /// the count of the nodes its indices name.
    pub closed spec fn inv(&self) -> bool {
        let n = self.free_layer@.len();
        &&& self.in_between_layer_crossing_counter.inv()
        &&& self.is_crossing_matrix_filled@.len() == n
        &&& self.crossing_matrix@.len() == n
        &&& forall|a: int|
            0 <= a < n ==> (#[trigger] self.is_crossing_matrix_filled@[a])@.len() == n
                && self.crossing_matrix@[a]@.len() == n
        &&& forall|a: int, b: int|
            0 <= a < n && 0 <= b < n && #[trigger] self.is_crossing_matrix_filled@[a]@[b]
                ==> self.crossing_matrix@[a]@[b] == fresh_counts(
                self.in_between_layer_crossing_counter,
                self.one_sided,
                self.direction,
                self.free_layer@[a],
                self.free_layer@[b],
            ).0
    }

    /// Every node of the free layer carries its index as id.
    pub open spec fn ids_match(&self, g: &LGraph) -> bool {
        forall|k: int|
            0 <= k < self.free_layer().len() ==> #[trigger] self.free_layer()[k] < g.nodes@.len()
                && g.nodes@[self.free_layer()[k] as int].id == k
    }

    /// A filler for the layer `free_layer_index` of `graph`.
    pub fn new(
        g: &LGraph,
        greedy_switch_type: CrossMinType,
        graph: &Vec<Vec<usize>>,
        free_layer_index: usize,
        direction: CrossingCountSide,
    ) -> (res: Self)
        requires
            g.wf(),
            order_in_graph(g, graph@),
        ensures
            res.inv(),
            res.mode() == (greedy_switch_type == CrossMinType::OneSidedGreedySwitch, direction),
            res.free_layer() == if free_layer_index < graph@.len() {
                graph@[free_layer_index as int]@
            } else {
                Seq::empty()
            },
    {
        let one_sided = greedy_switch_type == CrossMinType::OneSidedGreedySwitch;
        let free_layer_len = if free_layer_index < graph.len() {
            graph[free_layer_index].len()
        } else {
            0
        };
        let ghost free: Seq<usize> = if free_layer_index < graph@.len() {
            graph@[free_layer_index as int]@
        } else {
            Seq::empty()
        };
        let mut is_crossing_matrix_filled: Vec<Vec<bool>> = Vec::new();
        let mut crossing_matrix: Vec<Vec<i32>> = Vec::new();
        let mut a: usize = 0;
        while a < free_layer_len
            invariant
                a <= free_layer_len,
                is_crossing_matrix_filled@.len() == a,
                crossing_matrix@.len() == a,
                forall|k: int|
                    0 <= k < a ==> (#[trigger] is_crossing_matrix_filled@[k])@.len()
                        == free_layer_len && crossing_matrix@[k]@.len() == free_layer_len,
                forall|k: int, m: int|
                    0 <= k < a && 0 <= m < free_layer_len ==> !(
                    #[trigger] is_crossing_matrix_filled@[k]@[m]),
            decreases free_layer_len - a,
        {
            let mut filled_row: Vec<bool> = Vec::new();
            let mut row: Vec<i32> = Vec::new();
            let mut b: usize = 0;
            while b < free_layer_len
                invariant
                    b <= free_layer_len,
                    filled_row@.len() == b,
                    row@.len() == b,
                    forall|m: int| 0 <= m < b ==> !(#[trigger] filled_row@[m]),
                decreases free_layer_len - b,
            {
                filled_row.push(false);
                row.push(0);
                b += 1;
            }
            is_crossing_matrix_filled.push(filled_row);
            crossing_matrix.push(row);
            a += 1;
        }
        let counter = BetweenLayerEdgeTwoNodeCrossingsCounter::new(
            g,
            graph.clone(),
            free_layer_index,
        );
        CrossingMatrixFiller {
            is_crossing_matrix_filled,
            crossing_matrix,
            in_between_layer_crossing_counter: counter,
            direction,
            one_sided,
            free_layer: Ghost(free),
        }
    }

    /// Counts the crossings of the two nodes with the counter.
    fn fill_crossing_matrix(&mut self, upper_node: usize, lower_node: usize)
        requires
            old(self).inv(),
        ensures
            final(self).counter().inv(),
            final(self).counter().same_setup(&old(self).counter()),
            final(self).counter().counts() == fresh_counts(
                old(self).counter(),
                old(self).mode().0,
                old(self).mode().1,
                upper_node,
                lower_node,
            ),
            final(self).is_crossing_matrix_filled == old(self).is_crossing_matrix_filled,
            final(self).crossing_matrix == old(self).crossing_matrix,
            final(self).free_layer == old(self).free_layer,
            final(self).mode() == old(self).mode(),
    {
        if self.one_sided {
            match self.direction {
                CrossingCountSide::East => {
                    self.in_between_layer_crossing_counter.count_eastern_edge_crossings(
                        upper_node,
                        lower_node,
                    );
                },
                CrossingCountSide::West => {
                    self.in_between_layer_crossing_counter.count_western_edge_crossings(
                        upper_node,
                        lower_node,
                    );
                },
            }
        } else {
            self.in_between_layer_crossing_counter.count_both_side_crossings(upper_node, lower_node);
        }
    }

    /// Whether the id of node `n` indexes the matrix.
    pub open spec fn in_matrix(&self, g: &LGraph, n: usize) -> bool {
        0 <= g.nodes@[n as int].id < self.free_layer().len()
    }

    /// A node whose id indexes the matrix is the node of the free layer at
    /// that index.
    pub open spec fn id_names(&self, g: &LGraph, n: usize) -> bool {
        self.in_matrix(g, n) ==> self.free_layer()[g.nodes@[n as int].id as int] == n
    }

    /// The number of crossings between the edges of the two nodes to the
    /// neighbouring layers when `upper_node` is placed above `lower_node`;
    /// computed once per pair and then looked up. A node whose id does not
    /// index the matrix has no entry: the answer is then 0.
    pub fn crossing_matrix_entry(&mut self, g: &LGraph, upper_node: usize, lower_node: usize) -> (res:
        i32)
        requires
            old(self).inv(),
            upper_node < g.nodes@.len(),
            lower_node < g.nodes@.len(),
            old(self).id_names(g, upper_node),
            old(self).id_names(g, lower_node),
        ensures
            final(self).inv(),
            final(self).free_layer() == old(self).free_layer(),
            final(self).mode() == old(self).mode(),
            final(self).counter().same_setup(&old(self).counter()),
            res == if old(self).in_matrix(g, upper_node) && old(self).in_matrix(g, lower_node) {
                fresh_counts(
                    old(self).counter(),
                    old(self).mode().0,
                    old(self).mode().1,
                    upper_node,
                    lower_node,
                ).0
            } else {
                0
            },
    {
        proof {
            self.in_between_layer_crossing_counter.lemma_same_setup_refl();
        }
        let upper_id = g.nodes[upper_node].id;
        let lower_id = g.nodes[lower_node].id;
        let n = self.is_crossing_matrix_filled.len();
        if upper_id < 0 || lower_id < 0 || upper_id as usize >= n || lower_id as usize >= n {
            return 0;
        }
        let a = upper_id as usize;
        let b = lower_id as usize;
        proof {
            self.in_between_layer_crossing_counter.lemma_same_setup_refl();
            assert(self.is_crossing_matrix_filled@[a as int]@.len() == n);
            assert(self.is_crossing_matrix_filled@[b as int]@.len() == n);
        }
        if !self.is_crossing_matrix_filled[a][b] {
            let ghost old_counter = self.in_between_layer_crossing_counter;
            let ghost old_filled = self.is_crossing_matrix_filled@;
            let ghost old_matrix = self.crossing_matrix@;
            self.fill_crossing_matrix(upper_node, lower_node);
            proof {
                self.in_between_layer_crossing_counter.lemma_same_setup_counts(&old_counter);
            }
            let ul = self.in_between_layer_crossing_counter.upper_lower_crossings();
            let lu = self.in_between_layer_crossing_counter.lower_upper_crossings();
            set_entry(&mut self.crossing_matrix, a, b, ul);
            assert(self.crossing_matrix@[b as int]@.len() == n);
            set_entry(&mut self.crossing_matrix, b, a, lu);
            set_entry(&mut self.is_crossing_matrix_filled, a, b, true);
            assert(self.is_crossing_matrix_filled@[b as int]@.len() == n);
            set_entry(&mut self.is_crossing_matrix_filled, b, a, true);
            assert(fresh_counts(old_counter, self.one_sided, self.direction, lower_node, upper_node).0
                == lu);
            proof {
                let nl = self.free_layer@.len();
                assert forall|x: int| 0 <= x < nl implies (
                #[trigger] self.is_crossing_matrix_filled@[x])@.len() == nl
                    && self.crossing_matrix@[x]@.len() == nl by {
                    assert(old_filled[x]@.len() == nl);
                    assert(old_matrix[x]@.len() == nl);
                }
                assert forall|x: int, y: int|
                    0 <= x < nl && 0 <= y < nl && #[trigger] self.is_crossing_matrix_filled@[x]@[y]
                        implies self.crossing_matrix@[x]@[y] == fresh_counts(
                        self.in_between_layer_crossing_counter,
                        self.one_sided,
                        self.direction,
                        self.free_layer@[x],
                        self.free_layer@[y],
                    ).0 by {
                    assert(fresh_counts(
                        self.in_between_layer_crossing_counter,
                        self.one_sided,
                        self.direction,
                        self.free_layer@[x],
                        self.free_layer@[y],
                    ) == fresh_counts(
                        old_counter,
                        self.one_sided,
                        self.direction,
                        self.free_layer@[x],
                        self.free_layer@[y],
                    ));
                    if x == b && y == a {
                    } else if x == a && y == b {
                    } else {
                        assert(old_filled[x]@[y]);
                    }
                }
            }
        }
        self.crossing_matrix[a][b]
    }
}

} // verus!

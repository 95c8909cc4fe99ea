//! Summary statistics of a graph. Means are returned exact, as a total and a
//! count; dividing the one by the other is left to the caller.

use vstd::prelude::*;
use crate::depth::{depth, lemma_depth_step, ordered};
use crate::graph::{Graph, single_root};
use crate::node::NodeView;

verus! {

/// A mean, kept exact: the sum of the values and the number of values.
#[derive(Debug, Clone, Copy, PartialEq, Eq, Structural)]
pub struct Average {
    pub total: i128,
    pub count: u64,
}

/// A leaf is a node to which no node refers.
pub open spec fn is_leaf(node: NodeView) -> bool {
    node.children.len() == 0
}

/// The leaves of the store, the root among them if nothing refers to it.
pub open spec fn leaves(g: Seq<NodeView>) -> Seq<NodeView> {
    g.filter(|node: NodeView| is_leaf(node))
}

/// The sum of the depths of the first `count` nodes.
pub open spec fn depth_total(g: Seq<NodeView>, count: nat) -> nat
    decreases count,
{
    if count == 0 {
        0
    } else {
        depth_total(g, (count - 1) as nat) + depth(g, count - 1)
    }
}

/// The number of children of the first `count` nodes taken together, the root
/// left out.
pub open spec fn children_total(g: Seq<NodeView>, count: nat) -> nat
    decreases count,
{
    if count <= 1 {
        0
    } else {
        children_total(g, (count - 1) as nat) + g[count - 1].children.len()
    }
}

/// The number of depth levels met when the first `count` nodes are gone through
/// in the order of the store: a level is met at every node after the root
/// whose depth differs from that of the node before it.
pub open spec fn level_total(g: Seq<NodeView>, count: nat) -> nat
    decreases count,
{
    if count <= 1 {
        0
    } else {
        level_total(g, (count - 1) as nat) + if depth(g, count - 1) != depth(g, count - 2) {
            1nat
        } else {
            0nat
        }
    }
}

/// Some node after the root among the first `count` nodes has depth `level`.
pub open spec fn has_level(g: Seq<NodeView>, count: nat, level: nat) -> bool {
    exists|i: int| 1 <= i < count && #[trigger] depth(g, i) == level
}

/// The depth levels on which the nodes after the root among the first `count`
/// nodes lie.
pub open spec fn levels(g: Seq<NodeView>, count: nat) -> Set<nat> {
    Set::new(|level: nat| has_level(g, count, level))
}

/// No node lies less deep than a node before it.
pub open spec fn rising(g: Seq<NodeView>) -> bool {
    forall|i: int, j: int| 0 <= i <= j < g.len() ==> depth(g, i) <= depth(g, j)
}

/// Where the depths never fall along the store, going through the nodes meets
/// every depth level once: the number of levels met is the number of distinct
/// levels, and it is the depth of the last node.
pub proof fn lemma_levels_when_rising(g: Seq<NodeView>, count: nat)
    requires
        ordered(g),
        single_root(g),
        rising(g),
        1 <= count <= g.len(),
    ensures
        levels(g, count).finite(),
        levels(g, count).len() == level_total(g, count),
        level_total(g, count) == depth(g, count - 1),
    decreases count,
{
    let all = levels(g, count);
    lemma_depth_step(g, 0);
    if count == 1 {
        assert(all =~= Set::<nat>::empty());
    } else {
        let last = count - 1;
        let fewer = levels(g, last as nat);
        lemma_levels_when_rising(g, last as nat);
        lemma_depth_step(g, last);
        let level = depth(g, last);
        let j = choose|j: int|
            0 <= j < g[last].parents.len() && depth(g, last) == 1 + depth(
                g,
                #[trigger] g[last].parents[j] as int,
            );
        assert(g[last].parents[j] < last);
        assert(depth(g, g[last].parents[j] as int) <= depth(g, last - 1));
        assert(depth(g, last - 1) <= level <= depth(g, last - 1) + 1);
        assert(has_level(g, count, level));
        assert forall|other: nat| all.contains(other) <==> (fewer.contains(other) || other == level) by {
            if has_level(g, count, other) {
                let i = choose|i: int| 1 <= i < count && #[trigger] depth(g, i) == other;
                if i < last {
                    assert(has_level(g, last as nat, other));
                }
            }
            if has_level(g, last as nat, other) {
                let i = choose|i: int| 1 <= i < last && #[trigger] depth(g, i) == other;
                assert(has_level(g, count, other));
            }
        }
        assert(all =~= fewer.insert(level));
        if level != depth(g, last - 1) {
            if has_level(g, last as nat, level) {
                let i = choose|i: int| 1 <= i < last && #[trigger] depth(g, i) == level;
                assert(depth(g, i) <= depth(g, last - 1));
            }
            assert(!fewer.contains(level));
        } else {
            if last >= 2 {
                assert(has_level(g, last as nat, level));
            }
        }
    }
}

impl Graph {
    /// The number of leaves.
    pub fn get_num_of_leaf(&self) -> (number: u32)
        ensures
            number == leaves(self@).len(),
    {
        proof {
            use_type_invariant(self);
        }
        let count = self.node_count();
        let mut number: u32 = 0;
        let mut n: usize = 0;
        assert(self@.take(0) =~= Seq::<NodeView>::empty());
        proof {
            reveal(Seq::filter);
        }
        while n < count
            invariant
                n <= count == self@.len() <= u32::MAX,
                number == leaves(self@.take(n as int)).len(),
                number <= n,
            decreases count - n,
        {
            proof {
                assert(self@.take(n + 1) =~= self@.take(n as int).push(self@[n as int]));
                self@.take(n as int).lemma_filter_len_push(|node: NodeView| is_leaf(node), self@[n as int]);
            }
            if self.node(n as u32).children().len() == 0 {
                number += 1;
            }
            n += 1;
        }
        assert(self@.take(count as int) =~= self@);
        number
    }

    /// The mean number of references per node, by its closed form: each node
    /// but the root is described with two references, so `count` nodes make
    /// `2 * (count - 1)` references.
    pub fn get_avg_reference_per_node(&self) -> (mean: Average)
        ensures
            mean.total == 2 * (self@.len() - 1),
            mean.count == self@.len(),
    {
        proof {
            use_type_invariant(self);
        }
        let count = self.node_count();
        Average { total: 2 * (count as i128 - 1), count: count as u64 }
    }

    /// The mean depth of all nodes, the root included.
    pub fn get_avg_depth(&self) -> (mean: Average)
        requires
            ordered(self@),
        ensures
            mean.total == depth_total(self@, self@.len()),
            mean.count == self@.len(),
    {
        proof {
            use_type_invariant(self);
        }
        let depths = self.depths();
        let count = self.node_count();
        let mut total: i128 = 0;
        let mut n: usize = 0;
        while n < count
            invariant
                n <= count == self@.len() <= u32::MAX,
                depths@.len() == count,
                forall|i: int| 0 <= i < count ==> (#[trigger] depths@[i]) == depth(self@, i),
                total == depth_total(self@, n as nat),
                total <= n * u32::MAX,
            decreases count - n,
        {
            assert((n + 1) * u32::MAX == n * u32::MAX + u32::MAX) by (nonlinear_arith);
            assert(n * u32::MAX <= u32::MAX * u32::MAX) by (nonlinear_arith)
                requires
                    n <= u32::MAX,
            ;
            total = total + depths[n] as i128;
            n += 1;
        }
        Average { total, count: count as u64 }
    }

    /// The mean number of children per depth level: the children of all nodes
    /// but the root, divided among the depth levels met while the nodes are
    /// gone through in the order of the store. A level counts again each time
    /// the depth changes from one node to the next.
    pub fn get_avg_tx_per_depth(&self) -> (mean: Average)
        requires
            ordered(self@),
        ensures
            mean.total == children_total(self@, self@.len()),
            mean.count == level_total(self@, self@.len()),
    {
        proof {
            use_type_invariant(self);
        }
        let depths = self.depths();
        let count = self.node_count();
        let mut total: i128 = 0;
        let mut levels: u64 = 0;
        if count == 0 {
            return Average { total, count: levels };
        }
        let mut n: usize = 1;
        while n < count
            invariant
                1 <= n <= count == self@.len() <= u32::MAX,
                depths@.len() == count,
                forall|i: int| 0 <= i < count ==> (#[trigger] depths@[i]) == depth(self@, i),
                total == children_total(self@, n as nat),
                total <= n * usize::MAX,
                levels == level_total(self@, n as nat),
                levels <= n,
            decreases count - n,
        {
            assert((n + 1) * usize::MAX == n * usize::MAX + usize::MAX) by (nonlinear_arith);
            assert(n * usize::MAX <= u32::MAX * u64::MAX) by (nonlinear_arith)
                requires
                    n <= u32::MAX,
                    usize::MAX <= u64::MAX,
            ;
            if depths[n] != depths[n - 1] {
                levels += 1;
            }
            total = total + self.node(n as u32).children().len() as i128;
            n += 1;
        }
        Average { total, count: levels }
    }
}


/// Counting the leaves of a graph again gives the same number.
pub proof fn lemma_num_of_leaf_repeats(graph: Graph, first: u32, second: u32)
    requires
        call_ensures(Graph::get_num_of_leaf, (&graph,), first),
        call_ensures(Graph::get_num_of_leaf, (&graph,), second),
    ensures
        first == second,
{
}

/// Asking for the mean number of references again gives the same mean.
pub proof fn lemma_avg_reference_per_node_repeats(graph: Graph, first: Average, second: Average)
    requires
        call_ensures(Graph::get_avg_reference_per_node, (&graph,), first),
        call_ensures(Graph::get_avg_reference_per_node, (&graph,), second),
    ensures
        first == second,
{
}

/// Asking for the mean depth again gives the same mean.
pub proof fn lemma_avg_depth_repeats(graph: Graph, first: Average, second: Average)
    requires
        call_ensures(Graph::get_avg_depth, (&graph,), first),
        call_ensures(Graph::get_avg_depth, (&graph,), second),
    ensures
        first == second,
{
}

/// Asking for the mean number of children per depth level again gives the
/// same mean.
pub proof fn lemma_avg_tx_per_depth_repeats(graph: Graph, first: Average, second: Average)
    requires
        call_ensures(Graph::get_avg_tx_per_depth, (&graph,), first),
        call_ensures(Graph::get_avg_tx_per_depth, (&graph,), second),
    ensures
        first == second,
{
}

} // verus!

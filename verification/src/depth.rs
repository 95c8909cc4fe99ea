//! The depth of a node: the number of references on the shortest way from the
//! node back to the root.

use vstd::prelude::*;
use crate::graph::{Graph, has_parent};
use crate::node::NodeView;

verus! {

/// Every node refers only to nodes before it. A store in this order has no
/// cycle, and its first node has no parent.
pub open spec fn ordered(g: Seq<NodeView>) -> bool {
    forall|i: int, j: int|
        0 <= i < g.len() && 0 <= j < g[i].parents.len() ==> (#[trigger] g[i].parents[j]) < i
}

/// The depth of node `n`: 0 for a node without parents, and otherwise one more
/// than the least depth among its parents.
pub open spec fn depth(g: Seq<NodeView>, n: int) -> nat
    decreases n, 1nat, 0nat,
{
    if 0 <= n < g.len() && g[n].parents.len() > 0 {
        1 + least_parent_depth(g, n, g[n].parents.len())
    } else {
        0
    }
}

/// The least depth among the first `count` parents of node `n`. Only parents
/// that come before `n` are looked at; in an ordered store these are all.
pub open spec fn least_parent_depth(g: Seq<NodeView>, n: int, count: nat) -> nat
    decreases n, 0nat, count,
{
    if 0 <= n < g.len() && 1 <= count <= g[n].parents.len() {
        let parent = g[n].parents[count - 1] as int;
        let here = if parent < n {
            depth(g, parent)
        } else {
            0
        };
        if count == 1 {
            here
        } else {
            let before = least_parent_depth(g, n, (count - 1) as nat);
            if here < before {
                here
            } else {
                before
            }
        }
    } else {
        0
    }
}

/// The least depth among the first `count` parents is the depth of one of
/// them, and no greater than the depth of any of them.
pub proof fn lemma_least_parent_depth(g: Seq<NodeView>, n: int, count: nat)
    requires
        ordered(g),
        0 <= n < g.len(),
        1 <= count <= g[n].parents.len(),
    ensures
        forall|j: int|
            0 <= j < count ==> least_parent_depth(g, n, count) <= depth(g, #[trigger] g[n].parents[j] as int),
        exists|j: int|
            0 <= j < count && least_parent_depth(g, n, count) == depth(g, #[trigger] g[n].parents[j] as int),
    decreases count,
{
    let last = g[n].parents[count - 1] as int;
    if count == 1 {
        assert(least_parent_depth(g, n, count) == depth(g, g[n].parents[0] as int));
    } else {
        lemma_least_parent_depth(g, n, (count - 1) as nat);
        let before = least_parent_depth(g, n, (count - 1) as nat);
        if depth(g, last) < before {
            assert(least_parent_depth(g, n, count) == depth(g, g[n].parents[count - 1] as int));
        } else {
            let j = choose|j: int|
                0 <= j < count - 1 && before == depth(g, #[trigger] g[n].parents[j] as int);
            assert(least_parent_depth(g, n, count) == depth(g, g[n].parents[j] as int));
        }
    }
}

/// In an ordered store the root has depth 0, as has every node without
/// parents, and every other node lies exactly one level below the shallowest
/// of its parents.
pub proof fn lemma_depth_step(g: Seq<NodeView>, n: int)
    requires
        ordered(g),
        0 <= n < g.len(),
    ensures
        depth(g, 0) == 0,
        g[n].parents.len() == 0 ==> depth(g, n) == 0,
        g[n].parents.len() > 0 ==> {
            &&& forall|j: int|
                0 <= j < g[n].parents.len() ==> depth(g, n) <= 1 + depth(g, #[trigger] g[n].parents[j] as int)
            &&& exists|j: int|
                0 <= j < g[n].parents.len() && depth(g, n) == 1 + depth(
                    g,
                    #[trigger] g[n].parents[j] as int,
                )
        },
{
    if g[0].parents.len() > 0 {
        assert(g[0].parents[0] < 0);
    }
    if g[n].parents.len() > 0 {
        lemma_least_parent_depth(g, n, g[n].parents.len());
        let j = choose|j: int|
            0 <= j < g[n].parents.len() && least_parent_depth(g, n, g[n].parents.len()) == depth(
                g,
                #[trigger] g[n].parents[j] as int,
            );
        assert(depth(g, n) == 1 + depth(g, g[n].parents[j] as int));
    }
}

/// In an ordered store no node lies deeper than its position.
pub proof fn lemma_depth_bound(g: Seq<NodeView>, n: int)
    requires
        ordered(g),
    ensures
        depth(g, n) <= if n < 0 { 0 } else { n },
    decreases n,
{
    if 0 <= n < g.len() && g[n].parents.len() > 0 {
        lemma_least_parent_depth(g, n, g[n].parents.len());
        let first = g[n].parents[0] as int;
        lemma_depth_bound(g, first);
    }
}

/// `path` starts at some node, goes from each node to one of its parents, and
/// ends at a node without parents.
pub open spec fn leads_to_root(g: Seq<NodeView>, path: Seq<int>) -> bool {
    &&& path.len() > 0
    &&& forall|k: int| 0 <= k < path.len() ==> 0 <= #[trigger] path[k] < g.len()
    &&& forall|k: int| #![trigger path[k]] 1 <= k < path.len() ==> has_parent(g, path[k - 1], path[k])
    &&& g[path.last()].parents.len() == 0
}

/// In an ordered store no way from a node to a node without parents takes
/// fewer references than the depth of the node.
pub proof fn lemma_depth_is_least(g: Seq<NodeView>, path: Seq<int>)
    requires
        ordered(g),
        leads_to_root(g, path),
    ensures
        depth(g, path[0]) <= path.len() - 1,
    decreases path.len(),
{
    let n = path[0];
    if path.len() > 1 {
        let rest = path.subrange(1, path.len() as int);
        assert forall|k: int| #![trigger rest[k]] 1 <= k < rest.len() implies has_parent(
            g,
            rest[k - 1],
            rest[k],
        ) by {
            assert(has_parent(g, path[k + 1 - 1], path[k + 1]));
        }
        assert(rest.last() == path.last());
        lemma_depth_is_least(g, rest);
        assert(has_parent(g, path[1 - 1], path[1]));
        let j = choose|j: int| 0 <= j < g[n].parents.len() && g[n].parents[j] == path[1] as u32;
        lemma_depth_step(g, n);
        assert(depth(g, n) <= 1 + depth(g, g[n].parents[j] as int));
    }
}

/// In an ordered store a way leads from every node to a node without parents
/// that takes exactly as many references as the node is deep.
pub proof fn lemma_depth_is_reached(g: Seq<NodeView>, n: int) -> (path: Seq<int>)
    requires
        ordered(g),
        0 <= n < g.len(),
    ensures
        leads_to_root(g, path),
        path[0] == n,
        path.len() - 1 == depth(g, n),
    decreases n,
{
    if g[n].parents.len() == 0 {
        seq![n]
    } else {
        lemma_depth_step(g, n);
        let j = choose|j: int|
            0 <= j < g[n].parents.len() && depth(g, n) == 1 + depth(g, #[trigger] g[n].parents[j] as int);
        let parent = g[n].parents[j] as int;
        let rest = lemma_depth_is_reached(g, parent);
        let path = seq![n] + rest;
        assert forall|k: int| #![trigger path[k]] 1 <= k < path.len() implies has_parent(
            g,
            path[k - 1],
            path[k],
        ) by {
            if k == 1 {
                assert(path[1] == rest[0]);
                assert(g[n].parents[j] == parent as u32);
            } else {
                assert(path[k] == rest[k - 1]);
                assert(path[k - 1] == rest[k - 1 - 1]);
                assert(has_parent(g, rest[k - 1 - 1], rest[k - 1]));
            }
        }
        assert(path.last() == rest.last());
        path
    }
}

impl Graph {
    /// Tells whether every node refers only to nodes before it.
    pub fn is_ordered(&self) -> (yes: bool)
        ensures
            yes == ordered(self@),
    {
        let count = self.node_count();
        proof {
            use_type_invariant(self);
        }
        let mut n: usize = 0;
        while n < count
            invariant
                n <= count == self@.len() <= u32::MAX,
                forall|i: int, j: int|
                    0 <= i < n && 0 <= j < self@[i].parents.len() ==> (#[trigger] self@[i].parents[j]) < i,
            decreases count - n,
        {
            let parents = self.node(n as u32).parents();
            let mut j: usize = 0;
            while j < parents.len()
                invariant
                    j <= parents@.len(),
                    n < count == self@.len() <= u32::MAX,
                    parents@ == self@[n as int].parents,
                    forall|m: int| 0 <= m < j ==> (#[trigger] parents@[m]) < n,
                decreases parents.len() - j,
            {
                if parents[j] as usize >= n {
                    assert(!(self@[n as int].parents[j as int] < n));
                    return false;
                }
                j += 1;
            }
            n += 1;
        }
        true
    }

    /// The depths of the first `count` nodes, each computed once, in the order
    /// of the store.
    fn first_depths(&self, count: usize) -> (depths: Vec<u32>)
        requires
            ordered(self@),
            count <= self@.len(),
        ensures
            depths@.len() == count,
            forall|i: int| 0 <= i < count ==> (#[trigger] depths@[i]) == depth(self@, i),
    {
        proof {
            use_type_invariant(self);
        }
        let mut depths: Vec<u32> = Vec::new();
        let mut n: usize = 0;
        while n < count
            invariant
                n <= count <= self@.len() <= u32::MAX,
                ordered(self@),
                depths@.len() == n,
                forall|i: int| 0 <= i < n ==> (#[trigger] depths@[i]) == depth(self@, i),
            decreases count - n,
        {
            let parents = self.node(n as u32).parents();
            let mut least: u32 = 0;
            let mut j: usize = 0;
            while j < parents.len()
                invariant
                    j <= parents@.len(),
                    n < self@.len() <= u32::MAX,
                    ordered(self@),
                    parents@ == self@[n as int].parents,
                    depths@.len() == n,
                    forall|i: int| 0 <= i < n ==> (#[trigger] depths@[i]) == depth(self@, i),
                    j > 0 ==> least == least_parent_depth(self@, n as int, j as nat),
                decreases parents.len() - j,
            {
                assert(self@[n as int].parents[j as int] < n);
                let here: u32 = depths[parents[j] as usize];
                if j == 0 || here < least {
                    least = here;
                }
                j += 1;
            }
            let level: u32 = if parents.len() == 0 {
                0
            } else {
                proof {
                    lemma_depth_bound(self@, n as int);
                }
                least + 1
            };
            depths.push(level);
            n += 1;
        }
        depths
    }

    /// The depth of every node, in the order of the store.
    pub fn depths(&self) -> (depths: Vec<u32>)
        requires
            ordered(self@),
        ensures
            depths@.len() == self@.len(),
            forall|i: int| 0 <= i < self@.len() ==> (#[trigger] depths@[i]) == depth(self@, i),
    {
        self.first_depths(self.node_count())
    }

    /// The depth of node `node_id`: the number of references on the shortest
    /// way from the node to the root.
    pub fn get_depth(&self, node_id: u32) -> (level: u32)
        requires
            ordered(self@),
            node_id < self@.len(),
        ensures
            level == depth(self@, node_id as int),
    {
        proof {
            use_type_invariant(self);
        }
        let depths = self.first_depths(node_id as usize + 1);
        depths[node_id as usize]
    }
}

} // verus!

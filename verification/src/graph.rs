//! The node store: a dense, append-only collection of node records in which
//! every reference is recorded on both of its ends.

use vstd::prelude::*;
use crate::error::GraphError;
use crate::node::{Node, NodeView, add_unique, fresh_node, lemma_add_unique, node_wf};

verus! {

/// Node `child` lists node `parent` among its parents.
pub open spec fn has_parent(g: Seq<NodeView>, child: int, parent: int) -> bool {
    &&& 0 <= child < g.len()
    &&& 0 <= parent <= u32::MAX
    &&& g[child].parents.contains(parent as u32)
}

/// Node `parent` lists node `child` among its children.
pub open spec fn has_child(g: Seq<NodeView>, parent: int, child: int) -> bool {
    &&& 0 <= parent < g.len()
    &&& 0 <= child <= u32::MAX
    &&& g[parent].children.contains(child as u32)
}

/// Every identifier in `ids` is smaller than `bound`.
pub open spec fn ids_below(ids: Seq<u32>, bound: nat) -> bool {
    forall|j: int| 0 <= j < ids.len() ==> (#[trigger] ids[j] as nat) < bound
}

/// The invariant of the node store.
///
/// Identifiers are dense and equal to positions, no adjacency list names a
/// node twice or names a node that the store does not hold, and a reference is
/// recorded at the child exactly when it is recorded at the parent.
pub open spec fn well_formed(g: Seq<NodeView>) -> bool {
    &&& g.len() <= u32::MAX
    &&& forall|i: int| 0 <= i < g.len() ==> (#[trigger] g[i]).id == i
    &&& forall|i: int| 0 <= i < g.len() ==> node_wf(#[trigger] g[i])
    &&& forall|i: int| 0 <= i < g.len() ==> ids_below((#[trigger] g[i]).parents, g.len())
    &&& forall|i: int| 0 <= i < g.len() ==> ids_below((#[trigger] g[i]).children, g.len())
    &&& forall|c: int, p: int|
        #![trigger has_parent(g, c, p)]
        #![trigger has_child(g, p, c)]
        has_parent(g, c, p) <==> has_child(g, p, c)
}

/// Exactly one node, the first, has no parent.
pub open spec fn single_root(g: Seq<NodeView>) -> bool {
    &&& g.len() > 0
    &&& forall|i: int| 0 <= i < g.len() ==> ((#[trigger] g[i]).parents.len() == 0 <==> i == 0)
}

/// The store after the reference from `child` to `parent` has been recorded:
/// `parent` joins the parents of `child`, and `child` the children of `parent`.
pub open spec fn linked(g: Seq<NodeView>, child: u32, parent: u32) -> Seq<NodeView> {
    let at_child = g.update(
        child as int,
        NodeView { parents: add_unique(g[child as int].parents, parent), ..g[child as int] },
    );
    at_child.update(
        parent as int,
        NodeView {
            children: add_unique(at_child[parent as int].children, child),
            ..at_child[parent as int]
        },
    )
}

/// Recording a reference between two nodes of a valid store leaves it valid.
pub proof fn lemma_linked_well_formed(g: Seq<NodeView>, child: u32, parent: u32)
    requires
        well_formed(g),
        child < g.len(),
        parent < g.len(),
    ensures
        well_formed(linked(g, child, parent)),
        linked(g, child, parent).len() == g.len(),
{
    let c = child as int;
    let p = parent as int;
    let h = linked(g, child, parent);
    lemma_add_unique(g[c].parents, parent);
    lemma_add_unique(g[p].children, child);
    assert forall|i: int| 0 <= i < h.len() implies ids_below((#[trigger] h[i]).parents, h.len()) by {
        assert(ids_below(g[i].parents, g.len()));
    }
    assert forall|i: int| 0 <= i < h.len() implies ids_below((#[trigger] h[i]).children, h.len()) by {
        assert(ids_below(g[i].children, g.len()));
    }
    assert forall|i: int| 0 <= i < h.len() implies node_wf(#[trigger] h[i]) by {
        assert(node_wf(g[i]));
    }
    assert forall|x: int, y: int|
        #![trigger has_parent(h, x, y)]
        #![trigger has_child(h, y, x)]
        has_parent(h, x, y) <==> has_child(h, y, x) by {
        assert(has_parent(g, x, y) <==> has_child(g, y, x));
        assert(has_parent(h, x, y) <==> (has_parent(g, x, y) || (x == c && y == p)));
        assert(has_child(h, y, x) <==> (has_child(g, y, x) || (x == c && y == p))) by {
            if 0 <= y < g.len() && 0 <= x <= u32::MAX {
                if has_child(g, y, x) {
                    assert(ids_below(g[y].children, g.len()));
                }
            }
        }
    }
}

/// A directed graph of node records, each of which refers to earlier records.
pub struct Graph {
    nodes: Vec<Node>,
}

impl View for Graph {
    type V = Seq<NodeView>;

    closed spec fn view(&self) -> Seq<NodeView> {
        self.nodes@.map_values(|node: Node| node@)
    }
}

impl Clone for Graph {
    fn clone(&self) -> (copy: Self)
        ensures
            copy@ == self@,
    {
        proof {
            use_type_invariant(self);
        }
        let mut nodes: Vec<Node> = Vec::new();
        let mut i: usize = 0;
        while i < self.nodes.len()
            invariant
                i <= self.nodes.len(),
                nodes@.len() == i,
                forall|j: int| 0 <= j < i ==> (#[trigger] nodes@[j])@ == self.nodes@[j]@,
            decreases self.nodes.len() - i,
        {
            nodes.push(self.nodes[i].clone());
            i += 1;
        }
        assert(nodes@.map_values(|node: Node| node@) =~= self@);
        Graph { nodes }
    }
}

impl Graph {
    /// The store satisfies its invariant at all times.
    #[verifier::type_invariant]
    pub open spec fn wf(self) -> bool {
        well_formed(self@)
    }

    /// Creates an empty store.
    pub fn new() -> (graph: Self)
        ensures
            graph@ == Seq::<NodeView>::empty(),
    {
        let graph = Graph { nodes: Vec::new() };
        assert(graph@ =~= Seq::<NodeView>::empty());
        graph
    }

    /// The number of nodes in the store.
    pub fn node_count(&self) -> (count: usize)
        ensures
            count == self@.len(),
    {
        self.nodes.len()
    }

    /// The record of node `id`.
    pub fn node(&self, id: u32) -> (node: &Node)
        requires
            id < self@.len(),
        ensures
            node@ == self@[id as int],
    {
        &self.nodes[id as usize]
    }

    /// Appends a node without references. The identifier must be the next free
    /// one, so that identifiers stay equal to positions; the first node added,
    /// with identifier 0, is the root.
    pub fn add_node(&mut self, id: u32, timestamp: u64)
        requires
            id == old(self)@.len(),
            id < u32::MAX,
        ensures
            final(self)@ == old(self)@.push(fresh_node(id, timestamp)),
    {
        proof {
            use_type_invariant(&*self);
        }
        let ghost before = self@;
        let mut nodes = Vec::new();
        std::mem::swap(&mut nodes, &mut self.nodes);
        nodes.push(Node::new(id, timestamp));
        proof {
            let after = nodes@.map_values(|node: Node| node@);
            assert(after =~= before.push(fresh_node(id, timestamp)));
            lemma_push_fresh_well_formed(before, timestamp);
        }
        self.nodes = nodes;
    }

    /// Records that node `child_id` refers to node `parent_id`, on both nodes.
    /// A reference that is already recorded is not recorded again. Fails, and
    /// changes nothing, when either identifier names no node of the store.
    pub fn link(&mut self, child_id: u32, parent_id: u32) -> (outcome: Result<(), GraphError>)
        ensures
            outcome is Ok <==> (child_id < old(self)@.len() && parent_id < old(self)@.len()),
            outcome is Ok ==> final(self)@ == linked(old(self)@, child_id, parent_id),
            outcome is Err ==> outcome == Err::<(), GraphError>(GraphError::InvalidReference)
                && final(self)@ == old(self)@,
    {
        proof {
            use_type_invariant(&*self);
        }
        let count = self.nodes.len();
        if child_id as usize >= count || parent_id as usize >= count {
            return Err(GraphError::InvalidReference);
        }
        let ghost before = self@;
        let mut nodes = Vec::new();
        std::mem::swap(&mut nodes, &mut self.nodes);
        nodes[child_id as usize].add_parent(parent_id);
        nodes[parent_id as usize].add_child(child_id);
        proof {
            let after = nodes@.map_values(|node: Node| node@);
            assert(after =~= linked(before, child_id, parent_id));
            lemma_linked_well_formed(before, child_id, parent_id);
        }
        self.nodes = nodes;
        Ok(())
    }
}

/// Appending a node without references to a valid store leaves it valid.
pub proof fn lemma_push_fresh_well_formed(g: Seq<NodeView>, timestamp: u64)
    requires
        well_formed(g),
        g.len() < u32::MAX,
    ensures
        well_formed(g.push(fresh_node(g.len() as u32, timestamp))),
{
    let h = g.push(fresh_node(g.len() as u32, timestamp));
    assert forall|i: int| 0 <= i < h.len() implies ids_below((#[trigger] h[i]).parents, h.len()) by {
        if i < g.len() {
            assert(ids_below(g[i].parents, g.len()));
        }
    }
    assert forall|i: int| 0 <= i < h.len() implies ids_below((#[trigger] h[i]).children, h.len()) by {
        if i < g.len() {
            assert(ids_below(g[i].children, g.len()));
        }
    }
    assert forall|i: int| 0 <= i < h.len() implies node_wf(#[trigger] h[i]) by {
        if i < g.len() {
            assert(node_wf(g[i]));
        }
    }
    assert forall|x: int, y: int|
        #![trigger has_parent(h, x, y)]
        #![trigger has_child(h, y, x)]
        has_parent(h, x, y) <==> has_child(h, y, x) by {
        assert(has_parent(g, x, y) <==> has_child(g, y, x));
        if has_parent(g, x, y) {
            assert(ids_below(g[x].parents, g.len()));
        }
        if has_child(g, y, x) {
            assert(ids_below(g[y].children, g.len()));
        }
    }
}

} // verus!

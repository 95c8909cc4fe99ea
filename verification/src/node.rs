//! Node records: an identifier, a timestamp and the two adjacency lists.

use vstd::prelude::*;

verus! {

/// Mathematical model of a node record.
///
/// `parents` lists the nodes this node refers to and `children` the nodes that
/// refer to it, each in the order in which the reference was recorded.
pub struct NodeView {
    pub id: u32,
    pub timestamp: u64,
    pub parents: Seq<u32>,
    pub children: Seq<u32>,
}

/// The model of a freshly created node: no reference in either direction.
pub open spec fn fresh_node(id: u32, timestamp: u64) -> NodeView {
    NodeView { id, timestamp, parents: Seq::empty(), children: Seq::empty() }
}

/// `ids` with `id` appended, unless `id` is already listed.
pub open spec fn add_unique(ids: Seq<u32>, id: u32) -> Seq<u32> {
    if ids.contains(id) {
        ids
    } else {
        ids.push(id)
    }
}

/// A node record is valid when neither adjacency list names a node twice.
pub open spec fn node_wf(node: NodeView) -> bool {
    node.parents.no_duplicates() && node.children.no_duplicates()
}

/// Adding an identifier with `add_unique` keeps a list free of duplicates, and
/// afterwards the list holds exactly the old entries and the new one.
pub proof fn lemma_add_unique(ids: Seq<u32>, id: u32)
    requires
        ids.no_duplicates(),
    ensures
        add_unique(ids, id).no_duplicates(),
        forall|x: u32| add_unique(ids, id).contains(x) <==> (ids.contains(x) || x == id),
{
    let out = add_unique(ids, id);
    if !ids.contains(id) {
        assert forall|i: int, j: int| 0 <= i < out.len() && 0 <= j < out.len() && i != j implies out[i]
            != out[j] by {
            if i < ids.len() && j < ids.len() {
            } else if i < ids.len() {
                assert(ids.contains(ids[i]));
            } else {
                assert(ids.contains(ids[j]));
            }
        }
        assert forall|x: u32| out.contains(x) <==> (ids.contains(x) || x == id) by {
            if out.contains(x) {
                let i = choose|i: int| 0 <= i < out.len() && out[i] == x;
                if i < ids.len() {
                    assert(ids[i] == x);
                }
            }
            if ids.contains(x) {
                let i = choose|i: int| 0 <= i < ids.len() && ids[i] == x;
                assert(out[i] == x);
            }
            if x == id {
                assert(out[ids.len() as int] == x);
            }
        }
    }
}

/// Tells whether `id` occurs in `ids`.
pub fn contains_id(ids: &Vec<u32>, id: u32) -> (found: bool)
    ensures
        found == ids@.contains(id),
{
    let mut i: usize = 0;
    while i < ids.len()
        invariant
            i <= ids.len(),
            forall|j: int| 0 <= j < i ==> ids@[j] != id,
        decreases ids.len() - i,
    {
        if ids[i] == id {
            return true;
        }
        i += 1;
    }
    false
}

/// A node of the graph.
pub struct Node {
    node_id: u32,
    timestamp: u64,
    parents: Vec<u32>,
    children: Vec<u32>,
}

impl View for Node {
    type V = NodeView;

    closed spec fn view(&self) -> NodeView {
        NodeView {
            id: self.node_id,
            timestamp: self.timestamp,
            parents: self.parents@,
            children: self.children@,
        }
    }
}

impl Clone for Node {
    fn clone(&self) -> (copy: Self)
        ensures
            copy@ == self@,
    {
        proof {
            use_type_invariant(self);
        }
        Node {
            node_id: self.node_id,
            timestamp: self.timestamp,
            parents: self.parents.clone(),
            children: self.children.clone(),
        }
    }
}

impl Node {
    /// Every node record is valid at all times.
    #[verifier::type_invariant]
    pub open spec fn wf(self) -> bool {
        node_wf(self@)
    }

    /// Creates a node with the given identifier and timestamp and no references.
    pub fn new(id: u32, time: u64) -> (node: Self)
        ensures
            node@ == fresh_node(id, time),
    {
        Node { node_id: id, timestamp: time, parents: Vec::new(), children: Vec::new() }
    }

    /// Records `parent_id` as a parent of this node, unless it already is one.
    pub fn add_parent(&mut self, parent_id: u32)
        ensures
            final(self)@ == (NodeView {
                parents: add_unique(old(self)@.parents, parent_id),
                ..old(self)@
            }),
    {
        proof {
            use_type_invariant(&*self);
            lemma_add_unique(self@.parents, parent_id);
        }
        if !contains_id(&self.parents, parent_id) {
            let mut parents = Vec::new();
            std::mem::swap(&mut parents, &mut self.parents);
            parents.push(parent_id);
            self.parents = parents;
        }
    }

    /// Records `child_id` as a child of this node, unless it already is one.
    pub fn add_child(&mut self, child_id: u32)
        ensures
            final(self)@ == (NodeView {
                children: add_unique(old(self)@.children, child_id),
                ..old(self)@
            }),
    {
        proof {
            use_type_invariant(&*self);
            lemma_add_unique(self@.children, child_id);
        }
        if !contains_id(&self.children, child_id) {
            let mut children = Vec::new();
            std::mem::swap(&mut children, &mut self.children);
            children.push(child_id);
            self.children = children;
        }
    }

    /// The node's identifier.
    pub fn id(&self) -> (id: u32)
        ensures
            id == self@.id,
    {
        self.node_id
    }

    /// The node's creation time.
    pub fn timestamp(&self) -> (time: u64)
        ensures
            time == self@.timestamp,
    {
        self.timestamp
    }

    /// The nodes that this node refers to, in the order they were recorded.
    pub fn parents(&self) -> (ids: &Vec<u32>)
        ensures
            ids@ == self@.parents,
    {
        &self.parents
    }

    /// The nodes that refer to this node, in the order they were recorded.
    pub fn children(&self) -> (ids: &Vec<u32>)
        ensures
            ids@ == self@.children,
    {
        &self.children
    }
}

} // verus!

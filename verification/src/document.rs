//! The document that a query runs on: named nodes with entries, each node
//! under the document root or under another node.
//!
//! The nodes of a document are kept in one vector, in document order: each
//! node stands before the nodes below it, and those stand before its next
//! sibling. A node is known by its index there.

use vstd::prelude::*;

verus! {

/// The value of an entry. A float is held as its decimal text.
#[derive(Debug, Clone, PartialEq, Eq)]
pub enum Value {
    String(String),
    Integer(i128),
    Float(String),
    Bool(bool),
    Null,
}

/// An argument of a node, or a property where it has a name.
#[derive(Debug, Clone, PartialEq, Eq)]
pub struct Entry {
    pub name: Option<String>,
    pub value: Value,
}

/// A node of a document.
#[derive(Debug, Clone, PartialEq, Eq)]
pub struct Node {
    pub name: String,
    /// Arguments and properties, in the order in which they were written.
    pub entries: Vec<Entry>,
    /// The node above this one; `None` directly under the document root.
    pub parent: Option<usize>,
    /// Whether the node was written with a block of children, which may be
    /// empty.
    pub has_children: bool,
}

/// A document: its nodes in document order.
#[derive(Debug, Clone, PartialEq, Eq)]
pub struct Document {
    pub nodes: Vec<Node>,
}

/// A place in a document: its root, or one of its nodes.
#[derive(Debug, Clone, Copy, PartialEq, Eq, Structural)]
pub enum Position {
    Root,
    Node(usize),
}

/// What a [`Value`] stands for.
pub enum ValueModel {
    String(Seq<char>),
    Integer(int),
    Float(Seq<char>),
    Bool(bool),
    Null,
}

/// What an [`Entry`] stands for.
pub struct EntryModel {
    pub name: Option<Seq<char>>,
    pub value: ValueModel,
}

/// What a [`Node`] stands for.
pub struct NodeModel {
    pub name: Seq<char>,
    pub entries: Seq<EntryModel>,
    pub parent: Option<usize>,
    pub has_children: bool,
}

impl View for Value {
    type V = ValueModel;

    open spec fn view(&self) -> ValueModel {
        match self {
            Value::String(s) => ValueModel::String(s@),
            Value::Integer(i) => ValueModel::Integer(*i as int),
            Value::Float(s) => ValueModel::Float(s@),
            Value::Bool(b) => ValueModel::Bool(*b),
            Value::Null => ValueModel::Null,
        }
    }
}

impl View for Entry {
    type V = EntryModel;

    open spec fn view(&self) -> EntryModel {
        EntryModel {
            name: match self.name {
                Some(n) => Some(n@),
                None => None,
            },
            value: self.value@,
        }
    }
}

/// The entries of a vector, each as what it stands for.
pub open spec fn entry_views(entries: Seq<Entry>) -> Seq<EntryModel> {
    Seq::new(entries.len(), |k: int| entries[k]@)
}

impl View for Node {
    type V = NodeModel;

    open spec fn view(&self) -> NodeModel {
        NodeModel {
            name: self.name@,
            entries: entry_views(self.entries@),
            parent: self.parent,
            has_children: self.has_children,
        }
    }
}

impl View for Document {
    type V = Seq<NodeModel>;

    open spec fn view(&self) -> Seq<NodeModel> {
        Seq::new(self.nodes@.len(), |k: int| self.nodes@[k]@)
    }
}

/// Whether the node `p` stands above the node `j`: it is the parent of `j`,
/// or stands above that parent.
pub open spec fn has_ancestor(nodes: Seq<NodeModel>, j: int, p: int) -> bool
    decreases j,
{
    if 0 <= j < nodes.len() {
        match nodes[j].parent {
            Some(q) => q == p || (q < j && has_ancestor(nodes, q as int, p)),
            None => false,
        }
    } else {
        false
    }
}

/// Whether each node stands behind its parent, which has a block of
/// children.
pub open spec fn parents_first(nodes: Seq<NodeModel>) -> bool {
    forall|j: int|
        0 <= j < nodes.len() ==> ((#[trigger] nodes[j]).parent matches Some(p) ==> p < j
            && nodes[p as int].has_children)
}

/// Whether the nodes stand in document order: between a node and any of its
/// children stand only nodes below that node.
#[verifier::opaque]
pub open spec fn in_document_order(nodes: Seq<NodeModel>) -> bool {
    forall|j: int, k: int|
        #![trigger nodes[j], nodes[k]]
        0 <= k < j < nodes.len() && nodes[j].parent is Some && nodes[j].parent->0 < k
            ==> has_ancestor(nodes, k, nodes[j].parent->0 as int)
}

/// Whether the nodes make a document.
pub open spec fn well_formed(nodes: Seq<NodeModel>) -> bool {
    parents_first(nodes) && in_document_order(nodes)
}

/// Whether a node may be added under `parent` at the end of the document:
/// under the root, or under the last node or a node above it, where that
/// node has a block of children.
pub open spec fn open_for_children(nodes: Seq<NodeModel>, parent: Option<usize>) -> bool {
    match parent {
        None => true,
        Some(p) => {
            &&& p < nodes.len()
            &&& nodes[p as int].has_children
            &&& (p == nodes.len() - 1 || has_ancestor(nodes, nodes.len() - 1, p as int))
        },
    }
}

/// A node stands behind the nodes above it.
pub proof fn lemma_ancestor_before(nodes: Seq<NodeModel>, j: int, p: int)
    requires
        parents_first(nodes),
        has_ancestor(nodes, j, p),
    ensures
        0 <= p < j < nodes.len(),
    decreases j,
{
    let q = nodes[j].parent->0;
    if q != p {
        lemma_ancestor_before(nodes, q as int, p);
    }
}

/// What stands above a node that stands above `j` stands above `j`.
pub proof fn lemma_ancestor_transitive(nodes: Seq<NodeModel>, j: int, q: int, p: int)
    requires
        parents_first(nodes),
        has_ancestor(nodes, j, q),
        has_ancestor(nodes, q, p),
    ensures
        has_ancestor(nodes, j, p),
    decreases j,
{
    let r = nodes[j].parent->0;
    if r != q {
        lemma_ancestor_transitive(nodes, r as int, q, p);
    }
}

/// In a document the nodes below a node stand together behind it: what
/// stands between a node and a node below it is below it too.
pub proof fn lemma_subtree_contiguous(nodes: Seq<NodeModel>, p: int, k: int, j: int)
    requires
        well_formed(nodes),
        has_ancestor(nodes, j, p),
        p < k < j,
    ensures
        has_ancestor(nodes, k, p),
    decreases j,
{
    reveal(in_document_order);
    let q = nodes[j].parent->0 as int;
    assert(nodes[j].parent is Some);
    if q == p {
    } else if k < q {
        lemma_subtree_contiguous(nodes, p, k, q);
    } else if k == q {
    } else {
        assert(nodes[k] == nodes[k]);
        assert(has_ancestor(nodes, k, q));
        lemma_ancestor_transitive(nodes, k, q, p);
    }
}

/// Adding a node at the end changes nothing above the nodes before it.
pub proof fn lemma_ancestor_frame(nodes: Seq<NodeModel>, node: NodeModel, j: int, p: int)
    requires
        j < nodes.len(),
    ensures
        has_ancestor(nodes.push(node), j, p) == has_ancestor(nodes, j, p),
    decreases j,
{
    if 0 <= j {
        assert(nodes.push(node)[j] == nodes[j]);
        match nodes[j].parent {
            Some(q) => {
                if q < j {
                    lemma_ancestor_frame(nodes, node, q as int, p);
                }
            },
            None => {},
        }
    }
}

/// A document stays one when a node is added at its end under a parent that
/// is open for children.
pub proof fn lemma_push_well_formed(nodes: Seq<NodeModel>, node: NodeModel)
    requires
        well_formed(nodes),
        open_for_children(nodes, node.parent),
    ensures
        well_formed(nodes.push(node)),
{
    reveal(in_document_order);
    let all = nodes.push(node);
    let last = nodes.len() - 1;
    assert forall|j: int| 0 <= j < all.len() implies ((#[trigger] all[j]).parent matches Some(p)
        ==> p < j && all[p as int].has_children) by {
        if j < nodes.len() {
            assert(all[j] == nodes[j]);
        }
    }
    assert forall|j: int, k: int|
        #![trigger all[j], all[k]]
        0 <= k < j < all.len() && all[j].parent is Some && all[j].parent->0
            < k implies has_ancestor(all, k, all[j].parent->0 as int) by {
        let p = all[j].parent->0;
        lemma_ancestor_frame(nodes, node, k, p as int);
        if j < nodes.len() {
            assert(all[j] == nodes[j]);
            assert(nodes[k] == nodes[k]);
            assert(has_ancestor(nodes, k, p as int));
        } else {
            if k < last {
                lemma_subtree_contiguous(nodes, p as int, k, last);
            }
        }
    }
}

impl Document {
    /// Whether the nodes make a document.
    pub open spec fn wf(&self) -> bool {
        well_formed(self@)
    }

    /// A document without nodes.
    pub fn new() -> (r: Document)
        ensures
            r@ == Seq::<NodeModel>::empty(),
            r.wf(),
    {
        let r = Document { nodes: Vec::new() };
        assert(r@ =~= Seq::<NodeModel>::empty());
        proof {
            reveal(in_document_order);
        }
        r
    }

    /// The number of nodes.
    pub fn len(&self) -> (r: usize)
        ensures
            r == self@.len(),
    {
        self.nodes.len()
    }

    /// The node at `index`, if there is one.
    pub fn node(&self, index: usize) -> (r: Option<&Node>)
        ensures
            match r {
                Some(node) => index < self@.len() && node@ == self@[index as int],
                None => index >= self@.len(),
            },
    {
        if index < self.nodes.len() {
            Some(&self.nodes[index])
        } else {
            None
        }
    }

    /// Whether a node may be added under `parent` at the end of the
    /// document.
    pub fn is_open(&self, parent: Option<usize>) -> (r: bool)
        requires
            self.wf(),
        ensures
            r == open_for_children(self@, parent),
    {
        match parent {
            None => true,
            Some(p) => {
                if p >= self.nodes.len() || !self.nodes[p].has_children {
                    return false;
                }
                let mut current = self.nodes.len() - 1;
                loop
                    invariant
                        self.wf(),
                        p < self@.len(),
                        current < self@.len(),
                        self@[p as int].has_children,
                        open_for_children(self@, parent) == (current == p || has_ancestor(
                            self@,
                            current as int,
                            p as int,
                        )),
                        parent == Some(p),
                    decreases current,
                {
                    if current == p {
                        return true;
                    }
                    assert(self@[current as int] == self.nodes@[current as int]@);
                    match self.nodes[current].parent {
                        Some(q) => {
                            current = q;
                        },
                        None => {
                            return false;
                        },
                    }
                }
            },
        }
    }

    /// Adds a node at the end of the document, under `parent`. Returns its
    /// index, or `None`, with the document unchanged, where `parent` is not
    /// open for children: the nodes are added in document order.
    pub fn push_node(
        &mut self,
        parent: Option<usize>,
        name: String,
        entries: Vec<Entry>,
        has_children: bool,
    ) -> (r: Option<usize>)
        requires
            old(self).wf(),
        ensures
            final(self).wf(),
            match r {
                Some(index) => {
                    &&& open_for_children(old(self)@, parent)
                    &&& index == old(self)@.len()
                    &&& final(self)@ == old(self)@.push(
                        NodeModel {
                            name: name@,
                            entries: entry_views(entries@),
                            parent,
                            has_children,
                        },
                    )
                },
                None => !open_for_children(old(self)@, parent) && final(self)@ == old(self)@,
            },
    {
        if !self.is_open(parent) {
            return None;
        }
        let index = self.nodes.len();
        let node = Node { name, entries, parent, has_children };
        proof {
            lemma_push_well_formed(self@, node@);
        }
        self.nodes.push(node);
        assert(self@ =~= old(self)@.push(node@));
        Some(index)
    }
}

} // verus!

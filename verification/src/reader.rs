//! Reading KDL text into a document. The text is parsed by the `kdl` crate;
//! what it hands back is walked here and laid out in document order.

use vstd::prelude::*;
use crate::diagnostics::reports;
use crate::document::{
    entry_views, has_ancestor, lemma_ancestor_transitive, open_for_children, Document, Entry,
    EntryModel, NodeModel, Value,
};

verus! {

/// `kdl::KdlDocument`, a parsed document. Nothing is known of what is
/// inside but what [`document_trees`] names.
#[verifier::external_type_specification]
#[verifier::external_body]
pub struct ExKdlDocument(kdl::KdlDocument);

/// `kdl::KdlNode`, a node of a parsed document. Nothing is known of what is
/// inside but what [`node_tree`] names.
#[verifier::external_type_specification]
#[verifier::external_body]
pub struct ExKdlNode(kdl::KdlNode);

/// `kdl::KdlEntry`, an argument or a property of a node. Nothing is known
/// of what is inside but what [`entry_model`] names.
#[verifier::external_type_specification]
#[verifier::external_body]
pub struct ExKdlEntry(kdl::KdlEntry);

/// `kdl::KdlError`, the error of a text that is no document. It is carried
/// through; nothing is known of what is inside.
#[verifier::external_type_specification]
#[verifier::external_body]
pub struct ExKdlError(kdl::KdlError);

/// A node as the `kdl` crate holds it: with its children inside it.
pub struct Tree {
    pub name: Seq<char>,
    pub entries: Seq<EntryModel>,
    /// The nodes of the node's block of children, if it has one.
    pub children: Option<Seq<Tree>>,
}

/// The nodes that a `KdlDocument` holds, in order.
pub uninterp spec fn document_trees(document: kdl::KdlDocument) -> Seq<Tree>;

/// What a `KdlNode` holds: its name, its entries and its children.
pub uninterp spec fn node_tree(node: kdl::KdlNode) -> Tree;

/// What a `KdlEntry` holds: its name, if it is a property, and its value.
pub uninterp spec fn entry_model(entry: kdl::KdlEntry) -> EntryModel;

/// What `KdlDocument::parse` makes of a text: the nodes that it reads, or,
/// where it refuses the text, the reports of the diagnostics of its error.
pub uninterp spec fn parsed_kdl(text: Seq<char>) -> Result<Seq<Tree>, Seq<Seq<char>>>;

/// `KdlDocument::parse` is a function of the text alone: it gives a document
/// that holds the nodes which [`parsed_kdl`] names, or an error with the
/// diagnostics whose reports that names.
#[verifier::external_body]
pub(crate) fn parse_kdl(text: &str) -> (r: Result<kdl::KdlDocument, kdl::KdlError>)
    ensures
        match r {
            Ok(document) => parsed_kdl(text@) == Ok::<Seq<Tree>, Seq<Seq<char>>>(
                document_trees(document),
            ),
            Err(error) => parsed_kdl(text@) == Err::<Seq<Tree>, Seq<Seq<char>>>(reports(error)),
        },
{
    kdl::KdlDocument::parse(text)
}

/// `KdlDocument::nodes` gives the nodes that the document holds, in order.
#[verifier::external_body]
pub(crate) fn document_nodes(document: &kdl::KdlDocument) -> (r: &[kdl::KdlNode])
    ensures
        r@.len() == document_trees(*document).len(),
        forall|i: int| 0 <= i < r@.len() ==> node_tree(#[trigger] r@[i]) == document_trees(*document)[i],
{
    document.nodes()
}

/// `KdlNode::name` gives the node's name, whose text `KdlIdentifier::value`
/// gives.
#[verifier::external_body]
pub(crate) fn node_name(node: &kdl::KdlNode) -> (r: &str)
    ensures
        r@ == node_tree(*node).name,
{
    node.name().value()
}

/// `KdlNode::entries` gives the node's arguments and properties, in the
/// order in which they were written.
#[verifier::external_body]
pub(crate) fn node_entries(node: &kdl::KdlNode) -> (r: &[kdl::KdlEntry])
    ensures
        r@.len() == node_tree(*node).entries.len(),
        forall|i: int| 0 <= i < r@.len() ==> entry_model(#[trigger] r@[i]) == node_tree(*node).entries[i],
{
    node.entries()
}

/// `KdlNode::children` gives the node's block of children, if it has one.
#[verifier::external_body]
pub(crate) fn node_children(node: &kdl::KdlNode) -> (r: Option<&kdl::KdlDocument>)
    ensures
        match r {
            Some(document) => node_tree(*node).children == Some(document_trees(*document)),
            None => node_tree(*node).children is None,
        },
{
    node.children()
}

/// `KdlEntry::name` gives the name of a property and nothing for an
/// argument; `KdlEntry::value` gives the entry's value. A float is taken as
/// its decimal text.
#[verifier::external_body]
pub(crate) fn entry_of(entry: &kdl::KdlEntry) -> (r: Entry)
    ensures
        r@ == entry_model(*entry),
{
    Entry {
        name: entry.name().map(|name| name.value().to_string()),
        value: match entry.value() {
            kdl::KdlValue::String(text) => Value::String(text.clone()),
            kdl::KdlValue::Integer(number) => Value::Integer(*number),
            kdl::KdlValue::Float(number) => Value::Float(number.to_string()),
            kdl::KdlValue::Bool(flag) => Value::Bool(*flag),
            kdl::KdlValue::Null => Value::Null,
        },
    }
}

/// The first `n` of the trees and all below them as nodes of a document, in
/// document order. The trees stand under `parent`, and the first of their
/// nodes gets the index `base`.
pub open spec fn flatten_upto(trees: Seq<Tree>, n: int, parent: Option<usize>, base: int) -> Seq<
    NodeModel,
>
    decreases trees, n,
{
    if 0 < n <= trees.len() {
        let before = flatten_upto(trees, n - 1, parent, base);
        let tree = trees[n - 1];
        let index = base + before.len();
        let node = NodeModel {
            name: tree.name,
            entries: tree.entries,
            parent,
            has_children: tree.children is Some,
        };
        let below = match tree.children {
            Some(children) => flatten_upto(
                children,
                children.len() as int,
                Some(index as usize),
                index + 1,
            ),
            None => Seq::empty(),
        };
        before.push(node) + below
    } else {
        Seq::empty()
    }
}

/// The trees and all below them as the nodes of a document.
pub open spec fn flatten(trees: Seq<Tree>) -> Seq<NodeModel> {
    flatten_upto(trees, trees.len() as int, None, 0)
}

/// The entries of a node, each converted.
pub(crate) fn read_entries(node: &kdl::KdlNode) -> (r: Vec<Entry>)
    ensures
        entry_views(r@) == node_tree(*node).entries,
{
    let entries = node_entries(node);
    let mut out: Vec<Entry> = Vec::new();
    let mut i: usize = 0;
    while i < entries.len()
        invariant
            i <= entries@.len(),
            out@.len() == i,
            entries@.len() == node_tree(*node).entries.len(),
            forall|k: int|
                0 <= k < entries@.len() ==> entry_model(#[trigger] entries@[k]) == node_tree(
                    *node,
                ).entries[k],
            forall|k: int| 0 <= k < i ==> (#[trigger] out@[k])@ == node_tree(*node).entries[k],
        decreases entries.len() - i,
    {
        out.push(entry_of(&entries[i]));
        i = i + 1;
    }
    assert(entry_views(out@) =~= node_tree(*node).entries);
    out
}

/// Adds the nodes of `source` and all below them at the end of the
/// document, under `parent`.
fn append(document: &mut Document, source: &kdl::KdlDocument, parent: Option<usize>)
    requires
        old(document).wf(),
        open_for_children(old(document)@, parent),
    ensures
        final(document).wf(),
        open_for_children(final(document)@, parent),
        final(document)@ == old(document)@ + flatten_upto(
            document_trees(*source),
            document_trees(*source).len() as int,
            parent,
            old(document)@.len() as int,
        ),
    decreases document_trees(*source),
{
    let ghost trees = document_trees(*source);
    let ghost start = document@;
    let ghost base = document@.len() as int;
    let nodes = document_nodes(source);
    let mut i: usize = 0;
    assert(start + flatten_upto(trees, 0, parent, base) =~= start);
    while i < nodes.len()
        invariant
            i <= nodes@.len(),
            nodes@.len() == trees.len(),
            trees == document_trees(*source),
            forall|k: int| 0 <= k < nodes@.len() ==> node_tree(#[trigger] nodes@[k]) == trees[k],
            base == start.len(),
            document.wf(),
            open_for_children(document@, parent),
            document@ == start + flatten_upto(trees, i as int, parent, base),
        decreases nodes.len() - i,
    {
        let node = &nodes[i];
        let ghost tree = trees[i as int];
        assert(node_tree(*node) == tree);
        let ghost before = document@;
        let name = node_name(node).to_owned();
        let entries = read_entries(node);
        let children = node_children(node);
        match document.push_node(parent, name, entries, children.is_some()) {
            Some(index) => {
                match children {
                    Some(below) => {
                        proof {
                            assert(tree.children == Some(document_trees(*below)));
                            assert(decreases_to!(trees => trees[i as int]));
                            assert(decreases_to!(tree => tree.children));
                            assert(decreases_to!(tree.children => tree.children->0));
                        }
                        append(document, below, Some(index));
                    },
                    None => {},
                }
                proof {
                    let after = document@;
                    assert(after[index as int] == before.push(after[index as int])[index as int]);
                    if let Some(p) = parent {
                        let last = after.len() - 1;
                        assert(after[p as int] == before[p as int]);
                        if last != index as int {
                            assert(has_ancestor(after, index as int, p as int));
                            lemma_ancestor_transitive(after, last, index as int, p as int);
                        }
                    }
                    assert(after =~= start + flatten_upto(trees, i + 1, parent, base));
                }
            },
            None => {},
        }
        i = i + 1;
    }
}

impl Document {
    /// The document that the `kdl` crate holds, laid out in document order.
    pub fn from_kdl(source: &kdl::KdlDocument) -> (r: Document)
        ensures
            r.wf(),
            r@ == flatten(document_trees(*source)),
    {
        let mut document = Document::new();
        append(&mut document, source, None);
        assert(Seq::<NodeModel>::empty() + flatten(document_trees(*source)) =~= flatten(
            document_trees(*source),
        ));
        document
    }
}

} // verus!

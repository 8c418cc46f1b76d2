//! The matcher: runs a path on a document, step by step.
//!
//! A run keeps a context: a sequence of positions without repeats, at first
//! the document root alone. Each step sends every position of the context
//! along its axis, keeps the candidates that its selector and predicate
//! accept, and drops what was met before. The nodes of the last context are
//! the result.

use vstd::prelude::*;
use crate::document::{
    entry_views, has_ancestor, lemma_ancestor_before, lemma_subtree_contiguous, well_formed,
    Document, EntryModel, Node, NodeModel, Position,
};
use crate::path::{Axis, Path, Selector, SelectorModel, Step, StepModel};
use crate::predicate::predicate_holds;
use crate::selection::lemma_selected_no_duplicates;

verus! {

/// Whether the position is in the document.
pub open spec fn valid_position(nodes: Seq<NodeModel>, pos: Position) -> bool {
    match pos {
        Position::Root => true,
        Position::Node(j) => j < nodes.len(),
    }
}

/// Whether every position of the context is in the document.
pub open spec fn valid_context(nodes: Seq<NodeModel>, context: Seq<Position>) -> bool {
    forall|k: int| 0 <= k < context.len() ==> valid_position(nodes, #[trigger] context[k])
}

/// The position above the node `j`.
pub open spec fn parent_position(nodes: Seq<NodeModel>, j: int) -> Position {
    match nodes[j].parent {
        Some(p) => Position::Node(p),
        None => Position::Root,
    }
}

/// Whether the node `j` stands somewhere below the position.
pub open spec fn below(nodes: Seq<NodeModel>, j: int, pos: Position) -> bool {
    match pos {
        Position::Root => true,
        Position::Node(p) => has_ancestor(nodes, j, p as int),
    }
}

/// The children of the position among the first `n` nodes, in document
/// order.
pub open spec fn children_upto(nodes: Seq<NodeModel>, pos: Position, n: int) -> Seq<Position>
    decreases n,
{
    if n <= 0 {
        Seq::empty()
    } else if parent_position(nodes, n - 1) == pos {
        children_upto(nodes, pos, n - 1).push(Position::Node((n - 1) as usize))
    } else {
        children_upto(nodes, pos, n - 1)
    }
}

/// The children of the position, in document order.
pub open spec fn children(nodes: Seq<NodeModel>, pos: Position) -> Seq<Position> {
    children_upto(nodes, pos, nodes.len() as int)
}

/// The nodes below the position among the first `n` nodes, in document
/// order.
pub open spec fn descendants_upto(nodes: Seq<NodeModel>, pos: Position, n: int) -> Seq<Position>
    decreases n,
{
    if n <= 0 {
        Seq::empty()
    } else if below(nodes, n - 1, pos) {
        descendants_upto(nodes, pos, n - 1).push(Position::Node((n - 1) as usize))
    } else {
        descendants_upto(nodes, pos, n - 1)
    }
}

/// The position and everything below it, in document order: the position
/// first, each node before the nodes below it, and those before its next
/// sibling.
pub open spec fn descendants_or_self(nodes: Seq<NodeModel>, pos: Position) -> Seq<Position> {
    seq![pos] + descendants_upto(nodes, pos, nodes.len() as int)
}

/// Where the axis leads from the position.
pub open spec fn along(nodes: Seq<NodeModel>, axis: Axis, pos: Position) -> Seq<Position> {
    match axis {
        Axis::Child | Axis::ImplicitChild => children(nodes, pos),
        Axis::DescendantOrSelf => descendants_or_self(nodes, pos),
        Axis::SelfAxis => seq![pos],
        Axis::Parent => match pos {
            Position::Root => Seq::empty(),
            Position::Node(j) => seq![parent_position(nodes, j as int)],
        },
    }
}

/// The candidates of the step at the position: the document root for the
/// root selector, whatever the axis, and else where the axis leads.
pub open spec fn candidates(nodes: Seq<NodeModel>, step: StepModel, pos: Position) -> Seq<
    Position,
> {
    if step.selector is Root {
        seq![Position::Root]
    } else {
        along(nodes, step.axis, pos)
    }
}

/// Whether the selector accepts the position. A name accepts the nodes of
/// that name, and never the document root, which has none.
pub open spec fn selects(nodes: Seq<NodeModel>, selector: SelectorModel, pos: Position) -> bool {
    match selector {
        SelectorModel::Named(name) => pos matches Position::Node(j) && nodes[j as int].name
            == name,
        SelectorModel::Root => pos is Root,
        SelectorModel::Any => true,
        SelectorModel::Anywhere => true,
        SelectorModel::Parent => true,
    }
}

/// The entries at the position. The document root has none.
pub open spec fn entries_at(nodes: Seq<NodeModel>, pos: Position) -> Seq<EntryModel> {
    match pos {
        Position::Root => Seq::empty(),
        Position::Node(j) => nodes[j as int].entries,
    }
}

/// Whether the step keeps the candidate: its selector accepts it, and its
/// predicate, where it has one, holds of the candidate's entries.
pub open spec fn keeps(nodes: Seq<NodeModel>, step: StepModel, pos: Position) -> bool {
    &&& selects(nodes, step.selector, pos)
    &&& (step.predicate matches Some(groups) ==> predicate_holds(groups, entries_at(nodes, pos)))
}

/// Those of the first `n` candidates that the step keeps, in order.
pub open spec fn kept_upto(nodes: Seq<NodeModel>, step: StepModel, cands: Seq<Position>, n: int)
    -> Seq<Position>
    decreases n,
{
    if n <= 0 {
        Seq::empty()
    } else if keeps(nodes, step, cands[n - 1]) {
        kept_upto(nodes, step, cands, n - 1).push(cands[n - 1])
    } else {
        kept_upto(nodes, step, cands, n - 1)
    }
}

/// What the step keeps of the candidates at the position.
pub open spec fn kept_at(nodes: Seq<NodeModel>, step: StepModel, pos: Position) -> Seq<Position> {
    let cands = candidates(nodes, step, pos);
    kept_upto(nodes, step, cands, cands.len() as int)
}

/// What the step keeps from the first `n` positions of the context, one
/// position of the context after the other.
pub open spec fn kept_from(nodes: Seq<NodeModel>, step: StepModel, context: Seq<Position>, n: int)
    -> Seq<Position>
    decreases n,
{
    if n <= 0 {
        Seq::empty()
    } else {
        kept_from(nodes, step, context, n - 1) + kept_at(nodes, step, context[n - 1])
    }
}

/// The sequence without its repeats: of each position the first occurrence
/// stays.
pub open spec fn distinct(s: Seq<Position>) -> Seq<Position>
    decreases s.len(),
{
    if s.len() == 0 {
        Seq::empty()
    } else if distinct(s.drop_last()).contains(s.last()) {
        distinct(s.drop_last())
    } else {
        distinct(s.drop_last()).push(s.last())
    }
}

/// The context behind the step.
pub open spec fn apply(nodes: Seq<NodeModel>, step: StepModel, context: Seq<Position>) -> Seq<
    Position,
> {
    distinct(kept_from(nodes, step, context, context.len() as int))
}

/// The context behind the steps from the `k`th on.
pub open spec fn run_from(
    nodes: Seq<NodeModel>,
    steps: Seq<StepModel>,
    k: int,
    context: Seq<Position>,
) -> Seq<Position>
    decreases steps.len() - k,
{
    if 0 <= k < steps.len() {
        run_from(nodes, steps, k + 1, apply(nodes, steps[k], context))
    } else {
        context
    }
}

/// The nodes among the first `n` positions, in order.
pub open spec fn nodes_upto(context: Seq<Position>, n: int) -> Seq<usize>
    decreases n,
{
    if n <= 0 {
        Seq::empty()
    } else {
        match context[n - 1] {
            Position::Node(j) => nodes_upto(context, n - 1).push(j),
            Position::Root => nodes_upto(context, n - 1),
        }
    }
}

/// The nodes that the path selects in the document, in the order in which
/// the run met them.
pub open spec fn selected(nodes: Seq<NodeModel>, steps: Seq<StepModel>) -> Seq<usize> {
    let last = run_from(nodes, steps, 0, seq![Position::Root]);
    nodes_upto(last, last.len() as int)
}

/// The position above a node.
fn parent_of(doc: &Document, j: usize) -> (r: Position)
    requires
        j < doc@.len(),
    ensures
        r == parent_position(doc@, j as int),
{
    assert(doc@[j as int] == doc.nodes@[j as int]@);
    match doc.nodes[j].parent {
        Some(p) => Position::Node(p),
        None => Position::Root,
    }
}

/// No node at or before a position is a child of it or stands below it.
proof fn lemma_none_before(nodes: Seq<NodeModel>, pos: Position, n: int)
    requires
        well_formed(nodes),
        n <= nodes.len(),
        match pos {
            Position::Root => n <= 0,
            Position::Node(p) => n <= p + 1,
        },
    ensures
        children_upto(nodes, pos, n) == Seq::<Position>::empty(),
        descendants_upto(nodes, pos, n) == Seq::<Position>::empty(),
    decreases n,
{
    if n > 0 {
        lemma_none_before(nodes, pos, n - 1);
        if below(nodes, n - 1, pos) {
            lemma_ancestor_before(nodes, n - 1, pos->0 as int);
        }
    }
}

/// The nodes below a node stand together: behind the first node that is
/// not below it, none is, and none is its child.
proof fn lemma_subtree_ends(nodes: Seq<NodeModel>, pos: Position, j: int, n: int)
    requires
        well_formed(nodes),
        pos matches Position::Node(p) && p < j,
        j <= n <= nodes.len(),
        j < nodes.len(),
        !below(nodes, j, pos),
    ensures
        children_upto(nodes, pos, n) == children_upto(nodes, pos, j),
        descendants_upto(nodes, pos, n) == descendants_upto(nodes, pos, j),
    decreases n,
{
    if j < n {
        lemma_subtree_ends(nodes, pos, j, n - 1);
        if below(nodes, n - 1, pos) {
            lemma_subtree_contiguous(nodes, pos->0 as int, j, n - 1);
        }
    }
}

/// Where the nodes below a position start.
fn first_below(doc: &Document, pos: Position) -> (r: usize)
    requires
        valid_position(doc@, pos),
    ensures
        r == match pos {
            Position::Root => 0,
            Position::Node(p) => p + 1,
        },
{
    let n = doc.nodes.len();
    match pos {
        Position::Root => 0,
        Position::Node(p) => {
            assert(p < n);
            p + 1
        },
    }
}

/// Whether the node `j` stands below the position, where every node between
/// the two does.
fn is_below(doc: &Document, pos: Position, j: usize) -> (r: bool)
    requires
        doc.wf(),
        j < doc@.len(),
        pos matches Position::Node(p) ==> p < j && forall|k: int|
            p < k < j ==> has_ancestor(doc@, k, p as int),
    ensures
        r == below(doc@, j as int, pos),
{
    assert(doc@[j as int] == doc.nodes@[j as int]@);
    match pos {
        Position::Root => true,
        Position::Node(p) => match doc.nodes[j].parent {
            Some(q) => {
                proof {
                    assert(q < j);
                    if q < p {
                        if has_ancestor(doc@, q as int, p as int) {
                            lemma_ancestor_before(doc@, q as int, p as int);
                        }
                        assert(!has_ancestor(doc@, j as int, p as int));
                    } else if q > p {
                        assert(has_ancestor(doc@, q as int, p as int));
                        assert(has_ancestor(doc@, j as int, p as int));
                    } else {
                        assert(has_ancestor(doc@, j as int, p as int));
                    }
                }
                q >= p
            },
            None => false,
        },
    }
}

/// The children of a position, in document order.
fn children_of(doc: &Document, pos: Position) -> (r: Vec<Position>)
    requires
        doc.wf(),
        valid_position(doc@, pos),
    ensures
        r@ == children(doc@, pos),
        valid_context(doc@, r@),
{
    let mut out: Vec<Position> = Vec::new();
    let mut j = first_below(doc, pos);
    proof {
        lemma_none_before(doc@, pos, j as int);
    }
    while j < doc.nodes.len()
        invariant
            doc.wf(),
            valid_position(doc@, pos),
            j <= doc@.len(),
            doc@.len() == doc.nodes@.len(),
            pos matches Position::Node(p) ==> p < j && forall|k: int|
                p < k < j ==> has_ancestor(doc@, k, p as int),
            out@ == children_upto(doc@, pos, j as int),
            valid_context(doc@, out@),
        ensures
            out@ == children(doc@, pos),
            valid_context(doc@, out@),
        decreases doc.nodes.len() - j,
    {
        if !is_below(doc, pos, j) {
            proof {
                lemma_subtree_ends(doc@, pos, j as int, doc@.len() as int);
            }
            break ;
        }
        if parent_of(doc, j) == pos {
            out.push(Position::Node(j));
        }
        j = j + 1;
    }
    out
}

/// A position and everything below it, in document order.
fn descendants_of(doc: &Document, pos: Position) -> (r: Vec<Position>)
    requires
        doc.wf(),
        valid_position(doc@, pos),
    ensures
        r@ == descendants_or_self(doc@, pos),
        valid_context(doc@, r@),
{
    let mut out: Vec<Position> = Vec::new();
    out.push(pos);
    let mut j = first_below(doc, pos);
    proof {
        lemma_none_before(doc@, pos, j as int);
        assert(out@ =~= seq![pos] + descendants_upto(doc@, pos, j as int));
    }
    while j < doc.nodes.len()
        invariant
            doc.wf(),
            valid_position(doc@, pos),
            j <= doc@.len(),
            doc@.len() == doc.nodes@.len(),
            pos matches Position::Node(p) ==> p < j && forall|k: int|
                p < k < j ==> has_ancestor(doc@, k, p as int),
            out@ == seq![pos] + descendants_upto(doc@, pos, j as int),
            valid_context(doc@, out@),
        ensures
            out@ == descendants_or_self(doc@, pos),
            valid_context(doc@, out@),
        decreases doc.nodes.len() - j,
    {
        if !is_below(doc, pos, j) {
            proof {
                lemma_subtree_ends(doc@, pos, j as int, doc@.len() as int);
            }
            break ;
        }
        out.push(Position::Node(j));
        assert(out@ =~= seq![pos] + descendants_upto(doc@, pos, j + 1));
        j = j + 1;
    }
    out
}

/// The candidates of a step at a position.
fn candidates_at(doc: &Document, step: &Step, pos: Position) -> (r: Vec<Position>)
    requires
        doc.wf(),
        valid_position(doc@, pos),
    ensures
        r@ == candidates(doc@, step@, pos),
        valid_context(doc@, r@),
{
    let mut one: Vec<Position> = Vec::new();
    match step.selector {
        Selector::Root => {
            one.push(Position::Root);
            assert(one@ =~= seq![Position::Root]);
            return one;
        },
        _ => {},
    }
    match step.axis {
        Axis::Child | Axis::ImplicitChild => children_of(doc, pos),
        Axis::DescendantOrSelf => descendants_of(doc, pos),
        Axis::SelfAxis => {
            one.push(pos);
            assert(one@ =~= seq![pos]);
            one
        },
        Axis::Parent => {
            match pos {
                Position::Root => {
                    assert(one@ =~= Seq::<Position>::empty());
                },
                Position::Node(j) => {
                    one.push(parent_of(doc, j));
                    assert(one@ =~= seq![parent_position(doc@, j as int)]);
                },
            }
            one
        },
    }
}

/// Whether a step keeps a candidate.
fn keeps_at(doc: &Document, step: &Step, pos: Position) -> (r: bool)
    requires
        valid_position(doc@, pos),
    ensures
        r == keeps(doc@, step@, pos),
{
    let selected = match &step.selector {
        Selector::Named(name) => match pos {
            Position::Node(j) => {
                assert(doc@[j as int] == doc.nodes@[j as int]@);
                doc.nodes[j].name == *name
            },
            Position::Root => false,
        },
        Selector::Root => match pos {
            Position::Root => true,
            Position::Node(_) => false,
        },
        _ => true,
    };
    if !selected {
        return false;
    }
    match &step.predicate {
        None => true,
        Some(predicate) => match pos {
            Position::Node(j) => {
                assert(doc@[j as int] == doc.nodes@[j as int]@);
                predicate.holds(&doc.nodes[j].entries)
            },
            Position::Root => {
                let none = Vec::new();
                assert(entry_views(none@) =~= Seq::<EntryModel>::empty());
                predicate.holds(&none)
            },
        },
    }
}

/// What was met before: the positions of `found`, marked one by one.
struct Met {
    root: bool,
    nodes: Vec<bool>,
}

impl Met {
    /// Whether the marks say of each position whether `found` holds it.
    spec fn marks(&self, found: Seq<Position>, n: nat) -> bool {
        &&& self.nodes@.len() == n <= usize::MAX
        &&& self.root == found.contains(Position::Root)
        &&& forall|j: int|
            0 <= j < n ==> #[trigger] self.nodes@[j] == found.contains(Position::Node(j as usize))
    }

    /// Nothing met, in a document of `n` nodes.
    fn new(n: usize) -> (r: Met)
        ensures
            r.marks(Seq::empty(), n as nat),
    {
        let mut nodes: Vec<bool> = Vec::new();
        while nodes.len() < n
            invariant
                nodes@.len() <= n,
                forall|j: int| 0 <= j < nodes@.len() ==> !nodes@[j],
            decreases n - nodes.len(),
        {
            nodes.push(false);
        }
        Met { root: false, nodes }
    }

    /// Whether the position was met.
    fn holds(&self, pos: Position, Ghost(found): Ghost<Seq<Position>>, Ghost(n): Ghost<nat>) -> (r:
        bool)
        requires
            self.marks(found, n),
            pos matches Position::Node(j) ==> j < n,
        ensures
            r == found.contains(pos),
    {
        match pos {
            Position::Root => self.root,
            Position::Node(j) => self.nodes[j],
        }
    }

    /// Marks the position as met.
    fn add(&mut self, pos: Position, Ghost(found): Ghost<Seq<Position>>, Ghost(n): Ghost<nat>)
        requires
            old(self).marks(found, n),
            pos matches Position::Node(j) ==> j < n,
        ensures
            final(self).marks(found.push(pos), n),
    {
        let ghost after = found.push(pos);
        match pos {
            Position::Root => {
                self.root = true;
            },
            Position::Node(j) => {
                self.nodes.set(j, true);
            },
        }
        proof {
            assert(after[found.len() as int] == pos);
            assert forall|x: Position| after.contains(x) <==> (found.contains(x) || x == pos) by {
                if found.contains(x) {
                    let i = choose|i: int| 0 <= i < found.len() && found[i] == x;
                    assert(after[i] == x);
                }
                if after.contains(x) {
                    let i = choose|i: int| 0 <= i < after.len() && after[i] == x;
                    if i < found.len() {
                        assert(found[i] == x);
                    }
                }
            }
            assert forall|j: int| 0 <= j < n implies #[trigger] self.nodes@[j] == after.contains(
                Position::Node(j as usize),
            ) by {
                assert(old(self).nodes@[j] == found.contains(Position::Node(j as usize)));
            }
        }
    }
}

impl Step {
    /// Runs the step on a context: the candidates that the step keeps, from
    /// one position of the context after the other, without what was met
    /// before.
    pub fn apply(&self, doc: &Document, context: &Vec<Position>) -> (r: Vec<Position>)
        requires
            doc.wf(),
            valid_context(doc@, context@),
        ensures
            r@ == apply(doc@, self@, context@),
            valid_context(doc@, r@),
    {
        let n = doc.nodes.len();
        let mut out: Vec<Position> = Vec::new();
        let mut met = Met::new(n);
        let mut k: usize = 0;
        while k < context.len()
            invariant
                doc.wf(),
                valid_context(doc@, context@),
                n == doc@.len(),
                k <= context@.len(),
                out@ == distinct(kept_from(doc@, self@, context@, k as int)),
                met.marks(out@, n as nat),
                valid_context(doc@, out@),
            decreases context.len() - k,
        {
            let pos = context[k];
            assert(valid_position(doc@, context@[k as int]));
            let cands = candidates_at(doc, self, pos);
            let ghost before = kept_from(doc@, self@, context@, k as int);
            let mut m: usize = 0;
            assert(before + kept_upto(doc@, self@, cands@, 0) =~= before);
            while m < cands.len()
                invariant
                    valid_context(doc@, cands@),
                    n == doc@.len(),
                    m <= cands@.len(),
                    out@ == distinct(before + kept_upto(doc@, self@, cands@, m as int)),
                    met.marks(out@, n as nat),
                    valid_context(doc@, out@),
                decreases cands.len() - m,
            {
                let c = cands[m];
                assert(valid_position(doc@, cands@[m as int]));
                if keeps_at(doc, self, c) {
                    let ghost raw = before + kept_upto(doc@, self@, cands@, m as int);
                    let ghost next = before + kept_upto(doc@, self@, cands@, m + 1);
                    assert(next =~= raw.push(c));
                    assert(next.drop_last() =~= raw);
                    if !met.holds(c, Ghost(out@), Ghost(n as nat)) {
                        met.add(c, Ghost(out@), Ghost(n as nat));
                        out.push(c);
                    }
                }
                m = m + 1;
            }
            k = k + 1;
        }
        out
    }
}

impl Path {
    /// The nodes that the path selects in the document, each by its index,
    /// in the order in which the run met them.
    pub fn select(&self, doc: &Document) -> (r: Vec<usize>)
        requires
            self.wf(),
            doc.wf(),
        ensures
            r@ == selected(doc@, self@),
            r@.no_duplicates(),
            forall|k: int| 0 <= k < r@.len() ==> #[trigger] r@[k] < doc@.len(),
    {
        proof {
            lemma_selected_no_duplicates(doc@, self@);
        }
        let mut context: Vec<Position> = Vec::new();
        context.push(Position::Root);
        assert(context@ =~= seq![Position::Root]);
        let mut k: usize = 0;
        while k < self.steps.len()
            invariant
                doc.wf(),
                k <= self.steps@.len(),
                self@.len() == self.steps@.len(),
                valid_context(doc@, context@),
                run_from(doc@, self@, k as int, context@) == run_from(
                    doc@,
                    self@,
                    0,
                    seq![Position::Root],
                ),
            decreases self.steps.len() - k,
        {
            assert(self@[k as int] == self.steps@[k as int]@);
            context = self.steps[k].apply(doc, &context);
            k = k + 1;
        }
        let mut out: Vec<usize> = Vec::new();
        let mut i: usize = 0;
        while i < context.len()
            invariant
                i <= context@.len(),
                valid_context(doc@, context@),
                out@ == nodes_upto(context@, i as int),
                forall|k: int| 0 <= k < out@.len() ==> #[trigger] out@[k] < doc@.len(),
            decreases context.len() - i,
        {
            assert(valid_position(doc@, context@[i as int]));
            match context[i] {
                Position::Node(j) => {
                    out.push(j);
                },
                Position::Root => {},
            }
            i = i + 1;
        }
        out
    }
}

/// Runs the path on the document: the nodes that it selects, in the order
/// in which the run met them, none of them twice.
pub fn evaluate<'a>(path: &Path, document: &'a Document) -> (r: Vec<&'a Node>)
    requires
        path.wf(),
        document.wf(),
    ensures
        r@.len() == selected(document@, path@).len(),
        selected(document@, path@).no_duplicates(),
        forall|k: int|
            0 <= k < r@.len() ==> *(#[trigger] r@[k]) == document.nodes@[selected(
                document@,
                path@,
            )[k] as int],
{
    let found = path.select(document);
    let mut out: Vec<&'a Node> = Vec::new();
    let mut k: usize = 0;
    while k < found.len()
        invariant
            k <= found@.len(),
            out@.len() == k,
            document@.len() == document.nodes@.len(),
            forall|i: int| 0 <= i < found@.len() ==> #[trigger] found@[i] < document@.len(),
            forall|i: int| 0 <= i < k ==> *(#[trigger] out@[i]) == document.nodes@[found@[i] as int],
        decreases found.len() - k,
    {
        out.push(&document.nodes[found[k]]);
        k = k + 1;
    }
    out
}

} // verus!

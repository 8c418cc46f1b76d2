//! Path expressions: the syntax tree of a query.
//!
//! A path is a sequence of steps. A step leaves each node of a context
//! along its axis, and keeps of the nodes that it reaches those that its
//! selector and its predicate accept.

use vstd::prelude::*;
use vstd::string::StringExecFns;
use crate::text::{decimal, render_integer};

verus! {

/// The direction in which a step leaves a context node.
#[derive(Debug, Clone, Copy, PartialEq, Eq, Structural)]
pub enum Axis {
    /// The children of the context node; written `/`.
    Child,
    /// The context node and all nodes below it; written `//`.
    DescendantOrSelf,
    /// The context node itself; written `.`.
    SelfAxis,
    /// The parent of the context node; written `..`.
    Parent,
    /// The children of the context node, for a first step that no separator
    /// precedes.
    ImplicitChild,
}

/// The rule by which a step keeps or drops a candidate.
#[derive(Debug, Clone, PartialEq, Eq)]
pub enum Selector {
    /// Nodes of exactly this name.
    Named(String),
    /// Every candidate; written `*`, or implied by a lone `.`.
    Any,
    /// The document root only; a leading `/`.
    Root,
    /// Every candidate; a leading `//`.
    Anywhere,
    /// Every candidate; implied by a lone `..`.
    Parent,
}

/// One condition on the entries of a node.
#[derive(Debug, Clone, PartialEq, Eq)]
pub enum PredicateItem {
    /// Some argument of the node renders as this text.
    Positional(String),
    /// Some property of this name renders as this text.
    Named(String, String),
}

/// Conditions that must all hold.
#[derive(Debug, Clone, PartialEq, Eq)]
pub struct PredicateGroup {
    pub items: Vec<PredicateItem>,
}

/// Groups of which one must hold.
#[derive(Debug, Clone, PartialEq, Eq)]
pub struct Predicate {
    pub groups: Vec<PredicateGroup>,
}

/// One step of a path.
#[derive(Debug, Clone, PartialEq, Eq)]
pub struct Step {
    pub axis: Axis,
    pub selector: Selector,
    pub predicate: Option<Predicate>,
}

/// A parsed query.
#[derive(Debug, Clone, PartialEq, Eq)]
pub struct Path {
    pub steps: Vec<Step>,
}

/// What the parser was looking for when it met a token that it cannot use.
#[derive(Debug, Clone, Copy, PartialEq, Eq, Structural)]
pub enum Expected {
    /// A name, `*`, `.` or `..`.
    Selector,
    /// A text or a name, as the value of a predicate item.
    Value,
    /// `/` or `//` behind a step.
    Separator,
}

/// Why a query is no path.
#[derive(Debug, Clone, PartialEq, Eq)]
pub enum ParseQueryError {
    /// A token stands where it cannot. `found` is its text, empty at the end
    /// of the query; `position` is its byte offset in the query.
    UnexpectedToken { expected: Expected, found: String, position: usize },
    /// A `[` is not closed before the token at the byte offset `position`,
    /// which is a `/`, a `//` or the end of the query.
    UnterminatedPredicate { position: usize },
    /// The query holds no token.
    EmptyPath,
}

/// What a [`Selector`] stands for.
pub enum SelectorModel {
    Named(Seq<char>),
    Any,
    Root,
    Anywhere,
    Parent,
}

/// What a [`PredicateItem`] stands for.
pub enum ItemModel {
    Positional(Seq<char>),
    Named(Seq<char>, Seq<char>),
}

/// What a [`Step`] stands for.
pub struct StepModel {
    pub axis: Axis,
    pub selector: SelectorModel,
    /// The groups of the predicate, each the sequence of its items.
    pub predicate: Option<Seq<Seq<ItemModel>>>,
}

/// What a [`ParseQueryError`] stands for.
pub enum ParseErrorModel {
    UnexpectedToken { expected: Expected, found: Seq<char>, position: int },
    UnterminatedPredicate { position: int },
    EmptyPath,
}

impl View for Selector {
    type V = SelectorModel;

    open spec fn view(&self) -> SelectorModel {
        match self {
            Selector::Named(n) => SelectorModel::Named(n@),
            Selector::Any => SelectorModel::Any,
            Selector::Root => SelectorModel::Root,
            Selector::Anywhere => SelectorModel::Anywhere,
            Selector::Parent => SelectorModel::Parent,
        }
    }
}

impl View for PredicateItem {
    type V = ItemModel;

    open spec fn view(&self) -> ItemModel {
        match self {
            PredicateItem::Positional(t) => ItemModel::Positional(t@),
            PredicateItem::Named(n, t) => ItemModel::Named(n@, t@),
        }
    }
}

impl View for PredicateGroup {
    type V = Seq<ItemModel>;

    open spec fn view(&self) -> Seq<ItemModel> {
        Seq::new(self.items@.len(), |k: int| self.items@[k]@)
    }
}

impl View for Predicate {
    type V = Seq<Seq<ItemModel>>;

    open spec fn view(&self) -> Seq<Seq<ItemModel>> {
        Seq::new(self.groups@.len(), |k: int| self.groups@[k]@)
    }
}

impl View for Step {
    type V = StepModel;

    open spec fn view(&self) -> StepModel {
        StepModel {
            axis: self.axis,
            selector: self.selector@,
            predicate: match self.predicate {
                Some(p) => Some(p@),
                None => None,
            },
        }
    }
}

impl View for Path {
    type V = Seq<StepModel>;

    open spec fn view(&self) -> Seq<StepModel> {
        Seq::new(self.steps@.len(), |k: int| self.steps@[k]@)
    }
}

impl View for ParseQueryError {
    type V = ParseErrorModel;

    open spec fn view(&self) -> ParseErrorModel {
        match self {
            ParseQueryError::UnexpectedToken { expected, found, position } => {
                ParseErrorModel::UnexpectedToken {
                    expected: *expected,
                    found: found@,
                    position: *position as int,
                }
            },
            ParseQueryError::UnterminatedPredicate { position } => {
                ParseErrorModel::UnterminatedPredicate { position: *position as int }
            },
            ParseQueryError::EmptyPath => ParseErrorModel::EmptyPath,
        }
    }
}

/// The items of a vector, each as what it stands for.
pub open spec fn item_views(items: Seq<PredicateItem>) -> Seq<ItemModel> {
    Seq::new(items.len(), |k: int| items[k]@)
}

/// The groups of a vector, each as what it stands for.
pub open spec fn group_views(groups: Seq<PredicateGroup>) -> Seq<Seq<ItemModel>> {
    Seq::new(groups.len(), |k: int| groups[k]@)
}

/// The steps of a vector, each as what it stands for.
pub open spec fn step_views(steps: Seq<Step>) -> Seq<StepModel> {
    Seq::new(steps.len(), |k: int| steps[k]@)
}

/// Whether a path is well formed: it has a step, and each predicate in it
/// has a group.
pub open spec fn well_formed(steps: Seq<StepModel>) -> bool {
    &&& steps.len() > 0
    &&& forall|k: int|
        0 <= k < steps.len() ==> ((#[trigger] steps[k]).predicate matches Some(g) ==> g.len() > 0)
}

/// What the parser was looking for, in words.
pub open spec fn expected_text(expected: Expected) -> Seq<char> {
    match expected {
        Expected::Selector => "a selector"@,
        Expected::Value => "a value"@,
        Expected::Separator => "a separator"@,
    }
}

/// The message of an error: what is wrong, and at which byte of the query.
pub open spec fn message_text(error: ParseErrorModel) -> Seq<char> {
    match error {
        ParseErrorModel::UnexpectedToken { expected, found, position } => "expected "@
            + expected_text(expected) + " at byte "@ + decimal(position) + ", found `"@ + found
            + "`"@,
        ParseErrorModel::UnterminatedPredicate { position } => "predicate is not closed at byte "@
            + decimal(position),
        ParseErrorModel::EmptyPath => "the query is empty"@,
    }
}

impl ParseQueryError {
    /// The error as a message for a reader.
    pub fn message(&self) -> (r: String)
        ensures
            r@ == message_text(self@),
    {
        match self {
            ParseQueryError::UnexpectedToken { expected, found, position } => {
                let mut out = "expected ".to_owned();
                out.append(
                    match expected {
                        Expected::Selector => "a selector",
                        Expected::Value => "a value",
                        Expected::Separator => "a separator",
                    },
                );
                out.append(" at byte ");
                let at = render_integer(*position as i128);
                out.append(at.as_str());
                out.append(", found `");
                out.append(found.as_str());
                out.append("`");
                out
            },
            ParseQueryError::UnterminatedPredicate { position } => {
                let mut out = "predicate is not closed at byte ".to_owned();
                let at = render_integer(*position as i128);
                out.append(at.as_str());
                out
            },
            ParseQueryError::EmptyPath => "the query is empty".to_owned(),
        }
    }
}

impl Path {
    /// Whether the path has a step, and each of its predicates a group.
    pub open spec fn wf(&self) -> bool {
        well_formed(self@)
    }
}

} // verus!

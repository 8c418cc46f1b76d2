//! The grammar of paths, over the tokens of the lexer.
//!
//! ```text
//! Path       := ('/' | '//')? Step (StepSep Step)*
//! StepSep    := '/' | '//'
//! Step       := AxisPrefix Selector? Predicate? | Selector Predicate?
//! AxisPrefix := '.' | '..'
//! Selector   := Alphanumeric | '*'
//! Predicate  := '[' Group ('|' Group)* ']'
//! Group      := Item*
//! Item       := Alphanumeric '=' Value | Value
//! Value      := String | Alphanumeric
//! ```
//!
//! A leading `/` is a step of its own, which selects the document root; a
//! leading `//` is one that selects everything in the document. A first
//! step without a leading separator has the implicit child axis. Behind a
//! separator, leading or not, a step has the axis of the separator, child
//! for `/` and descendant-or-self for `//`, unless it has an axis prefix of
//! its own, which takes its place. A name with `=` behind it is always the
//! name of a property.

use vstd::prelude::*;
use crate::lexer::{located_tokens, Located, Spanned, Token};
use crate::path::{
    well_formed, Axis, Expected, ItemModel, ParseErrorModel, SelectorModel, StepModel,
};
use crate::text::utf8_len;

verus! {

/// The body of the quoted text `s` from `i` on, appended to `acc`: a
/// backslash gives way to the character behind it, and the body ends at the
/// closing `quote`, which must be the last character of `s`.
pub open spec fn unquote_from(s: Seq<char>, quote: char, i: int, acc: Seq<char>) -> Option<
    Seq<char>,
>
    decreases s.len() - i,
{
    if !(0 <= i < s.len()) {
        None
    } else if s[i] == '\\' {
        if i + 1 < s.len() {
            unquote_from(s, quote, i + 2, acc.push(s[i + 1]))
        } else {
            None
        }
    } else if s[i] == quote {
        if i + 1 == s.len() {
            Some(acc)
        } else {
            None
        }
    } else {
        unquote_from(s, quote, i + 1, acc.push(s[i]))
    }
}

/// What the text token `s` stands for: its body without the quotes and the
/// escaping backslashes. `None` where the closing quote is missing.
pub open spec fn unquoted(s: Seq<char>) -> Option<Seq<char>> {
    if s.len() == 0 {
        None
    } else {
        unquote_from(s, s[0], 1, Seq::empty())
    }
}

/// What the token stands for where a value is read: the text of a name, or
/// the body of a quoted text.
pub open spec fn value_of(t: Token) -> Option<Seq<char>> {
    match t {
        Token::Alphanumeric(s) => Some(s),
        Token::String(s) => unquoted(s),
        _ => None,
    }
}

/// The error for the token `t`, which stands where `expected` should.
pub open spec fn unexpected(expected: Expected, t: Located) -> ParseErrorModel {
    ParseErrorModel::UnexpectedToken { expected, found: t.token.text(), position: t.position }
}

/// The error for the end of the query, where `expected` should stand.
pub open spec fn unexpected_end(expected: Expected, eof: int) -> ParseErrorModel {
    ParseErrorModel::UnexpectedToken { expected, found: Seq::empty(), position: eof }
}

/// The error for the token `t`, which stands inside a predicate and is no
/// value: a separator there means that the predicate was not closed.
pub open spec fn value_error(t: Located) -> ParseErrorModel {
    if t.token is Slash || t.token is DoubleSlash {
        ParseErrorModel::UnterminatedPredicate { position: t.position }
    } else {
        unexpected(Expected::Value, t)
    }
}

/// Whether the item at `i` is a property: a name with `=` behind it.
pub open spec fn named_item_at(toks: Seq<Located>, i: int) -> bool {
    toks[i].token is Alphanumeric && i + 1 < toks.len() && toks[i + 1].token is Equal
}

/// Reads the items of a group from the token `i` on, behind the items
/// `items` that were read before. The group ends before a `|` or a `]`, whose
/// index is returned with the items.
pub open spec fn group_from(toks: Seq<Located>, eof: int, i: int, items: Seq<ItemModel>) -> Result<
    (Seq<ItemModel>, int),
    ParseErrorModel,
>
    decreases toks.len() - i,
{
    if !(0 <= i < toks.len()) {
        Err(ParseErrorModel::UnterminatedPredicate { position: eof })
    } else if toks[i].token is LeaveSquareBracket || toks[i].token is Pipe {
        Ok((items, i))
    } else if named_item_at(toks, i) {
        if i + 2 >= toks.len() {
            Err(ParseErrorModel::UnterminatedPredicate { position: eof })
        } else {
            match value_of(toks[i + 2].token) {
                Some(v) => group_from(
                    toks,
                    eof,
                    i + 3,
                    items.push(ItemModel::Named(toks[i].token.text(), v)),
                ),
                None => Err(value_error(toks[i + 2])),
            }
        }
    } else {
        match value_of(toks[i].token) {
            Some(v) => group_from(toks, eof, i + 1, items.push(ItemModel::Positional(v))),
            None => Err(value_error(toks[i])),
        }
    }
}

/// A group that was read ends at a token behind its start.
pub proof fn lemma_group_end(toks: Seq<Located>, eof: int, i: int, items: Seq<ItemModel>)
    requires
        0 <= i,
    ensures
        group_from(toks, eof, i, items) matches Ok((_, j)) ==> i <= j < toks.len() && (
        toks[j].token is LeaveSquareBracket || toks[j].token is Pipe),
    decreases toks.len() - i,
{
    if 0 <= i < toks.len() && !(toks[i].token is LeaveSquareBracket || toks[i].token is Pipe) {
        if named_item_at(toks, i) {
            if i + 2 < toks.len() {
                match value_of(toks[i + 2].token) {
                    Some(v) => lemma_group_end(
                        toks,
                        eof,
                        i + 3,
                        items.push(ItemModel::Named(toks[i].token.text(), v)),
                    ),
                    None => {},
                }
            }
        } else {
            match value_of(toks[i].token) {
                Some(v) => lemma_group_end(toks, eof, i + 1, items.push(ItemModel::Positional(v))),
                None => {},
            }
        }
    }
}

/// Reads the groups of a predicate from the token `i` on, which is the first
/// behind `[` or `|`, behind the groups `groups` that were read before.
/// Returns the groups with the index behind the closing `]`.
pub open spec fn groups_from(
    toks: Seq<Located>,
    eof: int,
    i: int,
    groups: Seq<Seq<ItemModel>>,
) -> Result<(Seq<Seq<ItemModel>>, int), ParseErrorModel>
    decreases toks.len() - i,
{
    if i < 0 {
        Err(ParseErrorModel::UnterminatedPredicate { position: eof })
    } else {
        match group_from(toks, eof, i, Seq::empty()) {
            Err(e) => Err(e),
            Ok((items, j)) => {
                proof {
                    lemma_group_end(toks, eof, i, Seq::empty());
                }
                if toks[j].token is Pipe {
                    groups_from(toks, eof, j + 1, groups.push(items))
                } else {
                    Ok((groups.push(items), j + 1))
                }
            },
        }
    }
}

/// A predicate that was read ends behind its start, and has a group.
pub proof fn lemma_groups_end(toks: Seq<Located>, eof: int, i: int, groups: Seq<Seq<ItemModel>>)
    requires
        0 <= i,
    ensures
        groups_from(toks, eof, i, groups) matches Ok((g, j)) ==> i < j <= toks.len() && g.len()
            > groups.len(),
    decreases toks.len() - i,
{
    lemma_group_end(toks, eof, i, Seq::empty());
    match group_from(toks, eof, i, Seq::empty()) {
        Err(e) => {},
        Ok((items, j)) => {
            if toks[j].token is Pipe {
                lemma_groups_end(toks, eof, j + 1, groups.push(items));
            }
        },
    }
}

/// The axis that the prefix token `t` names.
pub open spec fn prefix_axis(t: Token) -> Option<Axis> {
    match t {
        Token::Point => Some(Axis::SelfAxis),
        Token::DoublePoint => Some(Axis::Parent),
        _ => None,
    }
}

/// The selector that the token `t` names.
pub open spec fn selector_of(t: Token) -> Option<SelectorModel> {
    match t {
        Token::Alphanumeric(name) => Some(SelectorModel::Named(name)),
        Token::Star => Some(SelectorModel::Any),
        _ => None,
    }
}

/// The selector of a step that is an axis prefix alone.
pub open spec fn lone_selector(axis: Axis) -> SelectorModel {
    if axis == Axis::Parent {
        SelectorModel::Parent
    } else {
        SelectorModel::Any
    }
}

/// Reads the axis and the selector of the step at the token `i`. An axis
/// prefix takes the place of `axis`, the axis that the separator before the
/// step asks for. Returns them with the index behind what was read.
pub open spec fn step_head(toks: Seq<Located>, eof: int, i: int, axis: Axis) -> Result<
    (Axis, SelectorModel, int),
    ParseErrorModel,
> {
    if !(0 <= i < toks.len()) {
        Err(unexpected_end(Expected::Selector, eof))
    } else {
        match prefix_axis(toks[i].token) {
            Some(own) => {
                if i + 1 < toks.len() && selector_of(toks[i + 1].token) is Some {
                    Ok((own, selector_of(toks[i + 1].token)->0, i + 2))
                } else {
                    Ok((own, lone_selector(own), i + 1))
                }
            },
            None => match selector_of(toks[i].token) {
                Some(selector) => Ok((axis, selector, i + 1)),
                None => Err(unexpected(Expected::Selector, toks[i])),
            },
        }
    }
}

/// Reads the step at the token `i`: axis and selector, then a predicate
/// where a `[` follows. Returns the step with the index behind it.
pub open spec fn step_at(toks: Seq<Located>, eof: int, i: int, axis: Axis) -> Result<
    (StepModel, int),
    ParseErrorModel,
> {
    match step_head(toks, eof, i, axis) {
        Err(e) => Err(e),
        Ok((axis, selector, j)) => {
            if j < toks.len() && toks[j].token is EnterSquareBracket {
                match groups_from(toks, eof, j + 1, Seq::empty()) {
                    Err(e) => Err(e),
                    Ok((groups, k)) => Ok((StepModel { axis, selector, predicate: Some(groups) }, k)),
                }
            } else {
                Ok((StepModel { axis, selector, predicate: None }, j))
            }
        },
    }
}

/// A step that was read ends behind its start.
pub proof fn lemma_step_end(toks: Seq<Located>, eof: int, i: int, axis: Axis)
    requires
        0 <= i,
    ensures
        step_at(toks, eof, i, axis) matches Ok((st, j)) ==> i < j <= toks.len() && (
        st.predicate matches Some(g) ==> g.len() > 0),
{
    match step_head(toks, eof, i, axis) {
        Err(e) => {},
        Ok((axis, selector, j)) => {
            lemma_groups_end(toks, eof, j + 1, Seq::empty());
        },
    }
}

/// The axis that the separator token `t` asks of the step behind it.
pub open spec fn separator_axis(t: Token) -> Option<Axis> {
    match t {
        Token::Slash => Some(Axis::Child),
        Token::DoubleSlash => Some(Axis::DescendantOrSelf),
        _ => None,
    }
}

/// Reads the rest of a path from the token `i` on, behind the steps `steps`
/// that were read before: separators, each with a step behind it.
pub open spec fn steps_from(toks: Seq<Located>, eof: int, i: int, steps: Seq<StepModel>) -> Result<
    Seq<StepModel>,
    ParseErrorModel,
>
    decreases toks.len() - i,
{
    if !(0 <= i < toks.len()) {
        Ok(steps)
    } else {
        match separator_axis(toks[i].token) {
            None => Err(unexpected(Expected::Separator, toks[i])),
            Some(axis) => match step_at(toks, eof, i + 1, axis) {
                Err(e) => Err(e),
                Ok((step, j)) => {
                    proof {
                        lemma_step_end(toks, eof, i + 1, axis);
                    }
                    steps_from(toks, eof, j, steps.push(step))
                },
            },
        }
    }
}

/// The step that a leading separator stands for: `/` selects the document
/// root, `//` everything in the document.
pub open spec fn leading_step(axis: Axis) -> StepModel {
    if axis == Axis::DescendantOrSelf {
        StepModel {
            axis: Axis::DescendantOrSelf,
            selector: SelectorModel::Anywhere,
            predicate: None,
        }
    } else {
        StepModel { axis: Axis::SelfAxis, selector: SelectorModel::Root, predicate: None }
    }
}

/// The path that the tokens `toks` spell, or the first error in them. `eof`
/// is the byte offset of the end of the query.
pub open spec fn path_of(toks: Seq<Located>, eof: int) -> Result<Seq<StepModel>, ParseErrorModel> {
    if toks.len() == 0 {
        Err(ParseErrorModel::EmptyPath)
    } else {
        match separator_axis(toks[0].token) {
            Some(axis) => {
                if toks.len() == 1 {
                    Ok(seq![leading_step(axis)])
                } else {
                    match step_at(toks, eof, 1, axis) {
                        Err(e) => Err(e),
                        Ok((step, j)) => steps_from(toks, eof, j, seq![leading_step(axis), step]),
                    }
                }
            },
            None => match step_at(toks, eof, 0, Axis::ImplicitChild) {
                Err(e) => Err(e),
                Ok((step, j)) => steps_from(toks, eof, j, seq![step]),
            },
        }
    }
}

/// The path that the query `s` spells, or the first error in it.
pub open spec fn parsed(s: Seq<char>) -> Result<Seq<StepModel>, ParseErrorModel> {
    path_of(located_tokens(s), utf8_len(s) as int)
}

/// The rest of a path keeps the steps before it, and adds well-formed steps
/// only.
pub proof fn lemma_steps_well_formed(toks: Seq<Located>, eof: int, i: int, steps: Seq<StepModel>)
    requires
        0 <= i,
        well_formed(steps),
    ensures
        steps_from(toks, eof, i, steps) matches Ok(all) ==> well_formed(all),
    decreases toks.len() - i,
{
    if 0 <= i < toks.len() {
        match separator_axis(toks[i].token) {
            None => {},
            Some(axis) => {
                lemma_step_end(toks, eof, i + 1, axis);
                match step_at(toks, eof, i + 1, axis) {
                    Err(e) => {},
                    Ok((step, j)) => {
                        lemma_steps_well_formed(toks, eof, j, steps.push(step));
                    },
                }
            },
        }
    }
}

/// Every path that the grammar accepts is well formed: it has at least one
/// step. A query without a token is refused as an empty path, and no other
/// query is.
pub proof fn lemma_parsed_well_formed(s: Seq<char>)
    ensures
        parsed(s) matches Ok(steps) ==> well_formed(steps),
        parsed(s) == Err::<Seq<StepModel>, ParseErrorModel>(ParseErrorModel::EmptyPath)
            <==> located_tokens(s).len() == 0,
{
    let toks = located_tokens(s);
    let eof = utf8_len(s) as int;
    if toks.len() > 0 {
        lemma_step_end(toks, eof, 1, Axis::Child);
        lemma_step_end(toks, eof, 1, Axis::DescendantOrSelf);
        lemma_step_end(toks, eof, 0, Axis::ImplicitChild);
        match separator_axis(toks[0].token) {
            Some(axis) => {
                if toks.len() > 1 {
                    match step_at(toks, eof, 1, axis) {
                        Err(e) => {
                            lemma_no_empty_path_in_step(toks, eof, 1, axis);
                        },
                        Ok((step, j)) => {
                            lemma_steps_well_formed(toks, eof, j, seq![leading_step(axis), step]);
                            lemma_no_empty_path_in_steps(
                                toks,
                                eof,
                                j,
                                seq![leading_step(axis), step],
                            );
                        },
                    }
                }
            },
            None => {
                match step_at(toks, eof, 0, Axis::ImplicitChild) {
                    Err(e) => {
                        lemma_no_empty_path_in_step(toks, eof, 0, Axis::ImplicitChild);
                    },
                    Ok((step, j)) => {
                        lemma_steps_well_formed(toks, eof, j, seq![step]);
                        lemma_no_empty_path_in_steps(toks, eof, j, seq![step]);
                    },
                }
            },
        }
    }
}

/// No group fails as an empty path.
proof fn lemma_no_empty_path_in_group(toks: Seq<Located>, eof: int, i: int, items: Seq<ItemModel>)
    ensures
        group_from(toks, eof, i, items) matches Err(e) ==> !(e is EmptyPath),
    decreases toks.len() - i,
{
    if 0 <= i < toks.len() && !(toks[i].token is LeaveSquareBracket || toks[i].token is Pipe) {
        if named_item_at(toks, i) {
            if i + 2 < toks.len() {
                match value_of(toks[i + 2].token) {
                    Some(v) => lemma_no_empty_path_in_group(
                        toks,
                        eof,
                        i + 3,
                        items.push(ItemModel::Named(toks[i].token.text(), v)),
                    ),
                    None => {},
                }
            }
        } else {
            match value_of(toks[i].token) {
                Some(v) => lemma_no_empty_path_in_group(
                    toks,
                    eof,
                    i + 1,
                    items.push(ItemModel::Positional(v)),
                ),
                None => {},
            }
        }
    }
}

/// No predicate fails as an empty path.
proof fn lemma_no_empty_path_in_groups(
    toks: Seq<Located>,
    eof: int,
    i: int,
    groups: Seq<Seq<ItemModel>>,
)
    ensures
        groups_from(toks, eof, i, groups) matches Err(e) ==> !(e is EmptyPath),
    decreases toks.len() - i,
{
    if i >= 0 {
        lemma_no_empty_path_in_group(toks, eof, i, Seq::empty());
        lemma_group_end(toks, eof, i, Seq::empty());
        match group_from(toks, eof, i, Seq::empty()) {
            Err(e) => {},
            Ok((items, j)) => {
                if toks[j].token is Pipe {
                    lemma_no_empty_path_in_groups(toks, eof, j + 1, groups.push(items));
                }
            },
        }
    }
}

/// No step fails as an empty path.
proof fn lemma_no_empty_path_in_step(toks: Seq<Located>, eof: int, i: int, axis: Axis)
    ensures
        step_at(toks, eof, i, axis) matches Err(e) ==> !(e is EmptyPath),
{
    match step_head(toks, eof, i, axis) {
        Err(e) => {},
        Ok((axis, selector, j)) => {
            lemma_no_empty_path_in_groups(toks, eof, j + 1, Seq::empty());
        },
    }
}

/// No rest of a path fails as an empty path.
proof fn lemma_no_empty_path_in_steps(toks: Seq<Located>, eof: int, i: int, steps: Seq<StepModel>)
    requires
        0 <= i,
    ensures
        steps_from(toks, eof, i, steps) matches Err(e) ==> !(e is EmptyPath),
    decreases toks.len() - i,
{
    if 0 <= i < toks.len() {
        match separator_axis(toks[i].token) {
            None => {},
            Some(axis) => {
                lemma_step_end(toks, eof, i + 1, axis);
                lemma_no_empty_path_in_step(toks, eof, i + 1, axis);
                match step_at(toks, eof, i + 1, axis) {
                    Err(e) => {},
                    Ok((step, j)) => {
                        lemma_no_empty_path_in_steps(toks, eof, j, steps.push(step));
                    },
                }
            },
        }
    }
}

/// The tokens of a vector, each as what it stands for.
pub open spec fn views(toks: Seq<Spanned>) -> Seq<Located> {
    Seq::new(toks.len(), |k: int| toks[k]@)
}

/// The path that `//*` spells: the step that selects everything in the
/// document, and a step along the descendant-or-self axis that selects any
/// node.
pub proof fn lemma_double_slash_star(toks: Seq<Located>, eof: int)
    requires
        toks.len() == 2,
        toks[0].token is DoubleSlash,
        toks[1].token is Star,
    ensures
        path_of(toks, eof) == Ok::<Seq<StepModel>, ParseErrorModel>(
            seq![
                leading_step(Axis::DescendantOrSelf),
                StepModel {
                    axis: Axis::DescendantOrSelf,
                    selector: SelectorModel::Any,
                    predicate: None,
                },
            ],
        ),
{
    let axis = Axis::DescendantOrSelf;
    let any = StepModel { axis, selector: SelectorModel::Any, predicate: None };
    assert(step_head(toks, eof, 1, axis) == Ok::<_, ParseErrorModel>((axis, SelectorModel::Any, 2int)));
    assert(step_at(toks, eof, 1, axis) == Ok::<_, ParseErrorModel>((any, 2int)));
    assert(steps_from(toks, eof, 2, seq![leading_step(axis), any]) == Ok::<
        Seq<StepModel>,
        ParseErrorModel,
    >(seq![leading_step(axis), any]));
}

} // verus!

//! The parser: reads a path from the text of a query.

use vstd::prelude::*;
use vstd::std_specs::iter::IteratorSpec;
use crate::grammar::{
    group_from, groups_from, leading_step, lemma_group_end, lemma_parsed_well_formed,
    lemma_step_end, named_item_at, parsed, path_of, selector_of, separator_axis, step_at,
    steps_from, unexpected, unquote_from, unquoted, value_error, value_of, views,
};
use crate::lexer::{located_tokens, tokenize, Spanned, TokenType};
use crate::path::{
    group_views, item_views, step_views, Axis, Expected, ParseQueryError, Path, Predicate,
    PredicateGroup, PredicateItem, Selector, Step,
};
use crate::text::byte_len;

verus! {

broadcast use vstd::string::group_string_axioms;

/// Takes the quotes and the escaping backslashes off the text of a `String`
/// token. `None` where the closing quote is missing.
pub fn unquote(text: &str) -> (r: Option<String>)
    ensures
        match r {
            Some(v) => unquoted(text@) == Some(v@),
            None => unquoted(text@) is None,
        },
{
    let ghost s = text@;
    let mut it = text.chars();
    let quote = match it.next() {
        Some(c) => c,
        None => {
            return None;
        },
    };
    assert(s.skip(0).drop_first() =~= s.skip(1));
    let mut out = String::new();
    let ghost mut i: int = 1;
    loop
        invariant
            s == text@,
            1 <= i <= s.len(),
            quote == s[0],
            it.remaining() == s.skip(i),
            unquote_from(s, quote, i, out@) == unquoted(s),
        decreases s.len() - i,
    {
        match it.next() {
            None => {
                return None;
            },
            Some(c) => {
                assert(c == s[i]);
                assert(s.skip(i).drop_first() =~= s.skip(i + 1));
                if c == '\\' {
                    match it.next() {
                        None => {
                            return None;
                        },
                        Some(d) => {
                            assert(d == s[i + 1]);
                            assert(s.skip(i + 1).drop_first() =~= s.skip(i + 2));
                            out.push(d);
                            proof {
                                i = i + 2;
                            }
                        },
                    }
                } else if c == quote {
                    match it.next() {
                        None => {
                            return Some(out);
                        },
                        Some(_) => {
                            return None;
                        },
                    }
                } else {
                    out.push(c);
                    proof {
                        i = i + 1;
                    }
                }
            },
        }
    }
}

/// A copy of the text that the token covers in the query.
pub fn token_text(t: &TokenType) -> (r: String)
    ensures
        r@ == t@.text(),
{
    proof {
        reveal_strlit("/");
        reveal_strlit("//");
        reveal_strlit(".");
        reveal_strlit("..");
        reveal_strlit("*");
        reveal_strlit("[");
        reveal_strlit("]");
        reveal_strlit("=");
        reveal_strlit("|");
    }
    let text: &str = match t {
        TokenType::String(s) => s,
        TokenType::Alphanumeric(s) => s,
        TokenType::Unknown(s) => s,
        TokenType::Slash => "/",
        TokenType::DoubleSlash => "//",
        TokenType::Point => ".",
        TokenType::DoublePoint => "..",
        TokenType::Star => "*",
        TokenType::EnterSquareBracket => "[",
        TokenType::LeaveSquareBracket => "]",
        TokenType::Equal => "=",
        TokenType::Pipe => "|",
    };
    assert(text@ =~= t@.text());
    text.to_owned()
}

/// What the token stands for where a value is read.
fn read_value(t: &TokenType) -> (r: Option<String>)
    ensures
        match r {
            Some(v) => value_of(t@) == Some(v@),
            None => value_of(t@) is None,
        },
{
    match t {
        TokenType::Alphanumeric(s) => Some((*s).to_owned()),
        TokenType::String(s) => unquote(s),
        _ => None,
    }
}

/// The error for a token that stands where `expected` should.
fn unexpected_token(expected: Expected, t: &Spanned) -> (r: ParseQueryError)
    ensures
        r@ == unexpected(expected, t@),
{
    ParseQueryError::UnexpectedToken {
        expected,
        found: token_text(&t.token),
        position: t.position,
    }
}

/// The error for a token inside a predicate that is no value.
fn no_value(t: &Spanned) -> (r: ParseQueryError)
    ensures
        r@ == value_error(t@),
{
    match t.token {
        TokenType::Slash | TokenType::DoubleSlash => ParseQueryError::UnterminatedPredicate {
            position: t.position,
        },
        _ => unexpected_token(Expected::Value, t),
    }
}

/// Whether the item at `i` is a property: a name with `=` behind it.
fn is_named_item(toks: &Vec<Spanned>, i: usize) -> (r: bool)
    requires
        i < toks.len(),
    ensures
        r == named_item_at(views(toks@), i as int),
{
    match toks[i].token {
        TokenType::Alphanumeric(_) => {
            if i + 1 < toks.len() {
                match toks[i + 1].token {
                    TokenType::Equal => true,
                    _ => false,
                }
            } else {
                false
            }
        },
        _ => false,
    }
}

/// Reads one group of a predicate from the token `start` on. Returns it with
/// the index of the `|` or `]` that ends it.
fn parse_group(toks: &Vec<Spanned>, eof: usize, start: usize) -> (r: Result<
    (PredicateGroup, usize),
    ParseQueryError,
>)
    requires
        start <= toks.len(),
    ensures
        match group_from(views(toks@), eof as int, start as int, Seq::empty()) {
            Ok((items, j)) => r matches Ok((g, k)) && g@ == items && k == j,
            Err(e) => r matches Err(f) && f@ == e,
        },
{
    let ghost tv = views(toks@);
    let mut items: Vec<PredicateItem> = Vec::new();
    let mut i = start;
    assert(item_views(items@) =~= Seq::empty());
    loop
        invariant
            tv == views(toks@),
            i <= toks.len(),
            group_from(tv, eof as int, i as int, item_views(items@)) == group_from(
                tv,
                eof as int,
                start as int,
                Seq::empty(),
            ),
        decreases toks.len() - i,
    {
        if i >= toks.len() {
            return Err(ParseQueryError::UnterminatedPredicate { position: eof });
        }
        let t = &toks[i];
        assert(tv[i as int] == t@);
        match t.token {
            TokenType::LeaveSquareBracket | TokenType::Pipe => {
                let group = PredicateGroup { items };
                assert(group@ =~= item_views(items@));
                return Ok((group, i));
            },
            _ => {},
        }
        let ghost before = item_views(items@);
        if is_named_item(toks, i) {
            if i + 2 >= toks.len() {
                return Err(ParseQueryError::UnterminatedPredicate { position: eof });
            }
            let v = &toks[i + 2];
            assert(tv[i + 2] == v@);
            match read_value(&v.token) {
                Some(value) => {
                    let item = PredicateItem::Named(token_text(&t.token), value);
                    items.push(item);
                    assert(item_views(items@) =~= before.push(item@));
                    i = i + 3;
                },
                None => {
                    return Err(no_value(v));
                },
            }
        } else {
            match read_value(&t.token) {
                Some(value) => {
                    let item = PredicateItem::Positional(value);
                    items.push(item);
                    assert(item_views(items@) =~= before.push(item@));
                    i = i + 1;
                },
                None => {
                    return Err(no_value(t));
                },
            }
        }
    }
}

/// Reads the groups of a predicate from the token `start` on, the first
/// behind `[`. Returns the predicate with the index behind its `]`.
fn parse_predicate(toks: &Vec<Spanned>, eof: usize, start: usize) -> (r: Result<
    (Predicate, usize),
    ParseQueryError,
>)
    requires
        start <= toks.len(),
    ensures
        match groups_from(views(toks@), eof as int, start as int, Seq::empty()) {
            Ok((groups, j)) => r matches Ok((p, k)) && p@ == groups && k == j,
            Err(e) => r matches Err(f) && f@ == e,
        },
{
    let ghost tv = views(toks@);
    let mut groups: Vec<PredicateGroup> = Vec::new();
    let mut i = start;
    assert(group_views(groups@) =~= Seq::empty());
    loop
        invariant
            tv == views(toks@),
            i <= toks.len(),
            groups_from(tv, eof as int, i as int, group_views(groups@)) == groups_from(
                tv,
                eof as int,
                start as int,
                Seq::empty(),
            ),
        decreases toks.len() - i,
    {
        proof {
            lemma_group_end(tv, eof as int, i as int, Seq::empty());
        }
        let ghost before = group_views(groups@);
        match parse_group(toks, eof, i) {
            Err(e) => {
                return Err(e);
            },
            Ok((group, j)) => {
                assert(tv[j as int] == toks@[j as int]@);
                let more = match toks[j].token {
                    TokenType::Pipe => true,
                    _ => false,
                };
                groups.push(group);
                assert(group_views(groups@) =~= before.push(group@));
                if more {
                    i = j + 1;
                } else {
                    let predicate = Predicate { groups };
                    assert(predicate@ =~= group_views(groups@));
                    return Ok((predicate, j + 1));
                }
            },
        }
    }
}

/// The selector that the token names, if it names one.
fn read_selector(t: &TokenType) -> (r: Option<Selector>)
    ensures
        match r {
            Some(v) => selector_of(t@) == Some(v@),
            None => selector_of(t@) is None,
        },
{
    match t {
        TokenType::Alphanumeric(name) => Some(Selector::Named((*name).to_owned())),
        TokenType::Star => Some(Selector::Any),
        _ => None,
    }
}

/// Reads the step at the token `start`. Returns it with the index behind it.
fn parse_step(toks: &Vec<Spanned>, eof: usize, start: usize, axis: Axis) -> (r: Result<
    (Step, usize),
    ParseQueryError,
>)
    requires
        start <= toks.len(),
    ensures
        match step_at(views(toks@), eof as int, start as int, axis) {
            Ok((step, j)) => r matches Ok((s, k)) && s@ == step && k == j,
            Err(e) => r matches Err(f) && f@ == e,
        },
{
    let ghost tv = views(toks@);
    if start >= toks.len() {
        return Err(
            ParseQueryError::UnexpectedToken {
                expected: Expected::Selector,
                found: String::new(),
                position: eof,
            },
        );
    }
    let t = &toks[start];
    assert(tv[start as int] == t@);
    let own = match t.token {
        TokenType::Point => Some(Axis::SelfAxis),
        TokenType::DoublePoint => Some(Axis::Parent),
        _ => None,
    };
    let (axis, selector, behind) = match own {
        Some(own) => {
            let named = if start + 1 < toks.len() {
                assert(tv[start + 1] == toks@[start + 1]@);
                read_selector(&toks[start + 1].token)
            } else {
                None
            };
            match named {
                Some(selector) => (own, selector, start + 2),
                None => {
                    let lone = match own {
                        Axis::Parent => Selector::Parent,
                        _ => Selector::Any,
                    };
                    (own, lone, start + 1)
                },
            }
        },
        None => match read_selector(&t.token) {
            Some(selector) => (axis, selector, start + 1),
            None => {
                return Err(unexpected_token(Expected::Selector, t));
            },
        },
    };
    let opens = if behind < toks.len() {
        assert(tv[behind as int] == toks@[behind as int]@);
        match toks[behind].token {
            TokenType::EnterSquareBracket => true,
            _ => false,
        }
    } else {
        false
    };
    if opens {
        match parse_predicate(toks, eof, behind + 1) {
            Err(e) => Err(e),
            Ok((predicate, end)) => Ok((Step { axis, selector, predicate: Some(predicate) }, end)),
        }
    } else {
        Ok((Step { axis, selector, predicate: None }, behind))
    }
}

/// The axis that a separator asks of the step behind it.
fn read_separator(t: &TokenType) -> (r: Option<Axis>)
    ensures
        r == separator_axis(t@),
{
    match t {
        TokenType::Slash => Some(Axis::Child),
        TokenType::DoubleSlash => Some(Axis::DescendantOrSelf),
        _ => None,
    }
}

impl Path {
    /// Reads a path from the tokens of a query, whose end is at the byte
    /// offset `eof`.
    pub fn parse_tokens(toks: &Vec<Spanned>, eof: usize) -> (r: Result<Path, ParseQueryError>)
        ensures
            match path_of(views(toks@), eof as int) {
                Ok(steps) => r matches Ok(p) && p@ == steps,
                Err(e) => r matches Err(f) && f@ == e,
            },
    {
        let ghost tv = views(toks@);
        if toks.len() == 0 {
            return Err(ParseQueryError::EmptyPath);
        }
        assert(tv[0] == toks@[0]@);
        let mut steps: Vec<Step> = Vec::new();
        let first = match read_separator(&toks[0].token) {
            Some(axis) => {
                let leading = match axis {
                    Axis::DescendantOrSelf => Step {
                        axis: Axis::DescendantOrSelf,
                        selector: Selector::Anywhere,
                        predicate: None,
                    },
                    _ => Step { axis: Axis::SelfAxis, selector: Selector::Root, predicate: None },
                };
                assert(leading@ == leading_step(axis));
                steps.push(leading);
                if toks.len() == 1 {
                    let path = Path { steps };
                    assert(path@ =~= seq![leading_step(axis)]);
                    return Ok(path);
                }
                proof {
                    lemma_step_end(tv, eof as int, 1, axis);
                }
                match parse_step(toks, eof, 1, axis) {
                    Err(e) => {
                        return Err(e);
                    },
                    Ok((step, j)) => {
                        steps.push(step);
                        assert(step_views(steps@) =~= seq![leading_step(axis), step@]);
                        j
                    },
                }
            },
            None => {
                proof {
                    lemma_step_end(tv, eof as int, 0, Axis::ImplicitChild);
                }
                match parse_step(toks, eof, 0, Axis::ImplicitChild) {
                    Err(e) => {
                        return Err(e);
                    },
                    Ok((step, j)) => {
                        steps.push(step);
                        assert(step_views(steps@) =~= seq![step@]);
                        j
                    },
                }
            },
        };
        let mut i = first;
        loop
            invariant
                tv == views(toks@),
                i <= toks.len(),
                steps_from(tv, eof as int, i as int, step_views(steps@)) == path_of(tv, eof as int),
            decreases toks.len() - i,
        {
            if i >= toks.len() {
                let path = Path { steps };
                assert(path@ =~= step_views(steps@));
                return Ok(path);
            }
            let t = &toks[i];
            assert(tv[i as int] == t@);
            match read_separator(&t.token) {
                None => {
                    return Err(unexpected_token(Expected::Separator, t));
                },
                Some(axis) => {
                    proof {
                        lemma_step_end(tv, eof as int, i + 1, axis);
                    }
                    let ghost before = step_views(steps@);
                    match parse_step(toks, eof, i + 1, axis) {
                        Err(e) => {
                            return Err(e);
                        },
                        Ok((step, j)) => {
                            steps.push(step);
                            assert(step_views(steps@) =~= before.push(step@));
                            i = j;
                        },
                    }
                },
            }
        }
    }

    /// Reads a path from the text of a query.
    pub fn parse(input: &str) -> (r: Result<Path, ParseQueryError>)
        ensures
            match parsed(input@) {
                Ok(steps) => r matches Ok(p) && p@ == steps && p.wf(),
                Err(e) => r matches Err(f) && f@ == e,
            },
    {
        let toks = tokenize(input);
        let eof = byte_len(input);
        proof {
            assert(views(toks@) =~= located_tokens(input@));
            lemma_parsed_well_formed(input@);
        }
        Path::parse_tokens(&toks, eof)
    }
}

} // verus!

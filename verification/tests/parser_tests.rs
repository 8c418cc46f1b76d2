use kdl_query::parser::unquote;
use kdl_query::path::{
    Axis, Expected, ParseQueryError, Path, Predicate, PredicateGroup, PredicateItem, Selector,
    Step,
};

fn step(axis: Axis, selector: Selector) -> Step {
    Step { axis, selector, predicate: None }
}

fn named(name: &str) -> Selector {
    Selector::Named(name.to_string())
}

fn property(name: &str, text: &str) -> PredicateItem {
    PredicateItem::Named(name.to_string(), text.to_string())
}

fn argument(text: &str) -> PredicateItem {
    PredicateItem::Positional(text.to_string())
}

fn predicate(groups: Vec<Vec<PredicateItem>>) -> Option<Predicate> {
    Some(Predicate { groups: groups.into_iter().map(|items| PredicateGroup { items }).collect() })
}

fn unexpected(expected: Expected, found: &str, position: usize) -> ParseQueryError {
    ParseQueryError::UnexpectedToken { expected, found: found.to_string(), position }
}

#[test]
fn empty_query_is_an_empty_path() {
    assert_eq!(Path::parse(""), Err(ParseQueryError::EmptyPath));
    assert_eq!(Path::parse(" \t\n"), Err(ParseQueryError::EmptyPath));
}

#[test]
fn leading_slash_selects_the_root() {
    assert_eq!(
        Path::parse("/package"),
        Ok(Path {
            steps: vec![step(Axis::SelfAxis, Selector::Root), step(Axis::Child, named("package"))]
        })
    );
    assert_eq!(Path::parse("/"), Ok(Path { steps: vec![step(Axis::SelfAxis, Selector::Root)] }));
}

#[test]
fn leading_double_slash_selects_anywhere() {
    assert_eq!(
        Path::parse("//*[optional=true]"),
        Ok(Path {
            steps: vec![
                step(Axis::DescendantOrSelf, Selector::Anywhere),
                Step {
                    axis: Axis::DescendantOrSelf,
                    selector: Selector::Any,
                    predicate: predicate(vec![vec![property("optional", "true")]]),
                },
            ]
        })
    );
    assert_eq!(
        Path::parse("//"),
        Ok(Path { steps: vec![step(Axis::DescendantOrSelf, Selector::Anywhere)] })
    );
}

#[test]
fn first_step_without_separator_is_an_implicit_child() {
    assert_eq!(
        Path::parse("package/name"),
        Ok(Path {
            steps: vec![
                step(Axis::ImplicitChild, named("package")),
                step(Axis::Child, named("name")),
            ]
        })
    );
}

#[test]
fn double_slash_between_steps_is_descendant_or_self() {
    assert_eq!(
        Path::parse("a // b"),
        Ok(Path {
            steps: vec![
                step(Axis::ImplicitChild, named("a")),
                step(Axis::DescendantOrSelf, named("b")),
            ]
        })
    );
}

#[test]
fn axis_prefixes_may_stand_alone() {
    assert_eq!(
        Path::parse("/./..//*"),
        Ok(Path {
            steps: vec![
                step(Axis::SelfAxis, Selector::Root),
                step(Axis::SelfAxis, Selector::Any),
                step(Axis::Parent, Selector::Parent),
                step(Axis::DescendantOrSelf, Selector::Any),
            ]
        })
    );
}

#[test]
fn axis_prefix_takes_the_selector_behind_it() {
    assert_eq!(
        Path::parse(".name/..*"),
        Ok(Path {
            steps: vec![step(Axis::SelfAxis, named("name")), step(Axis::Parent, Selector::Any)]
        })
    );
    assert_eq!(
        Path::parse("a//.b"),
        Ok(Path {
            steps: vec![step(Axis::ImplicitChild, named("a")), step(Axis::SelfAxis, named("b"))]
        })
    );
}

#[test]
fn predicate_groups_and_items() {
    assert_eq!(
        Path::parse(r#"a[x=1 "two" 'three' | y="z\"q" n]"#),
        Ok(Path {
            steps: vec![Step {
                axis: Axis::ImplicitChild,
                selector: named("a"),
                predicate: predicate(vec![
                    vec![property("x", "1"), argument("two"), argument("three")],
                    vec![property("y", "z\"q"), argument("n")],
                ]),
            }]
        })
    );
}

#[test]
fn predicate_may_follow_a_lone_prefix() {
    assert_eq!(
        Path::parse(".[a]"),
        Ok(Path {
            steps: vec![Step {
                axis: Axis::SelfAxis,
                selector: Selector::Any,
                predicate: predicate(vec![vec![argument("a")]]),
            }]
        })
    );
}

#[test]
fn empty_groups_are_groups() {
    assert_eq!(
        Path::parse("a[]"),
        Ok(Path {
            steps: vec![Step {
                axis: Axis::ImplicitChild,
                selector: named("a"),
                predicate: predicate(vec![vec![]]),
            }]
        })
    );
    assert_eq!(
        Path::parse("a[|x]"),
        Ok(Path {
            steps: vec![Step {
                axis: Axis::ImplicitChild,
                selector: named("a"),
                predicate: predicate(vec![vec![], vec![argument("x")]]),
            }]
        })
    );
}

#[test]
fn name_before_equal_is_a_property_name() {
    assert_eq!(
        Path::parse("a[1=2 3]"),
        Ok(Path {
            steps: vec![Step {
                axis: Axis::ImplicitChild,
                selector: named("a"),
                predicate: predicate(vec![vec![property("1", "2"), argument("3")]]),
            }]
        })
    );
}

#[test]
fn parsed_paths_have_a_step() {
    for query in ["/", "//", "a", ".", "..", "*", "/a/b[c]", "a//b/../*"] {
        match Path::parse(query) {
            Ok(path) => assert!(!path.steps.is_empty()),
            Err(e) => panic!("{:?}", e),
        }
    }
}

#[test]
fn predicate_open_at_the_end_is_unterminated() {
    assert_eq!(Path::parse("a[x=1"), Err(ParseQueryError::UnterminatedPredicate { position: 5 }));
    assert_eq!(Path::parse("a["), Err(ParseQueryError::UnterminatedPredicate { position: 2 }));
    assert_eq!(Path::parse("a[x= "), Err(ParseQueryError::UnterminatedPredicate { position: 5 }));
    assert_eq!(Path::parse("a[x|"), Err(ParseQueryError::UnterminatedPredicate { position: 4 }));
}

#[test]
fn separator_inside_a_predicate_is_unterminated() {
    assert_eq!(Path::parse("a[x/b]"), Err(ParseQueryError::UnterminatedPredicate { position: 3 }));
    assert_eq!(Path::parse("a[ //b]"), Err(ParseQueryError::UnterminatedPredicate { position: 3 }));
    assert_eq!(Path::parse("a[x=/b]"), Err(ParseQueryError::UnterminatedPredicate { position: 4 }));
}

#[test]
fn unexpected_tokens_carry_text_and_byte_offset() {
    assert_eq!(Path::parse("a b"), Err(unexpected(Expected::Separator, "b", 2)));
    assert_eq!(Path::parse("a?"), Err(unexpected(Expected::Separator, "?", 1)));
    assert_eq!(Path::parse("\u{00e9} ?"), Err(unexpected(Expected::Separator, "?", 3)));
    assert_eq!(Path::parse("a]"), Err(unexpected(Expected::Separator, "]", 1)));
    assert_eq!(Path::parse("a/"), Err(unexpected(Expected::Selector, "", 2)));
    assert_eq!(Path::parse("a//[x]"), Err(unexpected(Expected::Selector, "[", 3)));
    assert_eq!(Path::parse("[x]"), Err(unexpected(Expected::Selector, "[", 0)));
    assert_eq!(Path::parse("'a'"), Err(unexpected(Expected::Selector, "'a'", 0)));
    assert_eq!(Path::parse("a[=1]"), Err(unexpected(Expected::Value, "=", 2)));
    assert_eq!(Path::parse("a[x=]"), Err(unexpected(Expected::Value, "]", 4)));
    assert_eq!(Path::parse("a[x=|y]"), Err(unexpected(Expected::Value, "|", 4)));
    assert_eq!(Path::parse("a[*]"), Err(unexpected(Expected::Value, "*", 2)));
    assert_eq!(Path::parse("a[..]"), Err(unexpected(Expected::Value, "..", 2)));
    assert_eq!(Path::parse("a[[]"), Err(unexpected(Expected::Value, "[", 2)));
}

#[test]
fn text_without_closing_quote_is_no_value() {
    assert_eq!(Path::parse("a[\"x]"), Err(unexpected(Expected::Value, "\"x]", 2)));
    assert_eq!(Path::parse("a[k='x\\']"), Err(unexpected(Expected::Value, "'x\\']", 4)));
}

#[test]
fn first_error_wins() {
    assert_eq!(Path::parse("a ? [x"), Err(unexpected(Expected::Separator, "?", 2)));
}

#[test]
fn unquote_takes_quotes_and_escapes_off() {
    assert_eq!(unquote("\"hello\""), Some("hello".to_string()));
    assert_eq!(unquote("''"), Some(String::new()));
    assert_eq!(unquote(r#""a\"b\\c\d""#), Some("a\"b\\cd".to_string()));
    assert_eq!(unquote("'it\"s'"), Some("it\"s".to_string()));
    assert_eq!(unquote("\"\u{732b}\""), Some("\u{732b}".to_string()));
}

#[test]
fn unquote_refuses_what_is_not_closed() {
    assert_eq!(unquote(""), None);
    assert_eq!(unquote("\""), None);
    assert_eq!(unquote("\"abc"), None);
    assert_eq!(unquote("\"abc\\\""), None);
    assert_eq!(unquote("\"abc\\"), None);
    assert_eq!(unquote("\"a\"b"), None);
    assert_eq!(unquote("\"a\"b\""), None);
}

#[test]
fn errors_as_messages() {
    assert_eq!(Path::parse("").unwrap_err().message(), "the query is empty");
    assert_eq!(
        Path::parse("a[x=1").unwrap_err().message(),
        "predicate is not closed at byte 5"
    );
    assert_eq!(
        Path::parse("a b").unwrap_err().message(),
        "expected a separator at byte 2, found `b`"
    );
    assert_eq!(Path::parse("a/").unwrap_err().message(), "expected a selector at byte 2, found ``");
    assert_eq!(
        Path::parse("a[=1]").unwrap_err().message(),
        "expected a value at byte 2, found `=`"
    );
    assert_eq!(
        unexpected(Expected::Value, "x", 1234567890).message(),
        "expected a value at byte 1234567890, found `x`"
    );
}

#[test]
fn step_behind_a_leading_separator_has_its_axis() {
    assert_eq!(
        Path::parse("//a/b"),
        Ok(Path {
            steps: vec![
                step(Axis::DescendantOrSelf, Selector::Anywhere),
                step(Axis::DescendantOrSelf, named("a")),
                step(Axis::Child, named("b")),
            ]
        })
    );
    assert_eq!(
        Path::parse("//..a"),
        Ok(Path {
            steps: vec![
                step(Axis::DescendantOrSelf, Selector::Anywhere),
                step(Axis::Parent, named("a")),
            ]
        })
    );
    assert_eq!(Path::parse("//[x]"), Err(unexpected(Expected::Selector, "[", 2)));
}

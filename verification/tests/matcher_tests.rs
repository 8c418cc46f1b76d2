use kdl_query::document::{Document, Entry, Position, Value};
use kdl_query::matcher::evaluate;
use kdl_query::path::{Axis, Path, Predicate, PredicateGroup, PredicateItem, Selector, Step};
use kdl_query::predicate::render;
use kdl_query::text::render_integer;

fn argument(value: Value) -> Entry {
    Entry { name: None, value }
}

fn property(name: &str, value: Value) -> Entry {
    Entry { name: Some(name.to_string()), value }
}

fn text(value: &str) -> Value {
    Value::String(value.to_string())
}

fn add(
    document: &mut Document,
    parent: Option<usize>,
    name: &str,
    entries: Vec<Entry>,
    has_children: bool,
) -> usize {
    match document.push_node(parent, name.to_string(), entries, has_children) {
        Some(index) => index,
        None => panic!("parent is not open"),
    }
}

/// package name="x" version="1.0"
/// dependency name="y" optional=#true
fn packages() -> Document {
    let mut document = Document::new();
    add(
        &mut document,
        None,
        "package",
        vec![property("name", text("x")), property("version", text("1.0"))],
        false,
    );
    add(
        &mut document,
        None,
        "dependency",
        vec![property("name", text("y")), property("optional", Value::Bool(true))],
        false,
    );
    document
}

/// a { b { c }; d }; e { b }
fn family() -> Document {
    let mut document = Document::new();
    let a = add(&mut document, None, "a", vec![], true);
    let b = add(&mut document, Some(a), "b", vec![], true);
    add(&mut document, Some(b), "c", vec![], false);
    add(&mut document, Some(a), "d", vec![], false);
    let e = add(&mut document, None, "e", vec![], true);
    add(&mut document, Some(e), "b", vec![], false);
    document
}

fn select(document: &Document, query: &str) -> Vec<usize> {
    match Path::parse(query) {
        Ok(path) => path.select(document),
        Err(e) => panic!("{:?}", e),
    }
}

#[test]
fn end_to_end_package_by_name() {
    let document = packages();
    assert_eq!(select(&document, "/package"), vec![0]);
    let path = Path::parse("/package").unwrap();
    let found = evaluate(&path, &document);
    assert_eq!(found.len(), 1);
    assert_eq!(found[0].name, "package");
    assert_eq!(found[0], &document.nodes[0]);
}

#[test]
fn end_to_end_anywhere_by_property() {
    let document = packages();
    assert_eq!(select(&document, "//*[optional=true]"), vec![1]);
    let path = Path::parse("//*[optional=true]").unwrap();
    let found = evaluate(&path, &document);
    assert_eq!(found.len(), 1);
    assert_eq!(found[0].name, "dependency");
}

#[test]
fn end_to_end_predicate_on_a_name() {
    let document = packages();
    assert_eq!(select(&document, "/package[name=\"x\"]"), vec![0]);
    assert_eq!(select(&document, "/package[name=\"z\"]"), Vec::<usize>::new());
    let path = Path::parse("/package[name=\"z\"]").unwrap();
    assert!(evaluate(&path, &document).is_empty());
}

#[test]
fn child_axis_gives_the_children_in_order() {
    let document = family();
    assert_eq!(select(&document, "/*"), vec![0, 4]);
    assert_eq!(select(&document, "/a/*"), vec![1, 3]);
    assert_eq!(select(&document, "a/b/c"), vec![2]);
    assert_eq!(select(&document, "/a/d/*"), Vec::<usize>::new());
}

#[test]
fn child_step_from_one_position_gives_as_many_as_it_has_children() {
    let document = family();
    let step = Step { axis: Axis::Child, selector: Selector::Any, predicate: None };
    assert_eq!(
        step.apply(&document, &vec![Position::Node(0)]),
        vec![Position::Node(1), Position::Node(3)]
    );
    assert_eq!(
        step.apply(&document, &vec![Position::Root]),
        vec![Position::Node(0), Position::Node(4)]
    );
    assert_eq!(step.apply(&document, &vec![Position::Node(2)]), Vec::<Position>::new());
    assert_eq!(step.apply(&document, &vec![]), Vec::<Position>::new());
}

#[test]
fn named_selector_gives_nodes_of_that_name_only() {
    let document = family();
    for query in ["//b", "/a//b", "/*/b", "//*/../b"] {
        let found = select(&document, query);
        assert!(!found.is_empty());
        for index in found {
            assert_eq!(document.nodes[index].name, "b");
        }
    }
}

#[test]
fn descendant_or_self_is_in_document_order() {
    let document = family();
    assert_eq!(select(&document, "//"), vec![0, 1, 2, 3, 4, 5]);
    assert_eq!(select(&document, "a//*"), vec![0, 1, 2, 3]);
    assert_eq!(select(&document, "a//b"), vec![1]);
    assert_eq!(select(&document, "a//a"), vec![0]);
    assert_eq!(select(&document, "/a/b//*"), vec![1, 2]);
    let step = Step { axis: Axis::DescendantOrSelf, selector: Selector::Any, predicate: None };
    assert_eq!(
        step.apply(&document, &vec![Position::Node(4), Position::Node(1)]),
        vec![Position::Node(4), Position::Node(5), Position::Node(1), Position::Node(2)]
    );
}

#[test]
fn anywhere_is_in_document_order() {
    let document = family();
    assert_eq!(select(&document, "//b"), vec![1, 5]);
    assert_eq!(select(&document, "//*"), vec![0, 1, 2, 3, 4, 5]);
    assert_eq!(select(&document, "//*/*"), vec![0, 4, 1, 3, 2, 5]);
    let mut small = Document::new();
    let a = add(&mut small, None, "a", vec![], true);
    add(&mut small, Some(a), "b", vec![], false);
    add(&mut small, None, "c", vec![], false);
    assert_eq!(select(&small, "//*"), vec![0, 1, 2]);
    assert_eq!(select(&small, "//"), vec![0, 1, 2]);
}

#[test]
fn parent_axis_goes_up_and_stops_at_the_root() {
    let document = family();
    assert_eq!(select(&document, "//c/.."), vec![1]);
    assert_eq!(select(&document, "//c/../.."), vec![0]);
    assert_eq!(select(&document, "//c/../../.."), Vec::<usize>::new());
    assert_eq!(select(&document, "/.."), Vec::<usize>::new());
    assert_eq!(select(&document, "/../*"), Vec::<usize>::new());
    assert_eq!(select(&document, "//c/../../../*"), vec![0, 4]);
    assert_eq!(select(&document, "//c/..b"), vec![1]);
    assert_eq!(select(&document, "//c/..a"), Vec::<usize>::new());
}

#[test]
fn self_axis_keeps_the_context() {
    let document = family();
    assert_eq!(select(&document, "/a/."), vec![0]);
    assert_eq!(select(&document, "/a/.a"), vec![0]);
    assert_eq!(select(&document, "/a/.b"), Vec::<usize>::new());
    assert_eq!(select(&document, "/."), Vec::<usize>::new());
}

#[test]
fn root_selector_gives_the_root_whatever_the_axis() {
    let document = family();
    let root = Step { axis: Axis::Child, selector: Selector::Root, predicate: None };
    assert_eq!(root.apply(&document, &vec![Position::Node(2)]), vec![Position::Root]);
    assert_eq!(
        root.apply(&document, &vec![Position::Node(2), Position::Node(5)]),
        vec![Position::Root]
    );
    assert_eq!(root.apply(&document, &vec![]), Vec::<Position>::new());
}

#[test]
fn no_node_comes_twice() {
    let document = family();
    assert_eq!(select(&document, "//*/.."), vec![0, 1, 4]);
    assert_eq!(select(&document, "//b/../*"), vec![1, 3, 5]);
    assert_eq!(select(&document, "//*//*"), vec![0, 1, 2, 3, 4, 5]);
    for query in ["//*/..", "//*//*", "//*/../*", "//./.././/*"] {
        let found = select(&document, query);
        for (i, a) in found.iter().enumerate() {
            for b in &found[i + 1..] {
                assert_ne!(a, b);
            }
        }
    }
}

#[test]
fn first_occurrence_decides_the_order() {
    let document = family();
    let parent = Step { axis: Axis::Parent, selector: Selector::Parent, predicate: None };
    assert_eq!(
        parent.apply(
            &document,
            &vec![Position::Node(5), Position::Node(3), Position::Node(1), Position::Node(0)]
        ),
        vec![Position::Node(4), Position::Node(0), Position::Root]
    );
}

#[test]
fn path_of_the_root_alone_selects_no_node() {
    let document = family();
    assert_eq!(select(&document, "/"), Vec::<usize>::new());
}

#[test]
fn empty_document_has_no_matches() {
    let document = Document::new();
    assert_eq!(document.len(), 0);
    assert_eq!(select(&document, "//*"), Vec::<usize>::new());
    assert_eq!(select(&document, "//"), Vec::<usize>::new());
    assert_eq!(select(&document, "a"), Vec::<usize>::new());
}

fn entries_document() -> Document {
    let mut document = Document::new();
    add(
        &mut document,
        None,
        "n",
        vec![
            argument(Value::Integer(1)),
            property("x", Value::Integer(1)),
            property("y", Value::Integer(2)),
            argument(text("two words")),
            argument(Value::Null),
            property("z", Value::Null),
            property("f", Value::Float("1.5".to_string())),
            property("neg", Value::Integer(-7)),
            property("b", Value::Bool(false)),
            property("t", text("true")),
        ],
        false,
    );
    add(&mut document, None, "n", vec![property("y", Value::Integer(2))], false);
    add(&mut document, None, "n", vec![argument(text(""))], false);
    document
}

#[test]
fn items_of_a_group_must_all_hold() {
    let document = entries_document();
    assert_eq!(select(&document, "n[x=1 y=2]"), vec![0]);
    assert_eq!(select(&document, "n[y=2]"), vec![0, 1]);
    assert_eq!(select(&document, "n[x=1 y=3]"), Vec::<usize>::new());
    assert_eq!(select(&document, "n[y=2 x=2]"), Vec::<usize>::new());
}

#[test]
fn one_group_of_a_predicate_must_hold() {
    let document = entries_document();
    assert_eq!(select(&document, "n[x=1 y=3 | y=2]"), vec![0, 1]);
    assert_eq!(select(&document, "n[x=2 | y=3]"), Vec::<usize>::new());
    assert_eq!(select(&document, "n[x=2 | x=1]"), vec![0]);
}

#[test]
fn empty_group_always_holds() {
    let document = entries_document();
    assert_eq!(select(&document, "n[]"), vec![0, 1, 2]);
    assert_eq!(select(&document, "n[x=5 | ]"), vec![0, 1, 2]);
}

#[test]
fn predicate_without_groups_never_holds() {
    let document = entries_document();
    let none = Step {
        axis: Axis::Child,
        selector: Selector::Any,
        predicate: Some(Predicate { groups: vec![] }),
    };
    assert_eq!(none.apply(&document, &vec![Position::Root]), Vec::<Position>::new());
}

#[test]
fn positional_items_match_arguments_only() {
    let document = entries_document();
    assert_eq!(select(&document, "n[1]"), vec![0]);
    assert_eq!(select(&document, "n[2]"), Vec::<usize>::new());
    assert_eq!(select(&document, "n['two words']"), vec![0]);
    assert_eq!(select(&document, "n[1 1 '1']"), vec![0]);
}

#[test]
fn named_items_match_properties_of_that_name_only() {
    let document = entries_document();
    assert_eq!(select(&document, "n[y=1]"), Vec::<usize>::new());
    assert_eq!(select(&document, "n[x='1']"), vec![0]);
}

#[test]
fn values_are_compared_by_their_text() {
    let document = entries_document();
    assert_eq!(select(&document, "n[f='1.5']"), vec![0]);
    assert_eq!(select(&document, "n[f='1.50']"), Vec::<usize>::new());
    assert_eq!(select(&document, "n[neg='-7']"), vec![0]);
    assert_eq!(select(&document, "n[b=false]"), vec![0]);
    assert_eq!(select(&document, "n[b=true]"), Vec::<usize>::new());
    assert_eq!(select(&document, "n[t=true]"), vec![0]);
    assert_eq!(select(&document, "n[x=01]"), Vec::<usize>::new());
}

#[test]
fn null_matches_nothing() {
    let document = entries_document();
    assert_eq!(select(&document, "n[z='']"), Vec::<usize>::new());
    assert_eq!(select(&document, "n[z=null]"), Vec::<usize>::new());
    assert_eq!(select(&document, "n['']"), vec![2]);
}

#[test]
fn root_has_no_entries() {
    let document = entries_document();
    let any = Step {
        axis: Axis::SelfAxis,
        selector: Selector::Any,
        predicate: Some(Predicate {
            groups: vec![PredicateGroup { items: vec![PredicateItem::Positional("1".to_string())] }],
        }),
    };
    assert_eq!(any.apply(&document, &vec![Position::Root]), Vec::<Position>::new());
    let empty = Step {
        axis: Axis::SelfAxis,
        selector: Selector::Any,
        predicate: Some(Predicate { groups: vec![PredicateGroup { items: vec![] }] }),
    };
    assert_eq!(empty.apply(&document, &vec![Position::Root]), vec![Position::Root]);
}

#[test]
fn predicate_parts_hold_on_entries() {
    let entries = vec![argument(Value::Integer(1)), property("k", text("v"))];
    let one = PredicateItem::Positional("1".to_string());
    let kv = PredicateItem::Named("k".to_string(), "v".to_string());
    let kw = PredicateItem::Named("k".to_string(), "w".to_string());
    assert!(one.holds(&entries));
    assert!(kv.holds(&entries));
    assert!(!kw.holds(&entries));
    assert!(!PredicateItem::Positional("v".to_string()).holds(&entries));
    assert!(!PredicateItem::Named("1".to_string(), "1".to_string()).holds(&entries));
    let both = PredicateGroup { items: vec![one.clone(), kv.clone()] };
    let mixed = PredicateGroup { items: vec![one, kw] };
    assert!(both.holds(&entries));
    assert!(!mixed.holds(&entries));
    assert!(Predicate { groups: vec![mixed.clone(), both] }.holds(&entries));
    assert!(!Predicate { groups: vec![mixed] }.holds(&entries));
    assert!(!kv.holds(&vec![]));
}

#[test]
fn integers_render_as_decimal_text() {
    assert_eq!(render_integer(0), "0");
    assert_eq!(render_integer(7), "7");
    assert_eq!(render_integer(10), "10");
    assert_eq!(render_integer(-1), "-1");
    assert_eq!(render_integer(1234567890), "1234567890");
    assert_eq!(render_integer(-9000), "-9000");
    assert_eq!(render_integer(i128::MAX), "170141183460469231731687303715884105727");
    assert_eq!(render_integer(i128::MIN), "-170141183460469231731687303715884105728");
}

#[test]
fn values_render_as_their_text() {
    assert_eq!(render(&text("a b")), Some("a b".to_string()));
    assert_eq!(render(&Value::Integer(-42)), Some("-42".to_string()));
    assert_eq!(render(&Value::Float("2.5e10".to_string())), Some("2.5e10".to_string()));
    assert_eq!(render(&Value::Bool(true)), Some("true".to_string()));
    assert_eq!(render(&Value::Bool(false)), Some("false".to_string()));
    assert_eq!(render(&Value::Null), None);
}

#[test]
fn nodes_are_added_in_document_order_only() {
    let mut document = family();
    assert_eq!(document.len(), 6);
    assert!(document.is_open(None));
    assert!(document.is_open(Some(4)));
    assert!(!document.is_open(Some(5)));
    assert!(!document.is_open(Some(0)));
    assert!(!document.is_open(Some(1)));
    assert!(!document.is_open(Some(6)));
    let before = document.clone();
    assert_eq!(document.push_node(Some(0), "late".to_string(), vec![], false), None);
    assert_eq!(document.push_node(Some(5), "under".to_string(), vec![], false), None);
    assert_eq!(document.push_node(Some(9), "nowhere".to_string(), vec![], false), None);
    assert_eq!(document, before);
    assert_eq!(document.push_node(Some(4), "f".to_string(), vec![], true), Some(6));
    assert_eq!(document.push_node(Some(6), "g".to_string(), vec![], false), Some(7));
    assert_eq!(document.push_node(Some(4), "h".to_string(), vec![], false), Some(8));
    assert_eq!(document.push_node(None, "i".to_string(), vec![], false), Some(9));
    assert_eq!(document.nodes[7].parent, Some(6));
    assert_eq!(select(&document, "/e/*"), vec![5, 6, 8]);
    assert_eq!(select(&document, "e//*"), vec![4, 5, 6, 7, 8]);
}

#[test]
fn node_by_index() {
    let document = family();
    assert_eq!(document.node(3).map(|node| node.name.as_str()), Some("d"));
    assert_eq!(document.node(3).and_then(|node| node.parent), Some(0));
    assert!(document.node(6).is_none());
}

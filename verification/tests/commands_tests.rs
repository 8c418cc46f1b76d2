use kdl_query::document::{Document, Entry, Value};
use kdl_query::from_kdl::{Error, Field, FromKdl, Rendered};
use kdl_query::path::ParseQueryError;
use kdl_query::plugin::{Command, FromMorePlugin, VERSION};
use kdl_query::query_kdl::{QueryError, QueryKdl};

fn field(name: &str, value: Rendered) -> Field {
    Field { name: name.to_string(), value }
}

fn string(text: &str) -> Rendered {
    Rendered::String(text.to_string())
}

fn read(text: &str) -> Document {
    match kdl::KdlDocument::parse(text) {
        Ok(source) => Document::from_kdl(&source),
        Err(e) => panic!("{:?}", e),
    }
}

const PACKAGES: &str = "package name=\"x\" version=\"1.0\"\ndependency name=\"y\" optional=#true\n";

#[test]
fn from_kdl_lays_nodes_out_in_document_order() {
    let document = read("a 1 {\n  b {\n    c\n  }\n  d k=#null\n}\ne {\n}\nf 2.5 \"s\"\n");
    let names: Vec<&str> = document.nodes.iter().map(|node| node.name.as_str()).collect();
    assert_eq!(names, vec!["a", "b", "c", "d", "e", "f"]);
    let parents: Vec<Option<usize>> = document.nodes.iter().map(|node| node.parent).collect();
    assert_eq!(parents, vec![None, Some(0), Some(1), Some(0), None, None]);
    let blocks: Vec<bool> = document.nodes.iter().map(|node| node.has_children).collect();
    assert_eq!(blocks, vec![true, true, false, false, true, false]);
    assert_eq!(document.nodes[0].entries, vec![Entry { name: None, value: Value::Integer(1) }]);
    assert_eq!(
        document.nodes[3].entries,
        vec![Entry { name: Some("k".to_string()), value: Value::Null }]
    );
    assert_eq!(
        document.nodes[5].entries,
        vec![
            Entry { name: None, value: Value::Float("2.5".to_string()) },
            Entry { name: None, value: Value::String("s".to_string()) },
        ]
    );
}

#[test]
fn from_kdl_of_an_empty_document_is_empty() {
    assert_eq!(read(""), Document::new());
}

#[test]
fn from_kdl_keeps_booleans_and_properties() {
    let document = read(PACKAGES);
    assert_eq!(
        document.nodes[1].entries,
        vec![
            Entry { name: Some("name".to_string()), value: Value::String("y".to_string()) },
            Entry { name: Some("optional".to_string()), value: Value::Bool(true) },
        ]
    );
}

#[test]
fn query_command_end_to_end() {
    let command = QueryKdl;
    let found = command.run("/package", PACKAGES).unwrap();
    assert_eq!(found.nodes, vec![0]);
    assert_eq!(found.document.nodes[0].name, "package");
    let found = command.run("//*[optional=true]", PACKAGES).unwrap();
    assert_eq!(found.nodes, vec![1]);
    assert_eq!(found.document.nodes[1].name, "dependency");
    let found = command.run("/package[name=\"x\"]", PACKAGES).unwrap();
    assert_eq!(found.nodes, vec![0]);
    let found = command.run("/package[name=\"z\"]", PACKAGES).unwrap();
    assert_eq!(found.nodes, Vec::<usize>::new());
    assert_eq!(found.document, read(PACKAGES));
}

#[test]
fn query_command_on_nested_nodes() {
    let text = "a {\n  b 1\n  c {\n    b 2\n  }\n}\nb 3\n";
    let found = QueryKdl.run("a//b", text).unwrap();
    assert_eq!(found.nodes, vec![1, 3]);
    let found = QueryKdl.run("//b[3]", text).unwrap();
    assert_eq!(found.nodes, vec![4]);
    let found = QueryKdl.run("//b[2]/../..", text).unwrap();
    assert_eq!(found.nodes, vec![0]);
}

#[test]
fn query_command_refuses_a_wrong_query_first() {
    match QueryKdl.run("", "a {") {
        Err(QueryError::Query(e)) => assert_eq!(e, ParseQueryError::EmptyPath),
        other => panic!("{:?}", other),
    }
    match QueryKdl.run("a[", PACKAGES) {
        Err(QueryError::Query(e)) => {
            assert_eq!(e, ParseQueryError::UnterminatedPredicate { position: 2 })
        },
        other => panic!("{:?}", other),
    }
}

#[test]
fn query_command_refuses_what_is_no_document() {
    match QueryKdl.run("a", "a {") {
        Err(QueryError::Document(_)) => {},
        other => panic!("{:?}", other),
    }
}

#[test]
fn commands_have_their_names() {
    assert_eq!(QueryKdl.name(), "query kdl");
    assert_eq!(QueryKdl.description(), "select kdl data");
    assert_eq!(FromKdl.name(), "from kdl");
    assert_eq!(FromKdl.description(), "parse kdl structured data");
}

#[test]
fn plugin_lists_its_commands() {
    assert_eq!(FromMorePlugin.commands(), vec![Command::FromKdl, Command::QueryKdl]);
    assert_eq!(FromMorePlugin.version(), VERSION);
    assert_eq!(FromMorePlugin.version(), "0.1.0");
}

#[test]
fn render_a_document() {
    let rendered = FromKdl::parse("a 1 2 k=\"v\" {\n  b\n}\nc 1.5 #false #null\nd {\n}\n").unwrap();
    assert_eq!(
        rendered,
        Rendered::List(vec![
            Rendered::Record(vec![
                field("name", string("a")),
                field("arguments", Rendered::List(vec![Rendered::Int(1), Rendered::Int(2)])),
                field("properties", Rendered::Record(vec![field("k", string("v"))])),
                field(
                    "children",
                    Rendered::List(vec![Rendered::Record(vec![field("name", string("b"))])])
                ),
            ]),
            Rendered::Record(vec![
                field("name", string("c")),
                field(
                    "arguments",
                    Rendered::List(vec![
                        Rendered::Float("1.5".to_string()),
                        Rendered::Bool(false),
                        Rendered::Nothing,
                    ])
                ),
            ]),
            Rendered::Record(vec![
                field("name", string("d")),
                field("children", Rendered::List(vec![])),
            ]),
        ])
    );
}

#[test]
fn render_an_empty_document() {
    assert_eq!(FromKdl::parse("").unwrap(), Rendered::List(vec![]));
}

#[test]
fn render_refuses_what_is_no_document() {
    match FromKdl::parse("a {") {
        Err(Error::KdlParseError(_)) => {},
        other => panic!("{:?}", other),
    }
}

#[test]
fn render_refuses_an_integer_beyond_64_bits() {
    match FromKdl::parse("a 1\nb {\n  c 9223372036854775808\n}\n") {
        Err(Error::BadConversion { from, to, value }) => {
            assert_eq!(from, "i128");
            assert_eq!(to, "i64");
            assert_eq!(value, Some("9223372036854775808".to_string()));
        },
        other => panic!("{:?}", other),
    }
}

#[test]
fn convert_value_by_kind() {
    assert_eq!(FromKdl::convert_value(&Value::String("s".to_string())).unwrap(), string("s"));
    assert_eq!(FromKdl::convert_value(&Value::Integer(-5)).unwrap(), Rendered::Int(-5));
    assert_eq!(
        FromKdl::convert_value(&Value::Integer(i64::MAX as i128)).unwrap(),
        Rendered::Int(i64::MAX)
    );
    assert_eq!(
        FromKdl::convert_value(&Value::Integer(i64::MIN as i128)).unwrap(),
        Rendered::Int(i64::MIN)
    );
    assert_eq!(
        FromKdl::convert_value(&Value::Float("0.25".to_string())).unwrap(),
        Rendered::Float("0.25".to_string())
    );
    assert_eq!(FromKdl::convert_value(&Value::Bool(true)).unwrap(), Rendered::Bool(true));
    assert_eq!(FromKdl::convert_value(&Value::Null).unwrap(), Rendered::Nothing);
}

#[test]
fn convert_value_refuses_integers_beyond_64_bits() {
    match FromKdl::convert_value(&Value::Integer(i64::MIN as i128 - 1)) {
        Err(Error::BadConversion { from, to, value }) => {
            assert_eq!(from, "i128");
            assert_eq!(to, "i64");
            assert_eq!(value, Some("-9223372036854775809".to_string()));
        },
        other => panic!("{:?}", other),
    }
    assert!(FromKdl::convert_value(&Value::Integer(i64::MAX as i128 + 1)).is_err());
}

#[test]
fn convert_entries_parts_arguments_and_properties() {
    let entries = vec![
        Entry { name: Some("k".to_string()), value: Value::Integer(1) },
        Entry { name: None, value: Value::Integer(10) },
        Entry { name: Some("j".to_string()), value: Value::Integer(3) },
        Entry { name: None, value: Value::Null },
        Entry { name: Some("k".to_string()), value: Value::Integer(2) },
    ];
    let (arguments, properties) = FromKdl::convert_entries(&entries).unwrap();
    assert_eq!(arguments, vec![Rendered::Int(10), Rendered::Nothing]);
    assert_eq!(properties, vec![field("k", Rendered::Int(2)), field("j", Rendered::Int(3))]);
    let (arguments, properties) = FromKdl::convert_entries(&vec![]).unwrap();
    assert!(arguments.is_empty());
    assert!(properties.is_empty());
}

#[test]
fn convert_entries_fails_on_the_first_value_that_does_not_fit() {
    let entries = vec![
        Entry { name: None, value: Value::Integer(1) },
        Entry { name: None, value: Value::Integer(1 << 70) },
        Entry { name: None, value: Value::Integer(1 << 80) },
    ];
    match FromKdl::convert_entries(&entries) {
        Err(Error::BadConversion { value, .. }) => {
            assert_eq!(value, Some("1180591620717411303424".to_string()))
        },
        other => panic!("{:?}", other),
    }
}

#[test]
fn convert_node_and_document() {
    let source = kdl::KdlDocument::parse("a x=1 {\n  b\n}\n").unwrap();
    let node = FromKdl::convert_node(&source.nodes()[0]).unwrap();
    let expected = Rendered::Record(vec![
        field("name", string("a")),
        field("properties", Rendered::Record(vec![field("x", Rendered::Int(1))])),
        field("children", Rendered::List(vec![Rendered::Record(vec![field("name", string("b"))])])),
    ]);
    assert_eq!(node, expected);
    assert_eq!(FromKdl::convert_document(&source).unwrap(), Rendered::List(vec![expected]));
}

#[test]
fn conversion_error_as_a_message() {
    let error = Error::BadConversion {
        from: "i128".to_string(),
        to: "i64".to_string(),
        value: Some("9223372036854775808".to_string()),
    };
    assert_eq!(
        error.message(),
        "Unable to convert from i128 to i64 (value: Some(\"9223372036854775808\"))"
    );
    let error = Error::BadConversion { from: "a".to_string(), to: "b".to_string(), value: None };
    assert_eq!(error.message(), "Unable to convert from a to b (value: None)");
    let error = Error::BadConversion {
        from: "a".to_string(),
        to: "b".to_string(),
        value: Some("q\"\n".to_string()),
    };
    assert_eq!(error.message(), "Unable to convert from a to b (value: Some(\"q\\\"\\n\"))");
}

#[test]
fn kdl_error_as_a_message() {
    let source = match kdl::KdlDocument::parse("a {") {
        Err(e) => e,
        Ok(_) => panic!("parsed"),
    };
    let rendered = Error::from_kdl_error(&source);
    assert!(!rendered.is_empty());
    assert!(!rendered.ends_with('\n'));
    let message = Error::KdlParseError(source).message();
    assert_eq!(message, format!("Unable to parse KDL document: {}", rendered));
}

#[test]
fn rendered_text_loses_its_last_character() {
    assert_eq!(Error::without_line_break("ab\n".to_string()), "ab");
    assert_eq!(Error::without_line_break("a".to_string()), "");
    assert_eq!(Error::without_line_break(String::new()), "");
    assert_eq!(Error::without_line_break("x\u{00e9}".to_string()), "x");
}

#[test]
fn kdl_error_renders_the_same_each_time() {
    let first = match kdl::KdlDocument::parse("a {") {
        Err(e) => e,
        Ok(_) => panic!("parsed"),
    };
    let second = match kdl::KdlDocument::parse("a {") {
        Err(e) => e,
        Ok(_) => panic!("parsed"),
    };
    assert_eq!(Error::from_kdl_error(&first), Error::from_kdl_error(&first));
    assert_eq!(Error::from_kdl_error(&first), Error::from_kdl_error(&second));
}

#[test]
fn convert_a_selected_node() {
    let found = QueryKdl.run("//b", "a {\n  b 1 k=\"v\" {\n    c\n  }\n}\nb\n").unwrap();
    assert_eq!(found.nodes, vec![1, 3]);
    let first = FromKdl::convert_selected(&found.document.nodes[1]).unwrap();
    assert_eq!(
        first,
        Rendered::Record(vec![
            field("name", string("b")),
            field("arguments", Rendered::List(vec![Rendered::Int(1)])),
            field("properties", Rendered::Record(vec![field("k", string("v"))])),
        ])
    );
    let second = FromKdl::convert_selected(&found.document.nodes[3]).unwrap();
    assert_eq!(second, Rendered::Record(vec![field("name", string("b"))]));
}

#[test]
fn convert_a_selected_node_that_does_not_fit() {
    let found = QueryKdl.run("a", "a 1 99999999999999999999\n").unwrap();
    match FromKdl::convert_selected(&found.document.nodes[0]) {
        Err(Error::BadConversion { value, .. }) => {
            assert_eq!(value, Some("99999999999999999999".to_string()))
        },
        other => panic!("{:?}", other),
    }
}

#[test]
fn query_on_a_whole_document_is_in_document_order() {
    let text = "a {\n  b\n}\nc\n";
    let found = QueryKdl.run("//*", text).unwrap();
    assert_eq!(found.nodes, vec![0, 1, 2]);
    let names: Vec<&str> =
        found.nodes.iter().map(|index| found.document.nodes[*index].name.as_str()).collect();
    assert_eq!(names, vec!["a", "b", "c"]);
}

#[test]
fn later_property_takes_the_place_of_the_last_of_its_name() {
    let entries = vec![
        Entry { name: Some("k".to_string()), value: Value::Integer(1) },
        Entry { name: Some("j".to_string()), value: Value::Integer(2) },
        Entry { name: Some("k".to_string()), value: Value::Integer(3) },
        Entry { name: Some("j".to_string()), value: Value::Integer(4) },
        Entry { name: Some("i".to_string()), value: Value::Integer(5) },
    ];
    let (_, properties) = FromKdl::convert_entries(&entries).unwrap();
    assert_eq!(
        properties,
        vec![
            field("k", Rendered::Int(3)),
            field("j", Rendered::Int(4)),
            field("i", Rendered::Int(5)),
        ]
    );
}

//! The command `from kdl`: a KDL document as a structured value.
//!
//! A document becomes the list of its nodes. A node becomes a record with
//! its `name`; its `arguments`, a list, where it has some; its `properties`,
//! a record, where it has some; and its `children`, a list again, where it
//! has a block of them.

use vstd::prelude::*;
use vstd::string::StringExecFns;
use crate::diagnostics::{
    diagnostics_count, diagnostics_len, joined, joined_upto, narrate_at, reports,
};
use crate::document::{entry_views, Entry, EntryModel, Node, NodeModel, Value, ValueModel};
use crate::text::{decimal, render_integer};
use crate::reader::{
    document_nodes, document_trees, node_children, node_name, node_tree, parse_kdl, parsed_kdl,
    read_entries, Tree,
};

verus! {

/// A structured value. A float is held as its decimal text.
#[derive(Debug, PartialEq, Eq)]
pub enum Rendered {
    String(String),
    Int(i64),
    Float(String),
    Bool(bool),
    Nothing,
    List(Vec<Rendered>),
    /// Fields in the order in which they were added.
    Record(Vec<Field>),
}

/// A field of a record.
#[derive(Debug, PartialEq, Eq)]
pub struct Field {
    pub name: String,
    pub value: Rendered,
}

/// What a [`Rendered`] value stands for.
pub enum RenderedModel {
    String(Seq<char>),
    Int(int),
    Float(Seq<char>),
    Bool(bool),
    Nothing,
    List(Seq<RenderedModel>),
    Record(Seq<FieldModel>),
}

/// What a [`Field`] stands for.
pub struct FieldModel {
    pub name: Seq<char>,
    pub value: RenderedModel,
}

/// Why a document could not be rendered.
#[derive(Debug)]
pub enum Error {
    /// The text is no KDL document.
    KdlParseError(kdl::KdlError),
    /// A value does not fit the type that it is rendered as.
    BadConversion { from: String, to: String, value: Option<String> },
}

/// What an [`Error`] stands for. An error of the `kdl` crate stands for the
/// reports of its diagnostics.
pub enum ErrorModel {
    /// The reports of the diagnostics of the error.
    KdlParseError { diagnostics: Seq<Seq<char>> },
    BadConversion { from: Seq<char>, to: Seq<char>, value: Option<Seq<char>> },
}

impl View for Rendered {
    type V = RenderedModel;

    open spec fn view(&self) -> RenderedModel
        decreases self,
    {
        match self {
            Rendered::String(s) => RenderedModel::String(s@),
            Rendered::Int(i) => RenderedModel::Int(*i as int),
            Rendered::Float(s) => RenderedModel::Float(s@),
            Rendered::Bool(b) => RenderedModel::Bool(*b),
            Rendered::Nothing => RenderedModel::Nothing,
            Rendered::List(items) => RenderedModel::List(
                Seq::new(
                    items@.len(),
                    |k: int|
                        if 0 <= k < items@.len() {
                            items@[k].view()
                        } else {
                            RenderedModel::Nothing
                        },
                ),
            ),
            Rendered::Record(fields) => RenderedModel::Record(
                Seq::new(
                    fields@.len(),
                    |k: int|
                        if 0 <= k < fields@.len() {
                            FieldModel { name: fields@[k].name@, value: fields@[k].value.view() }
                        } else {
                            FieldModel { name: Seq::empty(), value: RenderedModel::Nothing }
                        },
                ),
            ),
        }
    }
}

/// The text that the standard library writes for `Some` of a text when it
/// is asked for its `Debug` form: the text in quotes inside `Some(..)`, with
/// the characters escaped that a string literal could not hold as they are.
pub uninterp spec fn debug_some(text: Seq<char>) -> Seq<char>;

/// The `Debug` form of an optional text: `None`, or what [`debug_some`]
/// names.
pub open spec fn debug_text(value: Option<Seq<char>>) -> Seq<char> {
    match value {
        None => "None"@,
        Some(text) => debug_some(text),
    }
}

/// The `Debug` form of an optional text, as `format!` writes it: `None`
/// where there is no text, and else a function of the text alone, which
/// [`debug_some`] names.
#[verifier::external_body]
fn debug_of(value: &Option<String>) -> (r: String)
    ensures
        match value {
            Some(text) => r@ == debug_some(text@),
            None => r@ == "None"@,
        },
{
    format!("{:?}", value)
}

/// The message of a value that does not fit.
pub open spec fn conversion_message(from: Seq<char>, to: Seq<char>, value: Option<Seq<char>>) -> Seq<
    char,
> {
    "Unable to convert from "@ + from + " to "@ + to + " (value: "@ + debug_text(value) + ")"@
}

/// The text without its last character, if it has one.
pub open spec fn without_last(text: Seq<char>) -> Seq<char> {
    if text.len() > 0 {
        text.drop_last()
    } else {
        text
    }
}

/// The message of a text that is no KDL document, with the reports of its
/// diagnostics: one behind the other, without the line break at the end.
pub open spec fn parse_message(reports: Seq<Seq<char>>) -> Seq<char> {
    "Unable to parse KDL document: "@ + without_last(joined(reports))
}

impl Error {
    /// Takes the last character off a rendered text: the line break that
    /// ends the last report. An empty text stays empty.
    pub fn without_line_break(rendered: String) -> (r: String)
        ensures
            r@ == without_last(rendered@),
    {
        let mut text = rendered;
        match text.pop() {
            Some(c) => {
                assert(text@ =~= rendered@.drop_last());
            },
            None => {
                assert(text@ =~= rendered@);
            },
        }
        text
    }

    /// The diagnostics of an error of the `kdl` crate as a text: the
    /// reports of all its diagnostics, one after the other, without the line
    /// break at the end.
    pub fn from_kdl_error(error: &kdl::KdlError) -> (r: String)
        ensures
            r@ == without_last(joined(reports(*error))),
    {
        let count = diagnostics_count(error);
        let mut rendered = String::new();
        let mut i: usize = 0;
        while i < count
            invariant
                i <= count,
                count == diagnostics_len(*error),
                rendered@ == joined_upto(reports(*error), i as int),
            decreases count - i,
        {
            let report = narrate_at(error, i);
            assert(reports(*error)[i as int] == report@);
            rendered.append(report.as_str());
            i = i + 1;
        }
        Error::without_line_break(rendered)
    }

    /// The error as a message for a reader.
    pub fn message(&self) -> (r: String)
        ensures
            match self@ {
                ErrorModel::KdlParseError { diagnostics } => r@ == parse_message(diagnostics),
                ErrorModel::BadConversion { from, to, value } => r@ == conversion_message(
                    from,
                    to,
                    value,
                ),
            },
    {
        match self {
            Error::KdlParseError(error) => {
                let mut out = "Unable to parse KDL document: ".to_owned();
                let rendered = Error::from_kdl_error(error);
                out.append(rendered.as_str());
                out
            },
            Error::BadConversion { from, to, value } => {
                let mut out = "Unable to convert from ".to_owned();
                out.append(from.as_str());
                out.append(" to ");
                out.append(to.as_str());
                out.append(" (value: ");
                let shown = debug_of(value);
                out.append(shown.as_str());
                out.append(")");
                out
            },
        }
    }
}

impl View for Error {
    type V = ErrorModel;

    open spec fn view(&self) -> ErrorModel {
        match self {
            Error::KdlParseError(error) => ErrorModel::KdlParseError {
                diagnostics: reports(*error),
            },
            Error::BadConversion { from, to, value } => ErrorModel::BadConversion {
                from: from@,
                to: to@,
                value: match value {
                    Some(v) => Some(v@),
                    None => None,
                },
            },
        }
    }
}

/// The values of a vector, each as what it stands for.
pub open spec fn list_views(items: Seq<Rendered>) -> Seq<RenderedModel> {
    Seq::new(items.len(), |k: int| items[k]@)
}

/// The fields of a vector, each as what it stands for.
pub open spec fn field_views(fields: Seq<Field>) -> Seq<FieldModel> {
    Seq::new(fields.len(), |k: int| FieldModel { name: fields[k].name@, value: fields[k].value@ })
}

/// A list stands for the values that it holds.
pub proof fn lemma_list_view(items: Vec<Rendered>)
    ensures
        Rendered::List(items)@ == RenderedModel::List(list_views(items@)),
{
    assert(Rendered::List(items)@->List_0 =~= list_views(items@));
}

/// A record stands for the fields that it holds.
pub proof fn lemma_record_view(fields: Vec<Field>)
    ensures
        Rendered::Record(fields)@ == RenderedModel::Record(field_views(fields@)),
{
    assert(Rendered::Record(fields)@->Record_0 =~= field_views(fields@));
}

/// What a value is rendered as. An integer must fit in 64 bits.
pub open spec fn converted_value(v: ValueModel) -> Result<RenderedModel, ErrorModel> {
    match v {
        ValueModel::String(s) => Ok(RenderedModel::String(s)),
        ValueModel::Integer(i) => if i64::MIN <= i <= i64::MAX {
            Ok(RenderedModel::Int(i))
        } else {
            Err(ErrorModel::BadConversion { from: "i128"@, to: "i64"@, value: Some(decimal(i)) })
        },
        ValueModel::Float(s) => Ok(RenderedModel::Float(s)),
        ValueModel::Bool(b) => Ok(RenderedModel::Bool(b)),
        ValueModel::Null => Ok(RenderedModel::Nothing),
    }
}

/// The index of the last field of that name among the first `n`.
pub open spec fn field_index(fields: Seq<FieldModel>, name: Seq<char>, n: int) -> Option<int>
    decreases n,
{
    if !(0 < n <= fields.len()) {
        None
    } else if fields[n - 1].name == name {
        Some(n - 1)
    } else {
        field_index(fields, name, n - 1)
    }
}

/// The fields with the value under the name: in the place of the last field
/// of that name, or at the end where there is none. This is where the
/// host's records put a value that is inserted.
pub open spec fn with_field(fields: Seq<FieldModel>, name: Seq<char>, value: RenderedModel) -> Seq<
    FieldModel,
> {
    match field_index(fields, name, fields.len() as int) {
        Some(i) => fields.update(i, FieldModel { name, value }),
        None => fields.push(FieldModel { name, value }),
    }
}

/// What the first `n` entries are rendered as: the arguments in order, and
/// the properties by name, a later one in the place of an earlier one of the
/// same name. The first value that cannot be rendered fails the whole.
pub open spec fn converted_entries(entries: Seq<EntryModel>, n: int) -> Result<
    (Seq<RenderedModel>, Seq<FieldModel>),
    ErrorModel,
>
    decreases n,
{
    if 0 < n <= entries.len() {
        match converted_entries(entries, n - 1) {
            Err(e) => Err(e),
            Ok((arguments, properties)) => match converted_value(entries[n - 1].value) {
                Err(e) => Err(e),
                Ok(value) => match entries[n - 1].name {
                    Some(name) => Ok((arguments, with_field(properties, name, value))),
                    None => Ok((arguments.push(value), properties)),
                },
            },
        }
    } else {
        Ok((Seq::empty(), Seq::empty()))
    }
}

/// The fields of a node's record but for its children.
pub open spec fn own_fields(
    name: Seq<char>,
    arguments: Seq<RenderedModel>,
    properties: Seq<FieldModel>,
) -> Seq<FieldModel> {
    let named = seq![FieldModel { name: "name"@, value: RenderedModel::String(name) }];
    let with_arguments = if arguments.len() > 0 {
        named.push(FieldModel { name: "arguments"@, value: RenderedModel::List(arguments) })
    } else {
        named
    };
    if properties.len() > 0 {
        with_arguments.push(
            FieldModel { name: "properties"@, value: RenderedModel::Record(properties) },
        )
    } else {
        with_arguments
    }
}

/// What a node of a document is rendered as where a query selected it: a
/// record of its name, its arguments and its properties, as far as it has
/// them.
pub open spec fn converted_selected(node: NodeModel) -> Result<RenderedModel, ErrorModel> {
    match converted_entries(node.entries, node.entries.len() as int) {
        Err(e) => Err(e),
        Ok((arguments, properties)) => Ok(
            RenderedModel::Record(own_fields(node.name, arguments, properties)),
        ),
    }
}

/// What a node is rendered as.
pub open spec fn converted_node(tree: Tree) -> Result<RenderedModel, ErrorModel>
    decreases tree, 0int,
{
    match converted_entries(tree.entries, tree.entries.len() as int) {
        Err(e) => Err(e),
        Ok((arguments, properties)) => {
            let fields = own_fields(tree.name, arguments, properties);
            match tree.children {
                None => Ok(RenderedModel::Record(fields)),
                Some(children) => match converted_nodes(children, children.len() as int) {
                    Err(e) => Err(e),
                    Ok(below) => Ok(
                        RenderedModel::Record(
                            fields.push(
                                FieldModel {
                                    name: "children"@,
                                    value: RenderedModel::List(below),
                                },
                            ),
                        ),
                    ),
                },
            }
        },
    }
}

/// What the first `n` nodes are rendered as, in order. The first node that
/// cannot be rendered fails the whole.
pub open spec fn converted_nodes(trees: Seq<Tree>, n: int) -> Result<
    Seq<RenderedModel>,
    ErrorModel,
>
    decreases trees, n,
{
    if 0 < n <= trees.len() {
        match converted_nodes(trees, n - 1) {
            Err(e) => Err(e),
            Ok(before) => match converted_node(trees[n - 1]) {
                Err(e) => Err(e),
                Ok(node) => Ok(before.push(node)),
            },
        }
    } else {
        Ok(Seq::empty())
    }
}

/// What a document is rendered as: the list of its nodes.
pub open spec fn converted_document(trees: Seq<Tree>) -> Result<RenderedModel, ErrorModel> {
    match converted_nodes(trees, trees.len() as int) {
        Err(e) => Err(e),
        Ok(nodes) => Ok(RenderedModel::List(nodes)),
    }
}

/// Puts the value under the name: in the place of the last field of that
/// name, or at the end where there is none.
fn put_field(fields: &mut Vec<Field>, name: String, value: Rendered)
    ensures
        field_views(final(fields)@) == with_field(field_views(old(fields)@), name@, value@),
{
    let ghost before = field_views(fields@);
    let mut i: usize = fields.len();
    while i > 0
        invariant
            i <= fields@.len(),
            fields@ == old(fields)@,
            before == field_views(fields@),
            field_index(before, name@, i as int) == field_index(
                before,
                name@,
                before.len() as int,
            ),
        decreases i,
    {
        i = i - 1;
        assert(before[i as int].name == fields@[i as int].name@);
        if fields[i].name == name {
            let field = Field { name, value };
            fields.set(i, field);
            assert(field_views(fields@) =~= before.update(i as int, field_views(seq![field])[0]));
            return ;
        }
    }
    let field = Field { name, value };
    fields.push(field);
    assert(field_views(fields@) =~= before.push(field_views(seq![field])[0]));
}

/// The command `from kdl`.
pub struct FromKdl;

impl FromKdl {
    /// The name of the command.
    pub fn name(&self) -> (r: &'static str)
        ensures
            r@ == "from kdl"@,
    {
        "from kdl"
    }

    /// What the command does, in a few words.
    pub fn description(&self) -> (r: &'static str)
        ensures
            r@ == "parse kdl structured data"@,
    {
        "parse kdl structured data"
    }

    /// Renders the KDL document that the text spells.
    pub fn parse(input: &str) -> (r: Result<Rendered, Error>)
        ensures
            match parsed_kdl(input@) {
                Err(diagnostics) => r matches Err(e) && e@ == (ErrorModel::KdlParseError {
                    diagnostics,
                }),
                Ok(trees) => match converted_document(trees) {
                    Ok(rendered) => r matches Ok(v) && v@ == rendered,
                    Err(error) => r matches Err(e) && e@ == error,
                },
            },
    {
        match parse_kdl(input) {
            Err(e) => Err(Error::KdlParseError(e)),
            Ok(document) => FromKdl::convert_document(&document),
        }
    }

    /// Renders a value. An integer that does not fit in 64 bits is refused.
    pub fn convert_value(value: &Value) -> (r: Result<Rendered, Error>)
        ensures
            match converted_value(value@) {
                Ok(rendered) => r matches Ok(v) && v@ == rendered,
                Err(error) => r matches Err(e) && e@ == error,
            },
    {
        match value {
            Value::String(s) => Ok(Rendered::String(s.clone())),
            Value::Integer(i) => {
                if *i < -0x8000_0000_0000_0000 || *i > 0x7fff_ffff_ffff_ffff {
                    Err(
                        Error::BadConversion {
                            from: "i128".to_owned(),
                            to: "i64".to_owned(),
                            value: Some(render_integer(*i)),
                        },
                    )
                } else {
                    Ok(Rendered::Int(*i as i64))
                }
            },
            Value::Float(s) => Ok(Rendered::Float(s.clone())),
            Value::Bool(b) => Ok(Rendered::Bool(*b)),
            Value::Null => Ok(Rendered::Nothing),
        }
    }

    /// Renders the entries of a node: the arguments as a list, the
    /// properties as the fields of a record.
    pub fn convert_entries(entries: &Vec<Entry>) -> (r: Result<(Vec<Rendered>, Vec<Field>), Error>)
        ensures
            match converted_entries(entry_views(entries@), entries@.len() as int) {
                Ok((arguments, properties)) => r matches Ok(v) && list_views(v.0@) == arguments
                    && field_views(v.1@) == properties,
                Err(error) => r matches Err(e) && e@ == error,
            },
    {
        let ghost model = entry_views(entries@);
        let mut arguments: Vec<Rendered> = Vec::new();
        let mut properties: Vec<Field> = Vec::new();
        let mut i: usize = 0;
        assert(list_views(arguments@) =~= Seq::empty());
        assert(field_views(properties@) =~= Seq::empty());
        while i < entries.len()
            invariant
                i <= entries@.len(),
                model == entry_views(entries@),
                converted_entries(model, i as int) == Ok::<_, ErrorModel>(
                    (list_views(arguments@), field_views(properties@)),
                ),
            decreases entries.len() - i,
        {
            let entry = &entries[i];
            assert(model[i as int] == entry@);
            match FromKdl::convert_value(&entry.value) {
                Err(e) => {
                    proof {
                        lemma_entries_fail(model, i + 1, entries@.len() as int);
                    }
                    return Err(e);
                },
                Ok(value) => {
                    match &entry.name {
                        Some(name) => {
                            put_field(&mut properties, name.clone(), value);
                        },
                        None => {
                            let ghost before = list_views(arguments@);
                            arguments.push(value);
                            assert(list_views(arguments@) =~= before.push(value@));
                        },
                    }
                },
            }
            i = i + 1;
        }
        Ok((arguments, properties))
    }

    /// Renders a node that a query selected: a record of its name, its
    /// arguments and its properties, as far as it has them.
    pub fn convert_selected(node: &Node) -> (r: Result<Rendered, Error>)
        ensures
            match converted_selected(node@) {
                Ok(rendered) => r matches Ok(v) && v@ == rendered,
                Err(error) => r matches Err(e) && e@ == error,
            },
    {
        let (arguments, properties) = match FromKdl::convert_entries(&node.entries) {
            Err(e) => {
                return Err(e);
            },
            Ok(both) => both,
        };
        let mut fields: Vec<Field> = Vec::new();
        let name = Field { name: "name".to_owned(), value: Rendered::String(node.name.clone()) };
        fields.push(name);
        assert(field_views(fields@) =~= seq![
            FieldModel { name: "name"@, value: RenderedModel::String(node@.name) },
        ]);
        if arguments.len() > 0 {
            let ghost before = field_views(fields@);
            proof {
                lemma_list_view(arguments);
            }
            let field = Field { name: "arguments".to_owned(), value: Rendered::List(arguments) };
            fields.push(field);
            assert(field_views(fields@) =~= before.push(field_views(seq![field])[0]));
        }
        if properties.len() > 0 {
            let ghost before = field_views(fields@);
            proof {
                lemma_record_view(properties);
            }
            let field = Field {
                name: "properties".to_owned(),
                value: Rendered::Record(properties),
            };
            fields.push(field);
            assert(field_views(fields@) =~= before.push(field_views(seq![field])[0]));
        }
        proof {
            lemma_record_view(fields);
        }
        Ok(Rendered::Record(fields))
    }

    /// Renders a document: the list of its nodes.
    pub fn convert_document(kdoc: &kdl::KdlDocument) -> (r: Result<Rendered, Error>)
        ensures
            match converted_document(document_trees(*kdoc)) {
                Ok(rendered) => r matches Ok(v) && v@ == rendered,
                Err(error) => r matches Err(e) && e@ == error,
            },
        decreases document_trees(*kdoc), 1int,
    {
        let ghost trees = document_trees(*kdoc);
        let nodes = document_nodes(kdoc);
        let mut out: Vec<Rendered> = Vec::new();
        let mut i: usize = 0;
        assert(list_views(out@) =~= Seq::empty());
        while i < nodes.len()
            invariant
                i <= nodes@.len(),
                nodes@.len() == trees.len(),
                trees == document_trees(*kdoc),
                forall|k: int| 0 <= k < nodes@.len() ==> node_tree(#[trigger] nodes@[k]) == trees[k],
                converted_nodes(trees, i as int) == Ok::<_, ErrorModel>(list_views(out@)),
            decreases nodes.len() - i,
        {
            assert(node_tree(nodes@[i as int]) == trees[i as int]);
            proof {
                assert(decreases_to!(trees => trees[i as int]));
            }
            match FromKdl::convert_node(&nodes[i]) {
                Err(e) => {
                    proof {
                        lemma_nodes_fail(trees, i + 1, trees.len() as int);
                    }
                    return Err(e);
                },
                Ok(node) => {
                    let ghost before = list_views(out@);
                    out.push(node);
                    assert(list_views(out@) =~= before.push(node@));
                },
            }
            i = i + 1;
        }
        proof {
            lemma_list_view(out);
        }
        Ok(Rendered::List(out))
    }

    /// Renders a node: a record of its name, its arguments, its properties
    /// and its children, as far as it has them.
    pub fn convert_node(knode: &kdl::KdlNode) -> (r: Result<Rendered, Error>)
        ensures
            match converted_node(node_tree(*knode)) {
                Ok(rendered) => r matches Ok(v) && v@ == rendered,
                Err(error) => r matches Err(e) && e@ == error,
            },
        decreases node_tree(*knode), 0int,
    {
        let ghost tree = node_tree(*knode);
        let mut fields: Vec<Field> = Vec::new();
        let name = Field {
            name: "name".to_owned(),
            value: Rendered::String(node_name(knode).to_owned()),
        };
        fields.push(name);
        assert(field_views(fields@) =~= seq![
            FieldModel { name: "name"@, value: RenderedModel::String(tree.name) },
        ]);
        let entries = read_entries(knode);
        if entries.len() > 0 {
            let (arguments, properties) = match FromKdl::convert_entries(&entries) {
                Err(e) => {
                    return Err(e);
                },
                Ok(both) => both,
            };
            if arguments.len() > 0 {
                let ghost before = field_views(fields@);
                proof {
                    lemma_list_view(arguments);
                }
                let field = Field { name: "arguments".to_owned(), value: Rendered::List(arguments) };
                fields.push(field);
                assert(field_views(fields@) =~= before.push(field_views(seq![field])[0]));
            }
            if properties.len() > 0 {
                let ghost before = field_views(fields@);
                proof {
                    lemma_record_view(properties);
                }
                let field = Field {
                    name: "properties".to_owned(),
                    value: Rendered::Record(properties),
                };
                fields.push(field);
                assert(field_views(fields@) =~= before.push(field_views(seq![field])[0]));
            }
        }
        match node_children(knode) {
            None => {},
            Some(below) => {
                proof {
                    assert(decreases_to!(tree => tree.children));
                    assert(decreases_to!(tree.children => tree.children->0));
                }
                match FromKdl::convert_document(below) {
                    Err(e) => {
                        return Err(e);
                    },
                    Ok(children) => {
                        let ghost before = field_views(fields@);
                        let field = Field { name: "children".to_owned(), value: children };
                        fields.push(field);
                        assert(field_views(fields@) =~= before.push(field_views(seq![field])[0]));
                    },
                }
            },
        }
        proof {
            lemma_record_view(fields);
        }
        Ok(Rendered::Record(fields))
    }
}

/// Once an entry has failed, more entries fail in the same way.
proof fn lemma_entries_fail(entries: Seq<EntryModel>, n: int, m: int)
    requires
        0 <= n <= m <= entries.len(),
        converted_entries(entries, n) is Err,
    ensures
        converted_entries(entries, m) == converted_entries(entries, n),
    decreases m,
{
    if n < m {
        lemma_entries_fail(entries, n, m - 1);
    }
}

/// Once a node has failed, more nodes fail in the same way.
proof fn lemma_nodes_fail(trees: Seq<Tree>, n: int, m: int)
    requires
        0 <= n <= m <= trees.len(),
        converted_nodes(trees, n) is Err,
    ensures
        converted_nodes(trees, m) == converted_nodes(trees, n),
    decreases m,
{
    if n < m {
        lemma_nodes_fail(trees, n, m - 1);
    }
}

} // verus!

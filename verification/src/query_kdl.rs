//! The command `query kdl`: the nodes of a KDL document that a path selects.

use vstd::prelude::*;
use crate::diagnostics::reports;
use crate::document::Document;
use crate::matcher::selected;
use crate::grammar::parsed;
use crate::path::{ParseQueryError, Path};
use crate::reader::{flatten, parse_kdl, parsed_kdl};

verus! {

/// Why a query could not be run.
#[derive(Debug)]
pub enum QueryError {
    /// The query is no path.
    Query(ParseQueryError),
    /// The input is no KDL document.
    Document(kdl::KdlError),
}

/// A document with the nodes that a query selected in it.
#[derive(Debug)]
pub struct Selection {
    pub document: Document,
    /// The selected nodes, each by its index in the document, in the order
    /// in which the run met them.
    pub nodes: Vec<usize>,
}

/// The command `query kdl`.
pub struct QueryKdl;

impl QueryKdl {
    /// The name of the command.
    pub fn name(&self) -> (r: &'static str)
        ensures
            r@ == "query kdl"@,
    {
        "query kdl"
    }

    /// What the command does, in a few words.
    pub fn description(&self) -> (r: &'static str)
        ensures
            r@ == "select kdl data"@,
    {
        "select kdl data"
    }

    /// Runs the query on the KDL document that `input` spells. The query is
    /// read first: where both are wrong, the error is that of the query.
    pub fn run(&self, query: &str, input: &str) -> (r: Result<Selection, QueryError>)
        ensures
            match parsed(query@) {
                Err(error) => r matches Err(QueryError::Query(e)) && e@ == error,
                Ok(steps) => match parsed_kdl(input@) {
                    Err(diagnostics) => r matches Err(QueryError::Document(e)) && reports(e)
                        == diagnostics,
                    Ok(trees) => {
                        &&& r matches Ok(found)
                        &&& found.document.wf()
                        &&& found.document@ == flatten(trees)
                        &&& found.nodes@ == selected(flatten(trees), steps)
                        &&& found.nodes@.no_duplicates()
                        &&& forall|k: int|
                            0 <= k < found.nodes@.len() ==> #[trigger] found.nodes@[k]
                                < found.document@.len()
                    },
                },
            },
    {
        let path = match Path::parse(query) {
            Err(e) => {
                return Err(QueryError::Query(e));
            },
            Ok(path) => path,
        };
        let source = match parse_kdl(input) {
            Err(e) => {
                return Err(QueryError::Document(e));
            },
            Ok(source) => source,
        };
        let document = Document::from_kdl(&source);
        let nodes = path.select(&document);
        Ok(Selection { document, nodes })
    }
}

} // verus!

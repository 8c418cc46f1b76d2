//! An XPath-like query language over KDL documents.
//!
//! A query such as `/package[name="x"]//dependency` is read by the
//! [`lexer`] into tokens, by the [`parser`] into a [`path`] according to the
//! [`grammar`], and run by the [`matcher`] on a [`document`]: the result is
//! the sequence of the nodes that the path selects, none of them twice. A
//! step along `//` meets the nodes below a position in document order, each
//! node before its children, so that `//*` lists a whole document in that
//! order. What holds of every run is stated in [`selection`] and [`order`].
//!
//! Documents come from KDL text through the [`reader`]; what is wrong with
//! a text that is none is told by the [`diagnostics`]. The commands
//! [`from_kdl`] and [`query_kdl`] are what the [`plugin`] offers to a host.

pub mod chars;
pub mod text;
pub mod lexer;
pub mod path;
pub mod grammar;
pub mod parser;
pub mod document;
pub mod predicate;
pub mod matcher;
pub mod selection;
pub mod order;
pub mod diagnostics;
pub mod reader;
pub mod from_kdl;
pub mod query_kdl;
pub mod plugin;

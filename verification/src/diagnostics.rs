//! The diagnostics of a text that is no KDL document, as texts for a
//! reader. The `kdl` crate holds them in its error; miette renders each as
//! a report.

use vstd::prelude::*;

verus! {

/// The number of diagnostics that a `KdlError` holds in its field
/// `diagnostics`.
pub uninterp spec fn diagnostics_len(error: kdl::KdlError) -> nat;

/// The report that miette's `NarratableReportHandler::render_report` writes
/// for the diagnostic at `index` of a `KdlError`.
pub uninterp spec fn narrated_at(error: kdl::KdlError, index: int) -> Seq<char>;

/// The length of the field `diagnostics` of a `KdlError`.
#[verifier::external_body]
pub(crate) fn diagnostics_count(error: &kdl::KdlError) -> (r: usize)
    ensures
        r == diagnostics_len(*error),
{
    error.diagnostics.len()
}

/// What miette's `NarratableReportHandler::render_report` writes for one
/// diagnostic of the error. The handler has no settings and reads nothing
/// but the diagnostic, so that the report is a function of the error and
/// the index alone, which [`narrated_at`] names. Nothing else is claimed of
/// the report.
#[verifier::external_body]
pub(crate) fn narrate_at(error: &kdl::KdlError, index: usize) -> (r: String)
    requires
        index < diagnostics_len(*error),
    ensures
        r@ == narrated_at(*error, index as int),
{
    let mut report = String::new();
    let handler = miette::NarratableReportHandler::new();
    let _ = handler.render_report(&mut report, &error.diagnostics[index]);
    report
}

/// The reports of the diagnostics of an error, in order.
pub open spec fn reports(error: kdl::KdlError) -> Seq<Seq<char>> {
    Seq::new(diagnostics_len(error), |i: int| narrated_at(error, i))
}

/// The first `n` of the texts, one behind the other.
pub open spec fn joined_upto(texts: Seq<Seq<char>>, n: int) -> Seq<char>
    decreases n,
{
    if 0 < n <= texts.len() {
        joined_upto(texts, n - 1) + texts[n - 1]
    } else {
        Seq::empty()
    }
}

/// The texts, one behind the other.
pub open spec fn joined(texts: Seq<Seq<char>>) -> Seq<char> {
    joined_upto(texts, texts.len() as int)
}

} // verus!

//! What the builder and the parser pass over without failing, as values
//! that a caller can inspect.

use crate::keyword::{Keyword, KeywordView};
use std::borrow::Cow;
use vstd::prelude::*;

verus! {

/// A diagnostic as plain text.
pub enum DiagnosticView {
    /// The builder replaced `previous` by `replacement` in `field`.
    Overwritten { field: KeywordView, previous: Seq<char>, replacement: Seq<char> },
    /// The parser dropped the line `name:value`.
    DroppedField { name: Seq<char>, value: Seq<char> },
    /// The parser read the value of `field` up to the end of the buffer.
    MissingTerminator { field: KeywordView },
}

/// Something irregular that was met and passed over.
#[derive(Debug, PartialEq, Eq)]
pub enum Diagnostic<'a> {
    /// A field that already held `previous` was set again, to `replacement`.
    Overwritten { field: Keyword<'a>, previous: Cow<'a, str>, replacement: Cow<'a, str> },
    /// A line whose name is not recognised was read and dropped.
    DroppedField { name: Cow<'a, str>, value: Cow<'a, str> },
    /// The value of a field ran to the end of the buffer, with no line
    /// terminator after it.
    MissingTerminator { field: Keyword<'a> },
}

impl<'a> View for Diagnostic<'a> {
    type V = DiagnosticView;

    open spec fn view(&self) -> DiagnosticView {
        match self {
            Diagnostic::Overwritten {
                field,
                previous,
                replacement,
            } => DiagnosticView::Overwritten {
                field: field@,
                previous: previous@,
                replacement: replacement@,
            },
            Diagnostic::DroppedField { name, value } => DiagnosticView::DroppedField {
                name: name@,
                value: value@,
            },
            Diagnostic::MissingTerminator { field } => DiagnosticView::MissingTerminator {
                field: field@,
            },
        }
    }
}

/// The diagnostics of a list, each as plain text.
pub open spec fn diagnostic_views(notes: Seq<Diagnostic<'_>>) -> Seq<DiagnosticView> {
    Seq::new(notes.len(), |i: int| notes[i]@)
}

/// Adds a diagnostic to the end of a list.
pub fn note<'a>(notes: &mut Vec<Diagnostic<'a>>, diagnostic: Diagnostic<'a>)
    ensures
        final(notes)@ == old(notes)@.push(diagnostic),
        diagnostic_views(final(notes)@) == diagnostic_views(old(notes)@).push(diagnostic@),
{
    notes.push(diagnostic);
    assert(diagnostic_views(notes@) =~= diagnostic_views(old(notes)@).push(diagnostic@));
}

} // verus!

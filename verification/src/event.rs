//! The event record, its builder and its canonical text encoding.

use crate::diagnostic::{diagnostic_views, note, Diagnostic, DiagnosticView};
use crate::keyword::{Keyword, KeywordView};
use crate::utf8::same_text;
use std::borrow::Cow;
use vstd::prelude::*;
use vstd::std_specs::cmp::PartialEqSpecImpl;
use vstd::string::StringExecFns;

verus! {

/// What an event says, as plain text: each field is absent or a sequence of
/// characters.
pub struct EventView {
    pub comment: Option<Seq<char>>,
    pub event: Option<Seq<char>>,
    pub id: Option<Seq<char>>,
    pub data: Option<Seq<char>>,
    pub retry: Option<Seq<char>>,
}

/// True when `c` ends a line on the wire.
pub open spec fn is_line_break(c: char) -> bool {
    c == '\n' || c == '\r'
}

/// True when a text holds no line break, so that it survives a trip over
/// the wire as a field value.
pub open spec fn is_clean_text(text: Seq<char>) -> bool {
    forall|i: int| 0 <= i < text.len() ==> !is_line_break(#[trigger] text[i])
}

/// True when a field is absent or its value holds no line break.
pub open spec fn is_clean(value: Option<Seq<char>>) -> bool {
    match value {
        Some(v) => is_clean_text(v),
        None => true,
    }
}

/// One line of the wire form: nothing for an absent field, else the name, a
/// colon, the value and a line feed.
pub open spec fn field_line(name: Seq<char>, value: Option<Seq<char>>) -> Seq<char> {
    match value {
        Some(v) => name + seq![':'] + v + seq!['\n'],
        None => Seq::empty(),
    }
}

/// The name of the event field on the wire.
pub open spec fn name_event() -> Seq<char> {
    seq!['e', 'v', 'e', 'n', 't']
}

/// The name of the id field on the wire.
pub open spec fn name_id() -> Seq<char> {
    seq!['i', 'd']
}

/// The name of the retry field on the wire.
pub open spec fn name_retry() -> Seq<char> {
    seq!['r', 'e', 't', 'r', 'y']
}

/// The name of the data field on the wire.
pub open spec fn name_data() -> Seq<char> {
    seq!['d', 'a', 't', 'a']
}

impl EventView {
    /// The event with every field absent.
    pub open spec fn empty() -> EventView {
        EventView { comment: None, event: None, id: None, data: None, retry: None }
    }

    /// True when at least one field is present.
    pub open spec fn has_field(self) -> bool {
        self.comment is Some || self.event is Some || self.id is Some || self.data is Some
            || self.retry is Some
    }

    /// True when no field value holds a line break.
    pub open spec fn is_clean(self) -> bool {
        is_clean(self.comment) && is_clean(self.event) && is_clean(self.id) && is_clean(self.data)
            && is_clean(self.retry)
    }

    /// The lines of the present fields, in the order comment, event, id,
    /// retry, data.
    pub open spec fn field_lines(self) -> Seq<char> {
        field_line(Seq::empty(), self.comment) + field_line(name_event(), self.event) + field_line(
            name_id(),
            self.id,
        ) + field_line(name_retry(), self.retry) + field_line(name_data(), self.data)
    }

    /// The canonical wire form: the field lines, then one blank line.
    pub open spec fn encode(self) -> Seq<char> {
        self.field_lines() + seq!['\n']
    }
}

/// The text of an optional field.
pub open spec fn text_of(field: Option<Cow<'_, str>>) -> Option<Seq<char>> {
    match field {
        Some(value) => Some(value@),
        None => None,
    }
}

/// True when a field is absent or its text is borrowed.
pub open spec fn is_borrowed(field: Option<Cow<'_, str>>) -> bool {
    match field {
        Some(Cow::Owned(_)) => false,
        _ => true,
    }
}

/// True when a field is absent or its text is owned.
pub open spec fn is_owned(field: Option<Cow<'_, str>>) -> bool {
    match field {
        Some(Cow::Borrowed(_)) => false,
        _ => true,
    }
}

/// One server-sent event: five optional text fields, each borrowed from a
/// buffer or owned.
#[derive(Debug)]
pub struct ServerSentEvent<'a> {
    pub comment: Option<Cow<'a, str>>,
    pub event: Option<Cow<'a, str>>,
    pub id: Option<Cow<'a, str>>,
    pub data: Option<Cow<'a, str>>,
    pub retry: Option<Cow<'a, str>>,
}

impl<'a> View for ServerSentEvent<'a> {
    type V = EventView;

    open spec fn view(&self) -> EventView {
        EventView {
            comment: text_of(self.comment),
            event: text_of(self.event),
            id: text_of(self.id),
            data: text_of(self.data),
            retry: text_of(self.retry),
        }
    }
}

impl<'a> PartialEq for ServerSentEvent<'a> {
    /// Two events are equal when their five fields are: each absent in
    /// both, or present in both with the same text.
    fn eq(&self, other: &Self) -> (r: bool) {
        same_field(&self.comment, &other.comment) && same_field(&self.event, &other.event)
            && same_field(&self.id, &other.id) && same_field(&self.data, &other.data)
            && same_field(&self.retry, &other.retry)
    }
}

impl<'a> PartialEqSpecImpl for ServerSentEvent<'a> {
    open spec fn obeys_eq_spec() -> bool {
        true
    }

    open spec fn eq_spec(&self, other: &Self) -> bool {
        self@ == other@
    }
}

impl<'a> Eq for ServerSentEvent<'a> {

}

impl<'a> Clone for ServerSentEvent<'a> {
    fn clone(&self) -> (e: Self)
        ensures
            e@ == self@,
    {
        ServerSentEvent {
            comment: copy_field(&self.comment),
            event: copy_field(&self.event),
            id: copy_field(&self.id),
            data: copy_field(&self.data),
            retry: copy_field(&self.retry),
        }
    }
}

impl<'a> Default for ServerSentEvent<'a> {
    fn default() -> (e: Self)
        ensures
            e@ == EventView::empty(),
    {
        ServerSentEvent { comment: None, event: None, id: None, data: None, retry: None }
    }
}

/// The text that a field value holds, wherever it lives.
pub fn as_text<'b>(value: &'b Cow<'_, str>) -> (s: &'b str)
    ensures
        s@ == value@,
{
    match value {
        Cow::Borrowed(borrowed) => borrowed,
        Cow::Owned(owned) => owned.as_str(),
    }
}

/// Tells whether two optional fields hold the same text.
fn same_field(a: &Option<Cow<'_, str>>, b: &Option<Cow<'_, str>>) -> (r: bool)
    ensures
        r == (text_of(*a) == text_of(*b)),
{
    match (a, b) {
        (Some(x), Some(y)) => same_text(as_text(x), as_text(y)),
        (None, None) => true,
        _ => false,
    }
}

/// A copy of a field value: a borrowed one stays borrowed, an owned one is
/// duplicated.
pub fn copy_text<'a>(value: &Cow<'a, str>) -> (r: Cow<'a, str>)
    ensures
        r@ == value@,
{
    match value {
        Cow::Borrowed(borrowed) => Cow::Borrowed(*borrowed),
        Cow::Owned(owned) => Cow::Owned(owned.clone()),
    }
}

/// A copy of an optional field value.
fn copy_field<'a>(field: &Option<Cow<'a, str>>) -> (r: Option<Cow<'a, str>>)
    ensures
        text_of(r) == text_of(*field),
{
    match field {
        Some(value) => Some(copy_text(value)),
        None => None,
    }
}

/// An owned copy of an optional field value.
fn detach(field: &Option<Cow<'_, str>>) -> (r: Option<Cow<'static, str>>)
    ensures
        text_of(r) == text_of(*field),
        is_owned(r),
{
    match field {
        Some(value) => Some(Cow::Owned(String::from_str(as_text(value)))),
        None => None,
    }
}

/// Appends the wire line of one field to `out`.
fn push_field(out: &mut String, name: &str, field: &Option<Cow<'_, str>>)
    ensures
        final(out)@ == old(out)@ + field_line(name@, text_of(*field)),
{
    match field {
        Some(value) => {
            out.append(name);
            out.append(":");
            out.append(as_text(value));
            out.append("\n");
            proof {
                reveal_strlit(":");
                reveal_strlit("\n");
                assert(":"@ =~= seq![':']);
                assert("\n"@ =~= seq!['\n']);
                assert(final(out)@ =~= old(out)@ + field_line(name@, text_of(*field)));
            }
        },
        None => {
            assert(old(out)@ + Seq::<char>::empty() =~= old(out)@);
        },
    }
}

impl<'a> ServerSentEvent<'a> {
    /// True when every field that is present borrows its text.
    pub open spec fn borrows(&self) -> bool {
        is_borrowed(self.comment) && is_borrowed(self.event) && is_borrowed(self.id) && is_borrowed(
            self.data,
        ) && is_borrowed(self.retry)
    }

    /// True when every field that is present owns its text.
    pub open spec fn owns(&self) -> bool {
        is_owned(self.comment) && is_owned(self.event) && is_owned(self.id) && is_owned(self.data)
            && is_owned(self.retry)
    }

    /// A builder with every field absent.
    pub fn builder() -> (b: SSEBuilder<'a>)
        ensures
            b@ == EventView::empty(),
            b.diagnostics() == Seq::<DiagnosticView>::empty(),
    {
        let notes: Vec<Diagnostic<'a>> = Vec::new();
        assert(diagnostic_views(notes@) =~= Seq::<DiagnosticView>::empty());
        SSEBuilder { inner: ServerSentEvent::default(), notes }
    }

    /// The canonical wire form of the event: one line for each present
    /// field, in the order comment, event, id, retry, data, then a blank line.
    pub fn to_string(&self) -> (s: String)
        ensures
            s@ == self@.encode(),
    {
        let mut out = String::new();
        assert(out@ =~= Seq::<char>::empty());
        push_field(&mut out, "", &self.comment);
        push_field(&mut out, "event", &self.event);
        push_field(&mut out, "id", &self.id);
        push_field(&mut out, "retry", &self.retry);
        push_field(&mut out, "data", &self.data);
        out.append("\n");
        proof {
            reveal_strlit("");
            reveal_strlit("event");
            reveal_strlit("id");
            reveal_strlit("retry");
            reveal_strlit("data");
            reveal_strlit("\n");
            assert(""@ =~= Seq::<char>::empty());
            assert("event"@ =~= name_event());
            assert("id"@ =~= name_id());
            assert("retry"@ =~= name_retry());
            assert("data"@ =~= name_data());
            assert("\n"@ =~= seq!['\n']);
            assert(out@ =~= self@.encode());
        }
        out
    }

    /// A copy of the event that owns its text, and so may outlive the buffer
    /// that this event borrows from.
    pub fn cloned(&'a self) -> (e: ServerSentEvent<'static>)
        ensures
            e@ == self@,
            e.owns(),
    {
        ServerSentEvent {
            comment: detach(&self.comment),
            event: detach(&self.event),
            id: detach(&self.id),
            data: detach(&self.data),
            retry: detach(&self.retry),
        }
    }
}

/// The diagnostics `notes` after a field that held `held` was set to
/// `replacement`: a note is added where a value was there to be replaced.
pub open spec fn overwriting(
    notes: Seq<DiagnosticView>,
    field: KeywordView,
    held: Option<Seq<char>>,
    replacement: Seq<char>,
) -> Seq<DiagnosticView> {
    match held {
        Some(previous) => notes.push(DiagnosticView::Overwritten { field, previous, replacement }),
        None => notes,
    }
}

/// Puts `value` into the slot of a field and notes the value that it
/// replaces, if there is one.
fn set_field<'a>(
    slot: &mut Option<Cow<'a, str>>,
    notes: &mut Vec<Diagnostic<'a>>,
    field: Keyword<'a>,
    value: &'a str,
)
    ensures
        text_of(*final(slot)) == Some(value@),
        is_borrowed(*final(slot)),
        diagnostic_views(final(notes)@) == overwriting(
            diagnostic_views(old(notes)@),
            field@,
            text_of(*old(slot)),
            value@,
        ),
{
    let held = slot.take();
    *slot = Some(Cow::Borrowed(value));
    if let Some(previous) = held {
        note(notes, Diagnostic::Overwritten { field, previous, replacement: Cow::Borrowed(value) });
    }
}

/// Collects the fields of an event one by one. Setting a field again
/// replaces its value and leaves a diagnostic.
pub struct SSEBuilder<'a> {
    inner: ServerSentEvent<'a>,
    notes: Vec<Diagnostic<'a>>,
}

impl<'a> View for SSEBuilder<'a> {
    type V = EventView;

    closed spec fn view(&self) -> EventView {
        self.inner@
    }
}

impl<'a> SSEBuilder<'a> {
    /// Every field that was set borrows the text that it was set to.
    #[verifier::type_invariant]
    spec fn inv(self) -> bool {
        self.inner.borrows()
    }

    /// The diagnostics collected so far, oldest first.
    pub closed spec fn diagnostics(&self) -> Seq<DiagnosticView> {
        diagnostic_views(self.notes@)
    }

    /// Sets the comment, replacing any earlier one.
    pub fn comment(self, comment: &'a str) -> (b: Self)
        ensures
            b@ == (EventView { comment: Some(comment@), ..self@ }),
            b.diagnostics() == overwriting(
                self.diagnostics(),
                KeywordView::Comment,
                self@.comment,
                comment@,
            ),
    {
        proof {
            use_type_invariant(&self);
        }
        let mut inner = self.inner;
        let mut notes = self.notes;
        set_field(&mut inner.comment, &mut notes, Keyword::Comment, comment);
        SSEBuilder { inner, notes }
    }

    /// Sets the event name, replacing any earlier one.
    pub fn event(self, event: &'a str) -> (b: Self)
        ensures
            b@ == (EventView { event: Some(event@), ..self@ }),
            b.diagnostics() == overwriting(
                self.diagnostics(),
                KeywordView::Event,
                self@.event,
                event@,
            ),
    {
        proof {
            use_type_invariant(&self);
        }
        let mut inner = self.inner;
        let mut notes = self.notes;
        set_field(&mut inner.event, &mut notes, Keyword::Event, event);
        SSEBuilder { inner, notes }
    }

    /// Sets the id, replacing any earlier one.
    pub fn id(self, id: &'a str) -> (b: Self)
        ensures
            b@ == (EventView { id: Some(id@), ..self@ }),
            b.diagnostics() == overwriting(self.diagnostics(), KeywordView::Id, self@.id, id@),
    {
        proof {
            use_type_invariant(&self);
        }
        let mut inner = self.inner;
        let mut notes = self.notes;
        set_field(&mut inner.id, &mut notes, Keyword::Id, id);
        SSEBuilder { inner, notes }
    }

    /// Sets the data, replacing any earlier value.
    pub fn data(self, data: &'a str) -> (b: Self)
        ensures
            b@ == (EventView { data: Some(data@), ..self@ }),
            b.diagnostics() == overwriting(
                self.diagnostics(),
                KeywordView::Data,
                self@.data,
                data@,
            ),
    {
        proof {
            use_type_invariant(&self);
        }
        let mut inner = self.inner;
        let mut notes = self.notes;
        set_field(&mut inner.data, &mut notes, Keyword::Data, data);
        SSEBuilder { inner, notes }
    }

    /// Sets the retry value, replacing any earlier one.
    pub fn retry(self, retry: &'a str) -> (b: Self)
        ensures
            b@ == (EventView { retry: Some(retry@), ..self@ }),
            b.diagnostics() == overwriting(
                self.diagnostics(),
                KeywordView::Retry,
                self@.retry,
                retry@,
            ),
    {
        proof {
            use_type_invariant(&self);
        }
        let mut inner = self.inner;
        let mut notes = self.notes;
        set_field(&mut inner.retry, &mut notes, Keyword::Retry, retry);
        SSEBuilder { inner, notes }
    }

    /// The finished event, with exactly the fields that were set.
    pub fn build(self) -> (e: ServerSentEvent<'a>)
        ensures
            e@ == self@,
            e.borrows(),
    {
        proof {
            use_type_invariant(&self);
        }
        self.inner
    }

    /// The finished event together with the diagnostics that setting its
    /// fields left, oldest first.
    pub fn build_with_diagnostics(self) -> (r: (ServerSentEvent<'a>, Vec<Diagnostic<'a>>))
        ensures
            r.0@ == self@,
            r.0.borrows(),
            diagnostic_views(r.1@) == self.diagnostics(),
    {
        proof {
            use_type_invariant(&self);
        }
        (self.inner, self.notes)
    }
}

} // verus!

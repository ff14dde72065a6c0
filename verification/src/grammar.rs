//! The wire grammar as mathematics: where the source text begins, where a
//! field name and a value end, and what one extraction yields.

use crate::diagnostic::DiagnosticView;
use crate::event::EventView;
use crate::keyword::{classify, KeywordView};
use vstd::prelude::*;

verus! {

/// The byte-order mark that may lead a buffer.
pub open spec fn is_bom(c: char) -> bool {
    c == '\u{FEFF}'
}

/// The code points with the Unicode property White_Space.
pub open spec fn is_whitespace_code(v: u32) -> bool {
    ||| 0x09 <= v <= 0x0D
    ||| v == 0x20
    ||| v == 0x85
    ||| v == 0xA0
    ||| v == 0x1680
    ||| 0x2000 <= v <= 0x200A
    ||| v == 0x2028
    ||| v == 0x2029
    ||| v == 0x202F
    ||| v == 0x205F
    ||| v == 0x3000
}

/// True when `c` is a whitespace character.
pub open spec fn is_whitespace(c: char) -> bool {
    is_whitespace_code(c as u32)
}

/// Index of the first character at or after `i` that is not whitespace, or
/// the length of `t` where only whitespace follows.
pub open spec fn skip_whitespace(t: Seq<char>, i: int) -> int
    decreases t.len() - i,
{
    if 0 <= i < t.len() && is_whitespace(t[i]) {
        skip_whitespace(t, i + 1)
    } else {
        i
    }
}

/// Number of leading characters that a parser discards: one byte-order
/// mark, if the buffer starts with one, and the whitespace after it.
pub open spec fn leading_len(t: Seq<char>) -> int {
    if t.len() > 0 && is_bom(t[0]) {
        skip_whitespace(t, 1)
    } else {
        skip_whitespace(t, 0)
    }
}

/// The text that a parser reads: the buffer without its leading byte-order
/// mark and whitespace.
pub open spec fn source_of(t: Seq<char>) -> Seq<char> {
    t.skip(leading_len(t))
}

/// Index of the first colon at or after `i`, or the length of `t` where
/// there is none.
pub open spec fn find_colon(t: Seq<char>, i: int) -> int
    decreases t.len() - i,
{
    if 0 <= i < t.len() && t[i] != ':' {
        find_colon(t, i + 1)
    } else {
        i
    }
}

/// True when the character at `j` ends a value that began at `start`: a
/// line feed always does, a carriage return does unless the character just
/// before it, within the value, is a backslash.
pub open spec fn ends_value(t: Seq<char>, start: int, j: int) -> bool {
    t[j] == '\n' || (t[j] == '\r' && !(start < j && t[j - 1] == '\\'))
}

/// Index at which the value that began at `start` ends, scanning from `j`:
/// the first character that ends it, or the length of `t` where the value
/// runs to the end of the text.
pub open spec fn value_end(t: Seq<char>, start: int, j: int) -> int
    decreases t.len() - j,
{
    if 0 <= j < t.len() && !ends_value(t, start, j) {
        value_end(t, start, j + 1)
    } else {
        j
    }
}

/// Index just after the line terminator at `j`, if one is there. A
/// terminator is a carriage return and line feed, a lone carriage return, a
/// lone line feed, or the end of the text.
pub open spec fn after_terminator(t: Seq<char>, j: int) -> Option<int> {
    if j >= t.len() {
        Some(j)
    } else if t[j] == '\r' {
        if j + 1 < t.len() && t[j + 1] == '\n' {
            Some(j + 2)
        } else {
            Some(j + 1)
        }
    } else if t[j] == '\n' {
        Some(j + 1)
    } else {
        None
    }
}

/// The event `acc` after a field of the given kind was read with `value`:
/// a recognised field takes the value, replacing an earlier one; an unknown
/// field leaves the event as it was.
pub open spec fn store(acc: EventView, kind: KeywordView, value: Seq<char>) -> EventView {
    match kind {
        KeywordView::Data => EventView { data: Some(value), ..acc },
        KeywordView::Event => EventView { event: Some(value), ..acc },
        KeywordView::Id => EventView { id: Some(value), ..acc },
        KeywordView::Retry => EventView { retry: Some(value), ..acc },
        KeywordView::Comment => EventView { comment: Some(value), ..acc },
        KeywordView::Unknown(_) => acc,
    }
}

/// The diagnostics `notes` after a field of the given kind was read with
/// `value`: an unknown field adds a note that it was dropped, and a value
/// that ran to the end of the text adds a note that no terminator followed.
pub open spec fn noted(
    notes: Seq<DiagnosticView>,
    kind: KeywordView,
    value: Seq<char>,
    cut_short: bool,
) -> Seq<DiagnosticView> {
    let dropped = match kind {
        KeywordView::Unknown(name) => seq![DiagnosticView::DroppedField { name, value }],
        _ => Seq::empty(),
    };
    let unterminated = if cut_short {
        seq![DiagnosticView::MissingTerminator { field: kind }]
    } else {
        Seq::empty()
    };
    notes + dropped + unterminated
}

/// What one extraction yields: the event, if there is one, the index at
/// which the next extraction starts, and the diagnostics collected on the
/// way.
pub struct Parsed {
    pub event: Option<EventView>,
    pub next: int,
    pub diagnostics: Seq<DiagnosticView>,
}

/// Index just after the line terminator at `j`, or `j` itself where no
/// terminator is there.
pub open spec fn past_terminator(t: Seq<char>, j: int) -> int {
    match after_terminator(t, j) {
        Some(next) => next,
        None => j,
    }
}

/// Reads field lines from index `i` on into `acc` until a blank line or the
/// end of the text closes the event, adding to `notes` what it passes over.
/// A line without a colon ends the extraction with no event and the rest of
/// the text used up.
pub open spec fn parse_fields(
    t: Seq<char>,
    i: int,
    acc: EventView,
    notes: Seq<DiagnosticView>,
) -> Parsed
    decreases t.len() - i,
    when 0 <= i
    via parse_fields_decreases
{
    let colon = find_colon(t, i);
    if colon >= t.len() {
        Parsed { event: None, next: t.len() as int, diagnostics: notes }
    } else {
        let stop = value_end(t, colon + 1, colon + 1);
        let kind = classify(t.subrange(i, colon));
        let value = t.subrange(colon + 1, stop);
        let acc = store(acc, kind, value);
        let notes = noted(notes, kind, value, stop >= t.len());
        let after = past_terminator(t, stop);
        match after_terminator(t, after) {
            Some(next) => Parsed { event: Some(acc), next, diagnostics: notes },
            None => parse_fields(t, after, acc, notes),
        }
    }
}

#[via_fn]
proof fn parse_fields_decreases(
    t: Seq<char>,
    i: int,
    acc: EventView,
    notes: Seq<DiagnosticView>,
) {
    lemma_find_colon_bounds(t, i);
    let colon = find_colon(t, i);
    if colon < t.len() {
        lemma_value_end_bounds(t, colon + 1, colon + 1);
    }
}

/// One extraction from the text `t`: nothing at the end of the text, else
/// the fields read from the start of `t`.
pub open spec fn parse_event(t: Seq<char>) -> Parsed {
    if t.len() == 0 {
        Parsed { event: None, next: 0, diagnostics: Seq::empty() }
    } else {
        parse_fields(t, 0, EventView::empty(), Seq::empty())
    }
}

/// `skip_whitespace` stays within the text and stops at a character that
/// is not whitespace, with only whitespace before it.
pub proof fn lemma_skip_whitespace_bounds(t: Seq<char>, i: int)
    requires
        0 <= i <= t.len(),
    ensures
        i <= skip_whitespace(t, i) <= t.len(),
        skip_whitespace(t, i) < t.len() ==> !is_whitespace(t[skip_whitespace(t, i)]),
        forall|j: int| i <= j < skip_whitespace(t, i) ==> is_whitespace(#[trigger] t[j]),
    decreases t.len() - i,
{
    if i < t.len() && is_whitespace(t[i]) {
        lemma_skip_whitespace_bounds(t, i + 1);
    }
}

/// `find_colon` stays within the text and stops at the first colon.
pub proof fn lemma_find_colon_bounds(t: Seq<char>, i: int)
    requires
        0 <= i,
    ensures
        i <= find_colon(t, i),
        i <= t.len() ==> find_colon(t, i) <= t.len(),
        find_colon(t, i) < t.len() ==> t[find_colon(t, i)] == ':',
        forall|j: int| i <= j < find_colon(t, i) ==> #[trigger] t[j] != ':',
    decreases t.len() - i,
{
    if i < t.len() && t[i] != ':' {
        lemma_find_colon_bounds(t, i + 1);
    }
}

/// `value_end` stays within the text and stops at the first character that
/// ends the value.
pub proof fn lemma_value_end_bounds(t: Seq<char>, start: int, j: int)
    requires
        0 <= j,
    ensures
        j <= value_end(t, start, j),
        j <= t.len() ==> value_end(t, start, j) <= t.len(),
        value_end(t, start, j) < t.len() ==> ends_value(t, start, value_end(t, start, j)),
        forall|m: int| j <= m < value_end(t, start, j) ==> !ends_value(t, start, m),
    decreases t.len() - j,
{
    if j < t.len() && !ends_value(t, start, j) {
        lemma_value_end_bounds(t, start, j + 1);
    }
}

/// Reading from index `d + i` of a text is reading from index `i` of the
/// text without its first `d` characters.
pub proof fn lemma_find_colon_shift(t: Seq<char>, d: int, i: int)
    requires
        0 <= d <= t.len(),
        0 <= i,
    ensures
        find_colon(t, d + i) == d + find_colon(t.skip(d), i),
    decreases t.len() - d - i,
{
    let s = t.skip(d);
    if i < s.len() {
        assert(s[i] == t[d + i]);
        if s[i] != ':' {
            lemma_find_colon_shift(t, d, i + 1);
        }
    }
}

/// The end of a value does not depend on what stands before the value.
pub proof fn lemma_value_end_shift(t: Seq<char>, d: int, start: int, j: int)
    requires
        0 <= d <= t.len(),
        0 <= start <= j,
    ensures
        value_end(t, d + start, d + j) == d + value_end(t.skip(d), start, j),
    decreases t.len() - d - j,
{
    let s = t.skip(d);
    if j < s.len() {
        assert(s[j] == t[d + j]);
        if start < j {
            assert(s[j - 1] == t[d + j - 1]);
        }
        assert(ends_value(t, d + start, d + j) == ends_value(s, start, j));
        if !ends_value(s, start, j) {
            lemma_value_end_shift(t, d, start, j + 1);
        }
    }
}

/// A terminator is found at index `d + j` of a text exactly where one is
/// found at index `j` of the text without its first `d` characters.
pub proof fn lemma_terminator_shift(t: Seq<char>, d: int, j: int)
    requires
        0 <= d <= t.len(),
        0 <= j,
    ensures
        after_terminator(t, d + j) is Some == after_terminator(t.skip(d), j) is Some,
        past_terminator(t, d + j) == d + past_terminator(t.skip(d), j),
{
    let s = t.skip(d);
    if j < s.len() {
        assert(s[j] == t[d + j]);
        if j + 1 < s.len() {
            assert(s[j + 1] == t[d + j + 1]);
        }
    }
}

/// `past_terminator` moves forward and stays within the text.
pub proof fn lemma_past_terminator_bounds(t: Seq<char>, j: int)
    requires
        0 <= j <= t.len(),
    ensures
        j <= past_terminator(t, j) <= t.len(),
{
}

/// An extraction does not depend on what stands before the index at which
/// it starts: the event and the diagnostics are the same, and the next
/// index moves along.
pub proof fn lemma_parse_fields_shift(
    t: Seq<char>,
    d: int,
    i: int,
    acc: EventView,
    notes: Seq<DiagnosticView>,
)
    requires
        0 <= d <= t.len(),
        0 <= i <= t.len() - d,
    ensures
        parse_fields(t, d + i, acc, notes).event == parse_fields(t.skip(d), i, acc, notes).event,
        parse_fields(t, d + i, acc, notes).next == d + parse_fields(t.skip(d), i, acc, notes).next,
        parse_fields(t, d + i, acc, notes).diagnostics == parse_fields(
            t.skip(d),
            i,
            acc,
            notes,
        ).diagnostics,
    decreases t.len() - d - i,
{
    let s = t.skip(d);
    lemma_find_colon_shift(t, d, i);
    lemma_find_colon_bounds(s, i);
    let colon = find_colon(s, i);
    if colon < s.len() {
        lemma_value_end_shift(t, d, colon + 1, colon + 1);
        lemma_value_end_bounds(s, colon + 1, colon + 1);
        let stop = value_end(s, colon + 1, colon + 1);
        lemma_terminator_shift(t, d, stop);
        lemma_past_terminator_bounds(s, stop);
        let after = past_terminator(s, stop);
        lemma_terminator_shift(t, d, after);
        assert(t.subrange(d + i, d + colon) =~= s.subrange(i, colon));
        assert(t.subrange(d + colon + 1, d + stop) =~= s.subrange(colon + 1, stop));
        let kind = classify(s.subrange(i, colon));
        let value = s.subrange(colon + 1, stop);
        if after_terminator(s, after) is None {
            lemma_parse_fields_shift(
                t,
                d,
                after,
                store(acc, kind, value),
                noted(notes, kind, value, stop >= s.len()),
            );
        }
    }
}

} // verus!

//! What holds between encoding and parsing.

use crate::diagnostic::DiagnosticView;
use crate::event::{
    field_line, is_clean, is_clean_text, is_line_break, name_data, name_event, name_id,
    name_retry, EventView,
};
use crate::grammar::{
    after_terminator, ends_value, find_colon, is_bom, is_whitespace, leading_len,
    lemma_find_colon_bounds, lemma_skip_whitespace_bounds, lemma_value_end_bounds, noted,
    parse_event, parse_fields, past_terminator, skip_whitespace, source_of, store, value_end,
    Parsed,
};
use crate::keyword::{classify, KeywordView};
use vstd::prelude::*;

verus! {

/// True when a field name has neither a colon nor a line break in it.
pub open spec fn is_plain_name(name: Seq<char>) -> bool {
    forall|k: int| 0 <= k < name.len() ==> #[trigger] name[k] != ':' && !is_line_break(name[k])
}

/// What an extraction yields once a field line has been read up to index
/// `j` with `acc` and `notes` collected: a terminator at `j` closes the
/// event, anything else is the next field line.
pub open spec fn finish(
    t: Seq<char>,
    j: int,
    acc: EventView,
    notes: Seq<DiagnosticView>,
) -> Parsed {
    match after_terminator(t, j) {
        Some(next) => Parsed { event: Some(acc), next, diagnostics: notes },
        None => parse_fields(t, j, acc, notes),
    }
}

/// Reading one well-formed line `name:value` at index `i` stores the value
/// under the name and goes on after the line.
pub proof fn lemma_line_step(
    t: Seq<char>,
    i: int,
    name: Seq<char>,
    value: Seq<char>,
    acc: EventView,
    notes: Seq<DiagnosticView>,
)
    requires
        0 <= i,
        i + name.len() + value.len() + 2 <= t.len(),
        t.subrange(i, i + name.len() + value.len() + 2) == name + seq![':'] + value + seq!['\n'],
        is_plain_name(name),
        is_clean_text(value),
    ensures
        after_terminator(t, i) is None,
        parse_fields(t, i, acc, notes) == finish(
            t,
            i + name.len() + value.len() + 2,
            store(acc, classify(name), value),
            noted(notes, classify(name), value, false),
        ),
{
    let line = name + seq![':'] + value + seq!['\n'];
    let n = name.len() as int;
    let m = value.len() as int;
    assert forall|k: int| 0 <= k < n + m + 2 implies t[i + k] == line[k] by {
        assert(t.subrange(i, i + n + m + 2)[k] == t[i + k]);
    }
    assert forall|k: int| 0 <= k < n implies t[i + k] == name[k] by {
        assert(line[k] == name[k]);
    }
    assert(t[i + n] == ':') by {
        assert(line[n] == ':');
    }
    assert forall|k: int| 0 <= k < m implies t[i + n + 1 + k] == value[k] by {
        assert(line[n + 1 + k] == value[k]);
    }
    assert(t[i + n + 1 + m] == '\n') by {
        assert(line[n + 1 + m] == '\n');
    }
    let colon = find_colon(t, i);
    lemma_find_colon_bounds(t, i);
    assert(colon == i + n) by {
        if colon < i + n {
            assert(t[i + (colon - i)] == name[colon - i]);
        }
    }
    let stop = value_end(t, colon + 1, colon + 1);
    lemma_value_end_bounds(t, colon + 1, colon + 1);
    assert(stop == colon + 1 + m) by {
        if stop < colon + 1 + m {
            assert(t[i + n + 1 + (stop - colon - 1)] == value[stop - colon - 1]);
        }
        assert(ends_value(t, colon + 1, colon + 1 + m));
    }
    assert(t.subrange(i, colon) =~= name);
    assert(t.subrange(colon + 1, stop) =~= value);
    assert(past_terminator(t, stop) == stop + 1);
    assert(after_terminator(t, i) is None) by {
        if n > 0 {
            assert(t[i + 0] == name[0]);
        }
    }
}

/// The event `base` with each field that `over` holds put in its place.
pub open spec fn overlay(base: EventView, over: EventView) -> EventView {
    EventView {
        comment: if over.comment is Some { over.comment } else { base.comment },
        event: if over.event is Some { over.event } else { base.event },
        id: if over.id is Some { over.id } else { base.id },
        data: if over.data is Some { over.data } else { base.data },
        retry: if over.retry is Some { over.retry } else { base.retry },
    }
}

/// The names that the encoder writes are plain and classify as their fields.
pub proof fn lemma_names()
    ensures
        is_plain_name(Seq::empty()),
        is_plain_name(name_event()),
        is_plain_name(name_id()),
        is_plain_name(name_retry()),
        is_plain_name(name_data()),
        classify(Seq::empty()) == KeywordView::Comment,
        classify(name_event()) == KeywordView::Event,
        classify(name_id()) == KeywordView::Id,
        classify(name_retry()) == KeywordView::Retry,
        classify(name_data()) == KeywordView::Data,
{
    assert(name_retry()[0] != name_event()[0]);
    assert(name_data().len() == 4);
    assert(name_event().len() == 5);
    assert(name_id().len() == 2);
    assert(name_retry().len() == 5);
}

/// The pieces of a text that is made of five parts, found in a longer text.
proof fn lemma_five_parts(
    t: Seq<char>,
    i: int,
    l1: Seq<char>,
    l2: Seq<char>,
    l3: Seq<char>,
    l4: Seq<char>,
    l5: Seq<char>,
)
    requires
        0 <= i,
        i + (l1 + l2 + l3 + l4 + l5).len() <= t.len(),
        t.subrange(i, i + (l1 + l2 + l3 + l4 + l5).len()) == l1 + l2 + l3 + l4 + l5,
    ensures
        t.subrange(i, i + l1.len()) == l1,
        t.subrange(i + l1.len(), i + l1.len() + l2.len()) == l2,
        t.subrange(i + l1.len() + l2.len(), i + l1.len() + l2.len() + l3.len()) == l3,
        t.subrange(
            i + l1.len() + l2.len() + l3.len(),
            i + l1.len() + l2.len() + l3.len() + l4.len(),
        ) == l4,
        t.subrange(
            i + l1.len() + l2.len() + l3.len() + l4.len(),
            i + l1.len() + l2.len() + l3.len() + l4.len() + l5.len(),
        ) == l5,
{
    let whole = l1 + l2 + l3 + l4 + l5;
    let end1 = l1.len() as int;
    let end2 = end1 + l2.len();
    let end3 = end2 + l3.len();
    let end4 = end3 + l4.len();
    let end5 = end4 + l5.len();
    let found = t.subrange(i, i + end5);
    assert(t.subrange(i, i + end1) =~= found.subrange(0, end1));
    assert(t.subrange(i + end1, i + end2) =~= found.subrange(end1, end2));
    assert(t.subrange(i + end2, i + end3) =~= found.subrange(end2, end3));
    assert(t.subrange(i + end3, i + end4) =~= found.subrange(end3, end4));
    assert(t.subrange(i + end4, i + end5) =~= found.subrange(end4, end5));
    assert(whole.subrange(0, end1) =~= l1);
    assert(whole.subrange(end1, end2) =~= l2);
    assert(whole.subrange(end2, end3) =~= l3);
    assert(whole.subrange(end3, end4) =~= l4);
    assert(whole.subrange(end4, end5) =~= l5);
}

/// Reading the line of one optional field, if it is there, stores its value
/// and goes on after the line.
proof fn lemma_field_step(
    t: Seq<char>,
    i: int,
    name: Seq<char>,
    value: Option<Seq<char>>,
    acc: EventView,
    notes: Seq<DiagnosticView>,
)
    requires
        !(classify(name) is Unknown),
        0 <= i,
        i + field_line(name, value).len() <= t.len(),
        t.subrange(i, i + field_line(name, value).len()) == field_line(name, value),
        is_plain_name(name),
        is_clean(value),
    ensures
        finish(t, i, acc, notes) == finish(
            t,
            i + field_line(name, value).len(),
            match value {
                Some(v) => store(acc, classify(name), v),
                None => acc,
            },
            notes,
        ),
{
    if let Some(v) = value {
        lemma_line_step(t, i, name, v, acc, notes);
        assert(noted(notes, classify(name), v, false) =~= notes);
    }
}

/// Reading the field lines of a clean event `e` at index `i` puts its
/// fields over those collected so far and goes on after the lines.
pub proof fn lemma_lines_step(
    t: Seq<char>,
    i: int,
    e: EventView,
    acc: EventView,
    notes: Seq<DiagnosticView>,
)
    requires
        0 <= i,
        i + e.field_lines().len() <= t.len(),
        t.subrange(i, i + e.field_lines().len()) == e.field_lines(),
        e.is_clean(),
    ensures
        finish(t, i, acc, notes) == finish(t, i + e.field_lines().len(), overlay(acc, e), notes),
{
    lemma_names();
    let none = Seq::<char>::empty();
    let l1 = field_line(none, e.comment);
    let l2 = field_line(name_event(), e.event);
    let l3 = field_line(name_id(), e.id);
    let l4 = field_line(name_retry(), e.retry);
    let l5 = field_line(name_data(), e.data);
    let end1 = i + l1.len();
    let end2 = end1 + l2.len();
    let end3 = end2 + l3.len();
    let end4 = end3 + l4.len();
    lemma_five_parts(t, i, l1, l2, l3, l4, l5);
    let a1 = match e.comment {
        Some(v) => store(acc, classify(none), v),
        None => acc,
    };
    let a2 = match e.event {
        Some(v) => store(a1, classify(name_event()), v),
        None => a1,
    };
    let a3 = match e.id {
        Some(v) => store(a2, classify(name_id()), v),
        None => a2,
    };
    let a4 = match e.retry {
        Some(v) => store(a3, classify(name_retry()), v),
        None => a3,
    };
    let a5 = match e.data {
        Some(v) => store(a4, classify(name_data()), v),
        None => a4,
    };
    lemma_field_step(t, i, none, e.comment, acc, notes);
    lemma_field_step(t, end1, name_event(), e.event, a1, notes);
    lemma_field_step(t, end2, name_id(), e.id, a2, notes);
    lemma_field_step(t, end3, name_retry(), e.retry, a3, notes);
    lemma_field_step(t, end4, name_data(), e.data, a4, notes);
    assert(a5 == overlay(acc, e));
}

/// The field lines of an event with a field start with a character that is
/// neither whitespace nor a byte-order mark nor a line break.
proof fn lemma_first_character(e: EventView, rest: Seq<char>)
    requires
        e.has_field(),
    ensures
        (e.field_lines() + rest).len() > 0,
        !is_whitespace((e.field_lines() + rest)[0]),
        !is_bom((e.field_lines() + rest)[0]),
        !is_line_break((e.field_lines() + rest)[0]),
{
    let none = Seq::<char>::empty();
    let l1 = field_line(none, e.comment);
    let l2 = field_line(name_event(), e.event);
    let l3 = field_line(name_id(), e.id);
    let l4 = field_line(name_retry(), e.retry);
    let l5 = field_line(name_data(), e.data);
    let t = e.field_lines() + rest;
    assert(t =~= l1 + l2 + l3 + l4 + l5 + rest);
    if e.comment is Some {
        assert(t[0] == ':');
    } else if e.event is Some {
        assert(l1.len() == 0);
        assert(t[0] == name_event()[0]);
    } else if e.id is Some {
        assert(l1.len() == 0 && l2.len() == 0);
        assert(t[0] == name_id()[0]);
    } else if e.retry is Some {
        assert(l1.len() == 0 && l2.len() == 0 && l3.len() == 0);
        assert(t[0] == name_retry()[0]);
    } else {
        assert(l1.len() == 0 && l2.len() == 0 && l3.len() == 0 && l4.len() == 0);
        assert(t[0] == name_data()[0]);
    }
}

/// A text that starts with a character which is neither whitespace nor a
/// byte-order mark is read from its first character.
proof fn lemma_nothing_to_skip(t: Seq<char>)
    requires
        t.len() == 0 || (!is_whitespace(t[0]) && !is_bom(t[0])),
    ensures
        source_of(t) == t,
{
    assert(leading_len(t) == 0);
    assert(t.skip(0) =~= t);
}

/// A buffer that starts with the encoding of a clean event with a field
/// yields that event without a diagnostic, and the extraction ends right
/// after the encoding.
pub proof fn lemma_parse_encoded(e: EventView, rest: Seq<char>)
    requires
        e.is_clean(),
        e.has_field(),
    ensures
        parse_event(e.encode() + rest) == (Parsed {
            event: Some(e),
            next: e.encode().len() as int,
            diagnostics: Seq::empty(),
        }),
        (e.encode() + rest).skip(e.encode().len() as int) == rest,
        source_of(e.encode() + rest) == e.encode() + rest,
{
    let t = e.encode() + rest;
    let lines = e.field_lines();
    let n = lines.len() as int;
    assert(t =~= lines + (seq!['\n'] + rest));
    lemma_first_character(e, seq!['\n'] + rest);
    lemma_nothing_to_skip(t);
    assert(t.subrange(0, n) =~= lines);
    lemma_lines_step(t, 0, e, EventView::empty(), Seq::empty());
    assert(overlay(EventView::empty(), e) == e);
    assert(t[n] == '\n');
    assert(after_terminator(t, 0) is None);
    assert(t.skip(n + 1) =~= rest);
}

/// Encoding an event that has only data gives `data:`, the data and two
/// line feeds.
pub proof fn law_data_only_encoding(s: Seq<char>)
    ensures
        (EventView { data: Some(s), ..EventView::empty() }).encode() == seq![
            'd',
            'a',
            't',
            'a',
            ':',
        ] + s + seq!['\n', '\n'],
{
    let e = EventView { data: Some(s), ..EventView::empty() };
    assert(e.encode() =~= seq!['d', 'a', 't', 'a', ':'] + s + seq!['\n', '\n']);
}

/// Every encoding ends with a blank line: the field lines, each one ended by
/// a line feed, and then one more line feed.
pub proof fn law_encoding_ends_with_blank_line(e: EventView)
    ensures
        e.encode().len() == e.field_lines().len() + 1,
        e.encode().last() == '\n',
        e.field_lines().len() > 0 ==> e.field_lines().last() == '\n',
        !e.has_field() ==> e.encode() == seq!['\n'],
{
    let none = Seq::<char>::empty();
    let l1 = field_line(none, e.comment);
    let l2 = field_line(name_event(), e.event);
    let l3 = field_line(name_id(), e.id);
    let l4 = field_line(name_retry(), e.retry);
    let l5 = field_line(name_data(), e.data);
    assert(e.field_lines() == l1 + l2 + l3 + l4 + l5);
    if l5.len() > 0 {
        assert(e.field_lines().last() == l5.last());
    } else if l4.len() > 0 {
        assert(e.field_lines().last() == l4.last());
    } else if l3.len() > 0 {
        assert(e.field_lines().last() == l3.last());
    } else if l2.len() > 0 {
        assert(e.field_lines().last() == l2.last());
    } else if l1.len() > 0 {
        assert(e.field_lines().last() == l1.last());
    }
    if !e.has_field() {
        assert(e.encode() =~= seq!['\n']);
    }
}

/// Round trip: parsing the encoding of an event whose values hold no line
/// break, and which has at least one field, gives the event back without a
/// diagnostic, and nothing is left for a second extraction.
pub proof fn law_round_trip(e: EventView)
    requires
        e.is_clean(),
        e.has_field(),
    ensures
        source_of(e.encode()) == e.encode(),
        parse_event(e.encode()).event == Some(e),
        parse_event(e.encode()).next == e.encode().len(),
        parse_event(e.encode()).diagnostics.len() == 0,
        e.encode().skip(parse_event(e.encode()).next).len() == 0,
        parse_event(e.encode().skip(parse_event(e.encode()).next)).event is None,
{
    lemma_parse_encoded(e, Seq::empty());
    assert(e.encode() + Seq::<char>::empty() =~= e.encode());
}

/// The encoding of an event without fields is a lone line feed, which a
/// parser takes for leading whitespace: nothing is left to read, and there
/// is no event.
pub proof fn law_event_without_fields(e: EventView)
    requires
        !e.has_field(),
    ensures
        e.encode() == seq!['\n'],
        source_of(e.encode()).len() == 0,
        parse_event(source_of(e.encode())).event is None,
{
    let t = e.encode();
    assert(t =~= seq!['\n']);
    assert(is_whitespace(t[0]));
    assert(skip_whitespace(t, 0) == 1) by {
        reveal_with_fuel(skip_whitespace, 2);
    }
}

/// What a parser leaves out at the start of a buffer is a byte-order mark
/// and whitespace only, and what it reads does not start with whitespace.
pub proof fn law_source_start(t: Seq<char>)
    ensures
        0 <= leading_len(t) <= t.len(),
        forall|j: int|
            0 <= j < leading_len(t) ==> is_whitespace(#[trigger] t[j]) || (j == 0 && is_bom(t[0])),
        source_of(t).len() > 0 ==> !is_whitespace(source_of(t)[0]),
{
    if t.len() > 0 && is_bom(t[0]) {
        lemma_skip_whitespace_bounds(t, 1);
    } else {
        lemma_skip_whitespace_bounds(t, 0);
    }
}

/// An empty buffer yields no event.
pub proof fn law_empty_buffer()
    ensures
        source_of(Seq::empty()) == Seq::<char>::empty(),
        parse_event(Seq::empty()).event is None,
        parse_event(Seq::empty()).next == 0,
        parse_event(Seq::empty()).diagnostics.len() == 0,
{
    lemma_nothing_to_skip(Seq::empty());
}

/// The encodings of the events, one after the other.
pub open spec fn encode_all(events: Seq<EventView>) -> Seq<char>
    decreases events.len(),
{
    if events.len() == 0 {
        Seq::empty()
    } else {
        events[0].encode() + encode_all(events.drop_first())
    }
}

/// The text that is left of `t` after `n` extractions.
pub open spec fn rest_after(t: Seq<char>, n: nat) -> Seq<char>
    decreases n,
{
    if n == 0 {
        t
    } else {
        rest_after(t.skip(parse_event(t).next), (n - 1) as nat)
    }
}

/// The outcome of the extraction that follows `n` earlier ones on `t`.
pub open spec fn nth_event(t: Seq<char>, n: nat) -> Option<EventView> {
    parse_event(rest_after(t, n)).event
}

/// True when each of the events has a field and no line break in a value.
pub open spec fn all_round_trip(events: Seq<EventView>) -> bool {
    forall|i: int| 0 <= i < events.len() ==> (#[trigger] events[i]).is_clean() && events[i].has_field()
}

/// After `k` extractions from the encodings of a sequence of events, the
/// encodings of the events from the `k`-th on are left.
proof fn lemma_rest_after_encoded(events: Seq<EventView>, k: nat)
    requires
        all_round_trip(events),
        k <= events.len(),
    ensures
        rest_after(encode_all(events), k) == encode_all(events.skip(k as int)),
    decreases k,
{
    if k == 0 {
        assert(events.skip(0) =~= events);
    } else {
        let tail = events.drop_first();
        assert(events[0].is_clean() && events[0].has_field());
        lemma_parse_encoded(events[0], encode_all(tail));
        assert forall|i: int| 0 <= i < tail.len() implies (#[trigger] tail[i]).is_clean()
            && tail[i].has_field() by {
            assert(tail[i] == events[i + 1]);
        }
        lemma_rest_after_encoded(tail, (k - 1) as nat);
        assert(tail.skip(k - 1) =~= events.skip(k as int));
    }
}

/// Sequential parsing: from the encodings of `n` events, each with a field
/// and without line breaks in its values, written one after the other, the
/// extractions yield the `n` events in their order, and the one after them
/// yields nothing. The parser reads such a buffer from its first character.
pub proof fn law_sequence(events: Seq<EventView>, k: nat)
    requires
        all_round_trip(events),
        k <= events.len(),
    ensures
        source_of(encode_all(events)) == encode_all(events),
        k < events.len() ==> nth_event(encode_all(events), k) == Some(events[k as int]),
        k == events.len() ==> nth_event(encode_all(events), k) is None,
        k == events.len() ==> rest_after(encode_all(events), k).len() == 0,
{
    lemma_rest_after_encoded(events, k);
    if events.len() > 0 {
        assert(events[0].is_clean() && events[0].has_field());
        lemma_parse_encoded(events[0], encode_all(events.drop_first()));
    } else {
        lemma_nothing_to_skip(encode_all(events));
    }
    let left = events.skip(k as int);
    if k < events.len() {
        assert(left[0] == events[k as int]);
        assert(left[0].is_clean() && left[0].has_field());
        lemma_parse_encoded(left[0], encode_all(left.drop_first()));
    } else {
        assert(left.len() == 0);
    }
}

/// Unknown fields are tolerated: a line with a name that is not recognised,
/// standing between the field lines of two clean events, is dropped with a
/// diagnostic that holds its name and value, and the extraction yields the
/// fields of both events, a later value replacing an earlier one.
pub proof fn law_unknown_field_dropped(
    before: EventView,
    name: Seq<char>,
    value: Seq<char>,
    after: EventView,
    rest: Seq<char>,
)
    requires
        before.is_clean(),
        after.is_clean(),
        is_plain_name(name),
        classify(name) is Unknown,
        is_clean_text(value),
    ensures
        parse_event(
            before.field_lines() + (name + seq![':'] + value + seq!['\n']) + after.field_lines()
                + seq!['\n'] + rest,
        ) == (Parsed {
            event: Some(overlay(before, after)),
            next: (before.field_lines().len() + name.len() + value.len()
                + after.field_lines().len() + 3) as int,
            diagnostics: seq![DiagnosticView::DroppedField { name, value }],
        }),
{
    let dropped = name + seq![':'] + value + seq!['\n'];
    let head = before.field_lines();
    let tail = after.field_lines();
    let t = head + dropped + tail + seq!['\n'] + rest;
    let end1 = head.len() as int;
    let end2 = end1 + dropped.len();
    let end3 = end2 + tail.len();
    let empty = EventView::empty();
    let none = Seq::<DiagnosticView>::empty();
    let one = seq![DiagnosticView::DroppedField { name, value }];
    lemma_three_parts(head, dropped, tail, rest);
    assert(finish(t, 0, empty, none) == finish(t, end1, before, none)) by {
        lemma_lines_step(t, 0, before, empty, none);
        assert(overlay(empty, before) == before);
    }
    assert(finish(t, end1, before, none) == finish(t, end2, before, one)) by {
        lemma_line_step(t, end1, name, value, before, none);
        assert(noted(none, classify(name), value, false) =~= one);
    }
    assert(finish(t, end2, before, one) == finish(t, end3, overlay(before, after), one)) by {
        lemma_lines_step(t, end2, after, before, one);
    }
    assert(!is_line_break(t[0])) by {
        if before.has_field() {
            lemma_first_character(before, Seq::empty());
            assert(head + Seq::<char>::empty() =~= head);
        } else {
            lemma_no_field_no_lines(before);
            assert(dropped[0] == if name.len() > 0 {
                name[0]
            } else {
                ':'
            });
        }
    }
}

/// Where the three parts of a text that ends in a line feed and a rest are
/// found in it.
proof fn lemma_three_parts(head: Seq<char>, middle: Seq<char>, tail: Seq<char>, rest: Seq<char>)
    requires
        middle.len() > 0,
    ensures
        ({
            let t = head + middle + tail + seq!['\n'] + rest;
            let end1 = head.len() as int;
            let end2 = end1 + middle.len();
            let end3 = end2 + tail.len();
            &&& t.len() == end3 + 1 + rest.len()
            &&& t.subrange(0, end1) == head
            &&& t.subrange(end1, end2) == middle
            &&& t.subrange(end2, end3) == tail
            &&& t[end3] == '\n'
            &&& t[0] == if head.len() > 0 {
                head[0]
            } else {
                middle[0]
            }
        }),
{
    let t = head + middle + tail + seq!['\n'] + rest;
    let end1 = head.len() as int;
    let end2 = end1 + middle.len();
    let end3 = end2 + tail.len();
    assert(t.subrange(0, end1) =~= head);
    assert(t.subrange(end1, end2) =~= middle);
    assert(t.subrange(end2, end3) =~= tail);
}

/// An event without fields has no field lines.
proof fn lemma_no_field_no_lines(e: EventView)
    requires
        !e.has_field(),
    ensures
        e.field_lines().len() == 0,
{
}

/// An extraction moves forward and stays within the text, and on a text
/// that is not empty it uses up at least one character.
pub proof fn law_progress(t: Seq<char>)
    ensures
        0 <= parse_event(t).next <= t.len(),
        t.len() > 0 ==> parse_event(t).next > 0,
{
    if t.len() > 0 {
        lemma_parse_fields_bounds(t, 0, EventView::empty(), Seq::empty());
    }
}

/// Reading field lines from index `i` ends after `i` and within the text.
proof fn lemma_parse_fields_bounds(
    t: Seq<char>,
    i: int,
    acc: EventView,
    notes: Seq<DiagnosticView>,
)
    requires
        0 <= i < t.len(),
    ensures
        i < parse_fields(t, i, acc, notes).next <= t.len(),
    decreases t.len() - i,
{
    lemma_find_colon_bounds(t, i);
    let colon = find_colon(t, i);
    if colon < t.len() {
        lemma_value_end_bounds(t, colon + 1, colon + 1);
        let stop = value_end(t, colon + 1, colon + 1);
        let after = past_terminator(t, stop);
        let kind = classify(t.subrange(i, colon));
        let value = t.subrange(colon + 1, stop);
        if after_terminator(t, after) is None {
            lemma_parse_fields_bounds(
                t,
                after,
                store(acc, kind, value),
                noted(notes, kind, value, stop >= t.len()),
            );
        }
    }
}

} // verus!

//! The incremental parser: a cursor over a borrowed buffer that yields one
//! event for each call.

use crate::diagnostic::{diagnostic_views, note, Diagnostic, DiagnosticView};
use crate::event::{EventView, ServerSentEvent};
use crate::grammar::{
    after_terminator, find_colon, is_whitespace_code, leading_len, lemma_find_colon_bounds,
    lemma_parse_fields_shift, lemma_value_end_bounds, noted, parse_event, parse_fields,
    past_terminator, skip_whitespace, source_of, store, value_end,
};
use crate::keyword::{classify, Keyword};
use crate::utf8::{
    byte_offset, char_width, lemma_delimiter_codes, lemma_encode_injective, lemma_encode_split,
    lemma_offset_ends, lemma_offset_is_boundary, lemma_offset_monotonic, lemma_scalar_at_offset,
    scalar_at, BACKSLASH, BYTE_ORDER_MARK, CARRIAGE_RETURN, COLON, LINE_FEED,
};
use std::borrow::Cow;
use vstd::prelude::*;
use vstd::utf8::*;

verus! {

/// Tells whether a code point is whitespace.
pub fn whitespace_code(v: u32) -> (r: bool)
    ensures
        r == is_whitespace_code(v),
{
    (0x09 <= v && v <= 0x0D) || v == 0x20 || v == 0x85 || v == 0xA0 || v == 0x1680 || (0x2000 <= v
        && v <= 0x200A) || v == 0x2028 || v == 0x2029 || v == 0x202F || v == 0x205F || v == 0x3000
}

/// A cursor over a text buffer. The buffer is never changed; the cursor
/// only moves forward.
pub struct Parser<'a> {
    orig: &'a str,
    idx: usize,
    pos: Ghost<int>,
}

impl<'a> Parser<'a> {
    /// The cursor sits on a character of the buffer or at its end, and the
    /// byte index is the offset of that character.
    #[verifier::type_invariant]
    spec fn inv(self) -> bool {
        &&& 0 <= self.pos@ <= self.orig@.len()
        &&& self.idx == byte_offset(self.orig@, self.pos@)
    }

    /// The text that is still to be read.
    pub closed spec fn remaining(&self) -> Seq<char> {
        self.orig@.skip(self.pos@)
    }

    /// A parser over `orig`. One leading byte-order mark and the whitespace
    /// after it are left out of what it reads.
    pub fn new(orig: &'a str) -> (p: Self)
        ensures
            p.remaining() == source_of(orig@),
    {
        let ghost text = orig@;
        let bytes = orig.as_bytes();
        let mut at: usize = 0;
        let ghost mut k: int = 0;
        proof {
            lemma_offset_ends(text);
        }
        if bytes.len() > 0 {
            proof {
                lemma_scalar_at_offset(text, 0);
                lemma_delimiter_codes(text[0]);
            }
            let (code, width) = scalar_at(bytes, 0);
            if code == BYTE_ORDER_MARK {
                at = width;
                proof {
                    k = 1;
                }
            }
        } else {
            assert(text.len() == 0) by {
                if text.len() > 0 {
                    lemma_offset_monotonic(text, 0, text.len() as int);
                }
            }
        }
        loop
            invariant
                bytes@ == encode_utf8(text),
                0 <= k <= text.len(),
                at == byte_offset(text, k),
                skip_whitespace(text, k) == leading_len(text),
            ensures
                k == leading_len(text),
            decreases text.len() - k,
        {
            proof {
                lemma_offset_ends(text);
                lemma_offset_monotonic(text, k, text.len() as int);
            }
            if at >= bytes.len() {
                break;
            }
            proof {
                lemma_scalar_at_offset(text, k);
            }
            let (code, width) = scalar_at(bytes, at);
            if !whitespace_code(code) {
                break;
            }
            at = at + width;
            proof {
                k = k + 1;
            }
        }
        proof {
            lemma_offset_is_boundary(text, k);
            lemma_encode_split(text, k);
        }
        let (_, rest) = orig.split_at(at);
        proof {
            lemma_encode_injective(rest@, text.skip(k));
            lemma_offset_ends(rest@);
            assert(rest@.skip(0) =~= rest@);
        }
        Parser { orig: rest, idx: 0, pos: Ghost(0) }
    }

    /// Extracts the next event. Field lines are read until a blank line or
    /// the end of the buffer closes the event; a line with an unknown name
    /// is dropped. At the end of the buffer, and where a line has no colon,
    /// there is no event, and in the latter case the rest of the buffer is
    /// used up. A value that the buffer cuts short runs to the end of the
    /// buffer, and the end of the buffer closes the event. The values of
    /// the event are slices of the buffer; nothing is copied.
    pub fn next_event(&mut self) -> (r: Option<ServerSentEvent<'a>>)
        ensures
            r is Some == parse_event(old(self).remaining()).event is Some,
            r matches Some(e) ==> parse_event(old(self).remaining()).event == Some(e@)
                && e.borrows(),
            final(self).remaining() == old(self).remaining().skip(
                parse_event(old(self).remaining()).next,
            ),
    {
        let mut notes: Vec<Diagnostic<'a>> = Vec::new();
        self.next_event_with_diagnostics(&mut notes)
    }

    /// Extracts the next event as `next_event` does, and adds to `notes`, in
    /// the order in which they were met, a diagnostic for each line that
    /// was dropped for its unknown name and for a value that ran to the end
    /// of the buffer with no line terminator after it.
    pub fn next_event_with_diagnostics(&mut self, notes: &mut Vec<Diagnostic<'a>>) -> (r: Option<
        ServerSentEvent<'a>,
    >)
        ensures
            r is Some == parse_event(old(self).remaining()).event is Some,
            r matches Some(e) ==> parse_event(old(self).remaining()).event == Some(e@)
                && e.borrows(),
            final(self).remaining() == old(self).remaining().skip(
                parse_event(old(self).remaining()).next,
            ),
            diagnostic_views(final(notes)@) == diagnostic_views(old(notes)@) + parse_event(
                old(self).remaining(),
            ).diagnostics,
    {
        let ghost text = self.orig@;
        let ghost from = self.pos@;
        let ghost source = self.remaining();
        let ghost base = diagnostic_views(notes@);
        let ghost mut seen: Seq<DiagnosticView> = Seq::empty();
        proof {
            use_type_invariant(&*self);
        }
        if self.at_end() {
            assert(source.skip(0) =~= source);
            assert(base + Seq::<DiagnosticView>::empty() =~= base);
            return None;
        }
        let mut pending = ServerSentEvent::default();
        proof {
            lemma_parse_fields_shift(text, from, 0, EventView::empty(), seen);
            assert(base + seen =~= base);
        }
        loop
            invariant_except_break
                parse_fields(text, self.pos@, pending@, seen).event == parse_event(source).event,
                parse_fields(text, self.pos@, pending@, seen).next == from + parse_event(
                    source,
                ).next,
                parse_fields(text, self.pos@, pending@, seen).diagnostics == parse_event(
                    source,
                ).diagnostics,
            invariant
                self.orig == old(self).orig,
                text == self.orig@,
                source == text.skip(from),
                source == old(self).remaining(),
                base == diagnostic_views(old(notes)@),
                diagnostic_views(notes@) == base + seen,
                0 <= from <= self.pos@ <= text.len(),
                pending.borrows(),
            ensures
                parse_event(source).event == Some(pending@),
                self.pos@ == from + parse_event(source).next,
                diagnostic_views(notes@) == base + parse_event(source).diagnostics,
            decreases text.len() - self.pos@,
        {
            let ghost line = self.pos@;
            let ghost before = pending@;
            let ghost colon = find_colon(text, line);
            let ghost stop = value_end(text, colon + 1, colon + 1);
            proof {
                lemma_find_colon_bounds(text, line);
                if colon < text.len() {
                    lemma_value_end_bounds(text, colon + 1, colon + 1);
                }
            }
            let ty = match self.eat_keyword() {
                Some(ty) => ty,
                None => {
                    assert(self.remaining() =~= source.skip(parse_event(source).next));
                    return None;
                },
            };
            proof {
                use_type_invariant(&*self);
            }
            let start = self.seek_next_new_line();
            proof {
                use_type_invariant(&*self);
            }
            let value = self.slice_backwards(start, Ghost(colon + 1));
            let unterminated = if self.at_end() {
                Some(ty.clone())
            } else {
                None
            };
            let ghost kind = ty@;
            match ty {
                Keyword::Data => {
                    pending.data = Some(value);
                },
                Keyword::Event => {
                    pending.event = Some(value);
                },
                Keyword::Id => {
                    pending.id = Some(value);
                },
                Keyword::Retry => {
                    pending.retry = Some(value);
                },
                Keyword::Comment => {
                    pending.comment = Some(value);
                },
                Keyword::Unknown(name) => {
                    note(notes, Diagnostic::DroppedField { name, value });
                },
            }
            if let Some(field) = unterminated {
                note(notes, Diagnostic::MissingTerminator { field });
            }
            proof {
                let text_value = text.subrange(colon + 1, stop);
                assert(kind == classify(text.subrange(line, colon)));
                assert(pending@ == store(before, kind, text_value));
                let after = noted(seen, kind, text_value, stop >= text.len());
                assert(diagnostic_views(notes@) =~= base + after);
                seen = after;
            }
            self.eat_new_line();
            if self.eat_new_line() {
                break;
            }
        }
        assert(self.remaining() =~= source.skip(parse_event(source).next));
        Some(pending)
    }

    /// The code point under the cursor and its width in bytes, or nothing at
    /// the end of the buffer.
    fn peek(&self) -> (r: Option<(u32, usize)>)
        ensures
            self.pos@ == self.orig@.len() <==> r is None,
            r matches Some(found) ==> {
                &&& found.0 == self.orig@[self.pos@] as u32
                &&& found.1 == char_width(self.orig@[self.pos@])
                &&& self.idx + found.1 == byte_offset(self.orig@, self.pos@ + 1)
                &&& self.idx + found.1 <= usize::MAX
            },
    {
        proof {
            use_type_invariant(self);
            lemma_offset_ends(self.orig@);
            lemma_offset_monotonic(self.orig@, self.pos@, self.orig@.len() as int);
            if self.pos@ < self.orig@.len() {
                lemma_scalar_at_offset(self.orig@, self.pos@);
            }
        }
        let bytes = self.orig.as_bytes();
        if self.idx >= bytes.len() {
            None
        } else {
            Some(scalar_at(bytes, self.idx))
        }
    }

    /// Tells whether the cursor has reached the end of the buffer.
    fn at_end(&self) -> (r: bool)
        ensures
            r == (self.remaining().len() == 0),
            r == (self.pos@ == self.orig@.len()),
    {
        proof {
            use_type_invariant(self);
        }
        self.peek().is_none()
    }

    /// Moves the cursor past the character under it and gives that
    /// character's code point, or does nothing at the end of the buffer.
    fn next_char(&mut self) -> (r: Option<u32>)
        ensures
            final(self).orig == old(self).orig,
            old(self).pos@ == old(self).orig@.len() ==> r is None && final(self).pos@ == old(
                self,
            ).pos@,
            old(self).pos@ < old(self).orig@.len() ==> r == Some(
                old(self).orig@[old(self).pos@] as u32,
            ) && final(self).pos@ == old(self).pos@ + 1,
    {
        proof {
            use_type_invariant(&*self);
        }
        match self.peek() {
            Some((code, width)) => {
                *self = Parser { orig: self.orig, idx: self.idx + width, pos: Ghost(self.pos@ + 1) };
                Some(code)
            },
            None => None,
        }
    }

    /// The text between the byte offset `start`, which is that of the
    /// character at index `from`, and the cursor.
    fn slice_backwards(&self, start: usize, Ghost(from): Ghost<int>) -> (r: Cow<'a, str>)
        requires
            0 <= from <= self.pos@,
            start == byte_offset(self.orig@, from),
        ensures
            r@ == self.orig@.subrange(from, self.pos@),
            r is Borrowed,
    {
        let ghost text = self.orig@;
        let ghost pos = self.pos@;
        proof {
            use_type_invariant(self);
            lemma_offset_is_boundary(text, pos);
            lemma_encode_split(text, pos);
        }
        let (head, _) = self.orig.split_at(self.idx);
        proof {
            lemma_encode_injective(head@, text.take(pos));
            assert(head@.take(from) =~= text.take(from));
            lemma_offset_is_boundary(head@, from);
            lemma_encode_split(head@, from);
        }
        let (_, tail) = head.split_at(start);
        proof {
            lemma_encode_injective(tail@, head@.skip(from));
            assert(head@.skip(from) =~= text.subrange(from, pos));
        }
        Cow::Borrowed(tail)
    }

    /// Moves the cursor to the end of the value that begins under it and
    /// gives the byte offset at which the value began.
    fn seek_next_new_line(&mut self) -> (start: usize)
        ensures
            final(self).orig == old(self).orig,
            start == old(self).idx,
            final(self).pos@ == value_end(old(self).orig@, old(self).pos@, old(self).pos@),
    {
        let ghost text = self.orig@;
        let ghost from = self.pos@;
        let mut last_char_was_escape = false;
        let start = self.idx;
        proof {
            use_type_invariant(&*self);
        }
        loop
            invariant
                self.orig == old(self).orig,
                start == old(self).idx,
                text == self.orig@,
                from == old(self).pos@,
                from <= self.pos@ <= text.len(),
                value_end(text, from, from) == value_end(text, from, self.pos@),
                last_char_was_escape == (from < self.pos@ && text[self.pos@ - 1] == '\\'),
            decreases text.len() - self.pos@,
        {
            proof {
                use_type_invariant(&*self);
                if self.pos@ < text.len() {
                    lemma_delimiter_codes(text[self.pos@]);
                }
            }
            match self.peek() {
                Some((code, _)) => {
                    if code == LINE_FEED || (code == CARRIAGE_RETURN && !last_char_was_escape) {
                        return start;
                    }
                    last_char_was_escape = code == BACKSLASH;
                    self.next_char();
                },
                None => {
                    return start;
                },
            }
        }
    }

    /// Reads the field name under the cursor up to its colon, moves the
    /// cursor past the colon and classifies the name. Where no colon
    /// follows, the cursor moves to the end of the buffer.
    fn eat_keyword(&mut self) -> (r: Option<Keyword<'a>>)
        ensures
            final(self).orig == old(self).orig,
            find_colon(old(self).orig@, old(self).pos@) < old(self).orig@.len() ==> {
                &&& r is Some
                &&& r->0@ == classify(
                    old(self).orig@.subrange(
                        old(self).pos@,
                        find_colon(old(self).orig@, old(self).pos@),
                    ),
                )
                &&& final(self).pos@ == find_colon(old(self).orig@, old(self).pos@) + 1
            },
            find_colon(old(self).orig@, old(self).pos@) >= old(self).orig@.len() ==> {
                &&& r is None
                &&& final(self).pos@ == old(self).orig@.len()
            },
    {
        let ghost text = self.orig@;
        let ghost from = self.pos@;
        let start = self.idx;
        proof {
            use_type_invariant(&*self);
        }
        loop
            invariant
                self.orig == old(self).orig,
                text == self.orig@,
                from == old(self).pos@,
                start == byte_offset(text, from),
                0 <= from <= self.pos@ <= text.len(),
                find_colon(text, from) == find_colon(text, self.pos@),
            decreases text.len() - self.pos@,
        {
            proof {
                use_type_invariant(&*self);
                if self.pos@ < text.len() {
                    lemma_delimiter_codes(text[self.pos@]);
                }
            }
            match self.peek() {
                Some((code, _)) => {
                    if code == COLON {
                        let name = self.slice_backwards(start, Ghost(from));
                        self.next_char();
                        return Some(Keyword::from(name));
                    }
                    self.next_char();
                },
                None => {
                    return None;
                },
            }
        }
    }

    /// Consumes one line terminator under the cursor, if there is one, and
    /// tells whether it did. The end of the buffer counts as a terminator.
    fn eat_new_line(&mut self) -> (r: bool)
        ensures
            final(self).orig == old(self).orig,
            r == after_terminator(old(self).orig@, old(self).pos@) is Some,
            final(self).pos@ == past_terminator(old(self).orig@, old(self).pos@),
    {
        proof {
            use_type_invariant(&*self);
            if self.pos@ < self.orig@.len() {
                lemma_delimiter_codes(self.orig@[self.pos@]);
            }
            if self.pos@ + 1 < self.orig@.len() {
                lemma_delimiter_codes(self.orig@[self.pos@ + 1]);
            }
        }
        match self.peek() {
            Some((code, _)) => {
                if code == CARRIAGE_RETURN {
                    self.next_char();
                    if let Some((LINE_FEED, _)) = self.peek() {
                        self.next_char();
                    }
                    true
                } else if code == LINE_FEED {
                    self.next_char();
                    true
                } else {
                    false
                }
            },
            None => true,
        }
    }
}

} // verus!

use mousse::diagnostic::note;
use mousse::{Diagnostic, Keyword, Parser, ServerSentEvent};
use std::borrow::Cow;

#[test]
fn builder_without_repeats_leaves_no_diagnostic() {
    let (ev, notes) = ServerSentEvent::builder()
        .comment("c")
        .event("e")
        .id("i")
        .data("d")
        .retry("r")
        .build_with_diagnostics();
    assert_eq!(ev.to_string(), ":c\nevent:e\nid:i\nretry:r\ndata:d\n\n");
    assert!(notes.is_empty());
}

#[test]
fn builder_notes_each_overwrite_in_order() {
    let (ev, notes) = ServerSentEvent::builder()
        .data("d1")
        .id("i1")
        .data("d2")
        .comment("c1")
        .event("e1")
        .retry("r1")
        .retry("r2")
        .event("e2")
        .comment("c2")
        .id("i2")
        .data("d3")
        .build_with_diagnostics();
    assert_eq!(ev.to_string(), ":c2\nevent:e2\nid:i2\nretry:r2\ndata:d3\n\n");
    let expected = vec![
        Diagnostic::Overwritten {
            field: Keyword::Data,
            previous: Cow::Borrowed("d1"),
            replacement: Cow::Borrowed("d2"),
        },
        Diagnostic::Overwritten {
            field: Keyword::Retry,
            previous: Cow::Borrowed("r1"),
            replacement: Cow::Borrowed("r2"),
        },
        Diagnostic::Overwritten {
            field: Keyword::Event,
            previous: Cow::Borrowed("e1"),
            replacement: Cow::Borrowed("e2"),
        },
        Diagnostic::Overwritten {
            field: Keyword::Comment,
            previous: Cow::Borrowed("c1"),
            replacement: Cow::Borrowed("c2"),
        },
        Diagnostic::Overwritten {
            field: Keyword::Id,
            previous: Cow::Borrowed("i1"),
            replacement: Cow::Borrowed("i2"),
        },
        Diagnostic::Overwritten {
            field: Keyword::Data,
            previous: Cow::Borrowed("d2"),
            replacement: Cow::Borrowed("d3"),
        },
    ];
    assert_eq!(notes, expected);
}

#[test]
fn setting_the_same_value_again_is_an_overwrite() {
    let (_, notes) = ServerSentEvent::builder()
        .data("")
        .data("")
        .build_with_diagnostics();
    assert_eq!(
        notes,
        vec![Diagnostic::Overwritten {
            field: Keyword::Data,
            previous: Cow::Borrowed(""),
            replacement: Cow::Borrowed(""),
        }]
    );
}

#[test]
fn parser_notes_a_dropped_field() {
    let mut parser = Parser::new("data:d\nunknown-field:this will get dropped, hopefully\nid:1\n\n");
    let mut notes = Vec::new();
    let ev = parser.next_event_with_diagnostics(&mut notes);
    assert_eq!(ev, Some(ServerSentEvent::builder().data("d").id("1").build()));
    assert_eq!(
        notes,
        vec![Diagnostic::DroppedField {
            name: Cow::Borrowed("unknown-field"),
            value: Cow::Borrowed("this will get dropped, hopefully"),
        }]
    );
    assert_eq!(parser.next_event_with_diagnostics(&mut notes), None);
    assert_eq!(notes.len(), 1);
}

#[test]
fn parser_notes_a_missing_terminator() {
    let mut parser = Parser::new("event:e\ndata:abc");
    let mut notes = Vec::new();
    let ev = parser.next_event_with_diagnostics(&mut notes);
    assert_eq!(ev, Some(ServerSentEvent::builder().event("e").data("abc").build()));
    assert_eq!(notes, vec![Diagnostic::MissingTerminator { field: Keyword::Data }]);
}

#[test]
fn parser_notes_a_dropped_field_that_is_cut_short() {
    let mut parser = Parser::new("foo:bar");
    let mut notes = Vec::new();
    let ev = parser.next_event_with_diagnostics(&mut notes);
    assert_eq!(ev, Some(ServerSentEvent::default()));
    assert_eq!(
        notes,
        vec![
            Diagnostic::DroppedField {
                name: Cow::Borrowed("foo"),
                value: Cow::Borrowed("bar"),
            },
            Diagnostic::MissingTerminator {
                field: Keyword::Unknown(Cow::Borrowed("foo")),
            },
        ]
    );
}

#[test]
fn parser_keeps_diagnostics_of_an_event_that_it_drops() {
    let mut parser = Parser::new("foo:bar\nno colon");
    let mut notes = Vec::new();
    assert_eq!(parser.next_event_with_diagnostics(&mut notes), None);
    assert_eq!(
        notes,
        vec![Diagnostic::DroppedField {
            name: Cow::Borrowed("foo"),
            value: Cow::Borrowed("bar"),
        }]
    );
}

#[test]
fn parser_adds_to_the_diagnostics_it_is_given() {
    let mut notes = vec![Diagnostic::MissingTerminator { field: Keyword::Id }];
    let mut parser = Parser::new("a:1\n\nb:2\n\n");
    assert_eq!(
        parser.next_event_with_diagnostics(&mut notes),
        Some(ServerSentEvent::default())
    );
    assert_eq!(
        parser.next_event_with_diagnostics(&mut notes),
        Some(ServerSentEvent::default())
    );
    assert_eq!(
        notes,
        vec![
            Diagnostic::MissingTerminator { field: Keyword::Id },
            Diagnostic::DroppedField {
                name: Cow::Borrowed("a"),
                value: Cow::Borrowed("1"),
            },
            Diagnostic::DroppedField {
                name: Cow::Borrowed("b"),
                value: Cow::Borrowed("2"),
            },
        ]
    );
}

#[test]
fn terminated_values_leave_no_diagnostic() {
    for buffer in ["data:x\n", "data:x\r", "data:x\r\n", "data:x\n\n", ":c\nid:1\n\n"] {
        let mut parser = Parser::new(buffer);
        let mut notes = Vec::new();
        assert!(parser.next_event_with_diagnostics(&mut notes).is_some());
        assert!(notes.is_empty());
    }
}

#[test]
fn round_trip_leaves_no_diagnostic() {
    let ev = ServerSentEvent::builder()
        .data("d")
        .event("e")
        .retry("4000")
        .id(" 1")
        .comment("c")
        .build();
    let encoded = ev.to_string();
    let mut parser = Parser::new(&encoded);
    let mut notes = Vec::new();
    assert_eq!(parser.next_event_with_diagnostics(&mut notes), Some(ev.clone()));
    assert_eq!(parser.next_event_with_diagnostics(&mut notes), None);
    assert!(notes.is_empty());
}

#[test]
fn empty_buffer_leaves_no_diagnostic() {
    let mut parser = Parser::new("");
    let mut notes = Vec::new();
    assert_eq!(parser.next_event_with_diagnostics(&mut notes), None);
    assert!(notes.is_empty());
}

#[test]
fn note_appends() {
    let mut notes = Vec::new();
    note(&mut notes, Diagnostic::MissingTerminator { field: Keyword::Data });
    note(
        &mut notes,
        Diagnostic::DroppedField {
            name: Cow::Borrowed("n"),
            value: Cow::Borrowed("v"),
        },
    );
    assert_eq!(notes.len(), 2);
    assert_eq!(notes[0], Diagnostic::MissingTerminator { field: Keyword::Data });
}

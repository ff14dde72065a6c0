use mousse::event::{as_text, copy_text};
use mousse::ServerSentEvent;
use mousse::utf8::{same_text, scalar_at};
use std::borrow::Cow;

#[test]
fn data_only_encoded_samples() {
    for s in ["", "x", "hello world", "a:b", "caf\u{e9}", " \t "] {
        let ev = ServerSentEvent::builder().data(s).build();
        assert_eq!(ev.to_string(), format!("data:{}\n\n", s));
    }
}

#[test]
fn fields_are_encoded_in_fixed_order() {
    let ev = ServerSentEvent::builder()
        .data("d")
        .retry("r")
        .id("i")
        .event("e")
        .comment("c")
        .build();
    assert_eq!(ev.to_string(), ":c\nevent:e\nid:i\nretry:r\ndata:d\n\n");
}

#[test]
fn each_field_encodes_to_its_own_line() {
    assert_eq!(ServerSentEvent::builder().comment("c").build().to_string(), ":c\n\n");
    assert_eq!(ServerSentEvent::builder().event("e").build().to_string(), "event:e\n\n");
    assert_eq!(ServerSentEvent::builder().id("i").build().to_string(), "id:i\n\n");
    assert_eq!(ServerSentEvent::builder().retry("r").build().to_string(), "retry:r\n\n");
    assert_eq!(ServerSentEvent::builder().data("d").build().to_string(), "data:d\n\n");
}

#[test]
fn event_without_fields_encodes_to_a_blank_line() {
    assert_eq!(ServerSentEvent::builder().build().to_string(), "\n");
    assert_eq!(ServerSentEvent::default().to_string(), "\n");
}

#[test]
fn empty_values_are_encoded() {
    let ev = ServerSentEvent::builder().comment("").data("").build();
    assert_eq!(ev.to_string(), ":\ndata:\n\n");
}

#[test]
fn builder_starts_without_fields() {
    let ev = ServerSentEvent::builder().build();
    assert_eq!(ev.comment, None);
    assert_eq!(ev.event, None);
    assert_eq!(ev.id, None);
    assert_eq!(ev.data, None);
    assert_eq!(ev.retry, None);
    assert_eq!(ev, ServerSentEvent::default());
}

#[test]
fn builder_sets_each_field() {
    let ev = ServerSentEvent::builder()
        .comment("c")
        .event("e")
        .id("i")
        .data("d")
        .retry("r")
        .build();
    assert_eq!(ev.comment.unwrap(), "c");
    assert_eq!(ev.event.unwrap(), "e");
    assert_eq!(ev.id.unwrap(), "i");
    assert_eq!(ev.data.unwrap(), "d");
    assert_eq!(ev.retry.unwrap(), "r");
}

#[test]
fn builder_overwrites_a_field_set_twice() {
    let ev = ServerSentEvent::builder()
        .comment("c1")
        .event("e1")
        .id("i1")
        .data("d1")
        .retry("r1")
        .comment("c2")
        .event("e2")
        .id("i2")
        .data("d2")
        .retry("r2")
        .build();
    assert_eq!(ev.to_string(), ":c2\nevent:e2\nid:i2\nretry:r2\ndata:d2\n\n");
}

#[test]
fn cloned_owns_its_text() {
    let owned: ServerSentEvent<'static> = {
        let buffer = String::from("some data");
        let ev = ServerSentEvent::builder().data(&buffer).id("9").build();
        ev.cloned()
    };
    assert_eq!(owned.data, Some(Cow::Borrowed("some data")));
    assert!(matches!(owned.data, Some(Cow::Owned(_))));
    assert!(matches!(owned.id, Some(Cow::Owned(_))));
    assert_eq!(owned.id.unwrap(), "9");
    assert_eq!(owned.comment, None);
    assert_eq!(owned.event, None);
    assert_eq!(owned.retry, None);
}

#[test]
fn clone_equals_the_original() {
    let ev = ServerSentEvent::builder().data("d").comment("c").build();
    let copy = ev.clone();
    assert_eq!(ev, copy);
    assert!(matches!(copy.data, Some(Cow::Borrowed("d"))));
    let owned = ev.cloned();
    assert_eq!(owned.clone(), ev);
}

#[test]
fn events_are_equal_when_their_fields_are() {
    let a = ServerSentEvent::builder().data("d").build();
    let b = ServerSentEvent::builder().data("d").build();
    let c = ServerSentEvent::builder().data("e").build();
    let d = ServerSentEvent::builder().id("d").build();
    assert_eq!(a, b);
    assert_ne!(a, c);
    assert_ne!(a, d);
    assert_eq!(a, a.cloned());
}

#[test]
fn text_helpers() {
    let borrowed: Cow<str> = Cow::Borrowed("abc");
    let owned: Cow<str> = Cow::Owned(String::from("xyz"));
    assert_eq!(as_text(&borrowed), "abc");
    assert_eq!(as_text(&owned), "xyz");
    assert!(matches!(copy_text(&borrowed), Cow::Borrowed("abc")));
    assert!(matches!(copy_text(&owned), Cow::Owned(_)));
    assert_eq!(copy_text(&owned), "xyz");
}

#[test]
fn same_text_compares_contents() {
    assert!(same_text("", ""));
    assert!(same_text("data", "data"));
    assert!(!same_text("data", "date"));
    assert!(!same_text("data", "dat"));
    assert!(!same_text("", "x"));
    assert!(same_text("caf\u{e9}", &String::from("caf\u{e9}")));
}

#[test]
fn scalar_at_decodes_each_width() {
    let text = "a\u{e9}\u{4e16}\u{1F600}:";
    let bytes = text.as_bytes();
    assert_eq!(scalar_at(bytes, 0), (0x61, 1));
    assert_eq!(scalar_at(bytes, 1), (0xE9, 2));
    assert_eq!(scalar_at(bytes, 3), (0x4E16, 3));
    assert_eq!(scalar_at(bytes, 6), (0x1F600, 4));
    assert_eq!(scalar_at(bytes, 10), (0x3A, 1));
}

#[test]
fn scalar_at_decodes_the_ends_of_each_range() {
    for c in [
        '\u{0}', '\u{7f}', '\u{80}', '\u{7ff}', '\u{800}', '\u{d7ff}', '\u{e000}', '\u{ffff}',
        '\u{10000}', '\u{10ffff}', '\u{feff}',
    ] {
        let mut buffer = [0u8; 4];
        let encoded = c.encode_utf8(&mut buffer);
        let width = encoded.len();
        assert_eq!(scalar_at(encoded.as_bytes(), 0), (c as u32, width));
    }
}

#[test]
fn equality_looks_at_the_text_not_at_who_holds_it() {
    let borrowed = ServerSentEvent::builder().data("d").id("1").build();
    let mut owned = ServerSentEvent::default();
    owned.data = Some(Cow::Owned(String::from("d")));
    owned.id = Some(Cow::Owned(String::from("1")));
    assert!(borrowed == owned);
    assert!(!(borrowed != owned));
    owned.id = None;
    assert!(borrowed != owned);
    owned.id = Some(Cow::Borrowed("2"));
    assert!(borrowed != owned);
    owned.id = Some(Cow::Borrowed("1"));
    owned.comment = Some(Cow::Borrowed(""));
    assert!(borrowed != owned);
}

#[test]
fn equality_tells_each_field_apart() {
    let base = ServerSentEvent::builder()
        .comment("c")
        .event("e")
        .id("i")
        .data("d")
        .retry("r")
        .build();
    assert_eq!(base, base.clone());
    let mut other = base.clone();
    other.comment = Some(Cow::Borrowed("x"));
    assert_ne!(base, other);
    let mut other = base.clone();
    other.event = Some(Cow::Borrowed("x"));
    assert_ne!(base, other);
    let mut other = base.clone();
    other.id = Some(Cow::Borrowed("x"));
    assert_ne!(base, other);
    let mut other = base.clone();
    other.data = Some(Cow::Borrowed("x"));
    assert_ne!(base, other);
    let mut other = base.clone();
    other.retry = Some(Cow::Borrowed("x"));
    assert_ne!(base, other);
}

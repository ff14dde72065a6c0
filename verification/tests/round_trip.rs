use mousse::ServerSentEvent;
use mousse::Parser;

fn data_only_round_trip(s: &str) {
    let ev = ServerSentEvent::builder().data(s).build();
    let encoded = ev.to_string();
    let mut parser = Parser::new(&encoded);
    let ev2 = parser.next_event().unwrap();
    assert_eq!(parser.next_event(), None);
    assert_eq!(ev, ev2);
}

fn data_event_round_trip(data: &str, event: &str) {
    let ev = ServerSentEvent::builder().data(data).event(event).build();
    let encoded = ev.to_string();
    let mut parser = Parser::new(&encoded);
    let ev2 = parser.next_event().unwrap();
    assert_eq!(parser.next_event(), None);
    assert_eq!(ev, ev2);
}

fn data_event_retry_round_trip(data: &str, event: &str, retry: &str) {
    let ev = ServerSentEvent::builder()
        .data(data)
        .event(event)
        .retry(retry)
        .build();
    let encoded = ev.to_string();
    let mut parser = Parser::new(&encoded);
    let ev2 = parser.next_event().unwrap();
    assert_eq!(parser.next_event(), None);
    assert_eq!(ev, ev2);
}

fn data_event_retry_id_round_trip(data: &str, event: &str, retry: &str, id: &str) {
    let ev = ServerSentEvent::builder()
        .data(data)
        .event(event)
        .retry(retry)
        .id(id)
        .build();
    let encoded = ev.to_string();
    let mut parser = Parser::new(&encoded);
    let ev2 = parser.next_event().unwrap();
    assert_eq!(parser.next_event(), None);
    assert_eq!(ev, ev2);
}

fn all_round_trip(data: &str, event: &str, retry: &str, id: &str, comment: &str) {
    let ev = ServerSentEvent::builder()
        .data(data)
        .event(event)
        .retry(retry)
        .id(id)
        .comment(comment)
        .build();
    let encoded = ev.to_string();
    let mut parser = Parser::new(&encoded);
    let ev2 = parser.next_event().unwrap();
    assert_eq!(parser.next_event(), None);
    assert_eq!(ev, ev2);
}

const SAMPLES: [&str; 9] = [
    "",
    "a",
    "plain text",
    " leading and trailing ",
    "with:colons::inside",
    "back\\slash",
    "\u{FEFF}bom inside",
    "caf\u{e9} \u{4e16}\u{754c} \u{1F600}",
    "\t\u{3000}\u{a0}",
];

#[test]
fn data_only_round_trip_empty() {
    data_only_round_trip("");
}

#[test]
fn data_only_round_trip_samples() {
    for s in SAMPLES {
        data_only_round_trip(s);
    }
}

#[test]
fn data_event_round_trip_samples() {
    for a in SAMPLES {
        for b in SAMPLES {
            data_event_round_trip(a, b);
        }
    }
}

#[test]
fn data_event_retry_round_trip_samples() {
    for a in SAMPLES {
        for b in SAMPLES {
            data_event_retry_round_trip(a, b, "4000");
            data_event_retry_round_trip("x", a, b);
        }
    }
}

#[test]
fn data_event_retry_id_round_trip_samples() {
    for a in SAMPLES {
        for b in SAMPLES {
            data_event_retry_id_round_trip(a, "message", "15", b);
        }
    }
}

#[test]
fn all_round_trip_samples() {
    for a in SAMPLES {
        for b in SAMPLES {
            all_round_trip(a, b, a, b, a);
            all_round_trip("d", "e", "r", a, b);
        }
    }
}

#[test]
fn single_field_round_trips() {
    for s in SAMPLES {
        let events = [
            ServerSentEvent::builder().comment(s).build(),
            ServerSentEvent::builder().event(s).build(),
            ServerSentEvent::builder().id(s).build(),
            ServerSentEvent::builder().retry(s).build(),
        ];
        for ev in events {
            let encoded = ev.to_string();
            let mut parser = Parser::new(&encoded);
            assert_eq!(parser.next_event(), Some(ev.clone()));
            assert_eq!(parser.next_event(), None);
        }
    }
}

#[test]
fn event_without_fields_does_not_round_trip() {
    let ev = ServerSentEvent::builder().build();
    let encoded = ev.to_string();
    assert_eq!(encoded, "\n");
    let mut parser = Parser::new(&encoded);
    assert_eq!(parser.next_event(), None);
}

#[test]
fn concatenated_events_come_back_in_order() {
    let first = ServerSentEvent::builder().data("one").id("1").build();
    let second = ServerSentEvent::builder().comment("two").build();
    let third = ServerSentEvent::builder()
        .event("three")
        .retry("30")
        .data("3: \u{2603}")
        .build();
    let buffer = format!(
        "{}{}{}",
        first.to_string(),
        second.to_string(),
        third.to_string()
    );
    let mut parser = Parser::new(&buffer);
    assert_eq!(parser.next_event(), Some(first));
    assert_eq!(parser.next_event(), Some(second));
    assert_eq!(parser.next_event(), Some(third));
    assert_eq!(parser.next_event(), None);
    assert_eq!(parser.next_event(), None);
}

#[test]
fn many_concatenated_events() {
    let texts: Vec<String> = (0..50).map(|i| format!("{}: Hi I am a data field", i)).collect();
    let ids: Vec<String> = (0..50).map(|i| format!("{}", i)).collect();
    let mut buffer = String::new();
    for i in 0..50 {
        let ev = ServerSentEvent::builder().data(&texts[i]).id(&ids[i]).build();
        buffer.push_str(&ev.to_string());
    }
    let mut parser = Parser::new(&buffer);
    for i in 0..50 {
        let ev = parser.next_event().unwrap();
        assert_eq!(ev.data.unwrap(), texts[i].as_str());
        assert_eq!(ev.id.unwrap(), ids[i].as_str());
        assert_eq!(ev.event, None);
        assert_eq!(ev.comment, None);
        assert_eq!(ev.retry, None);
    }
    assert_eq!(parser.next_event(), None);
}

use amhs_probe::event::{MoveEventType, OhtMoveEvent};
use amhs_probe::parser::{
    events_from_lines, extract_move_event, looks_like_xml, parse_timestamp, scan_text_line, sorted_events,
    EventData, TextDumpEvents,
    MovePatterns, StreamParser, XmlAction, XmlEventCollector, XmlItem,
};

fn patterns() -> MovePatterns {
    MovePatterns::compile().expect("the expressions compile")
}

fn data(oht: Option<&str>, from: Option<&str>, to: Option<&str>, ts: Option<&str>, status: Option<&str>) -> EventData {
    EventData {
        oht_id: oht.map(|s| s.to_string()),
        from_node: from.map(|s| s.to_string()),
        to_node: to.map(|s| s.to_string()),
        timestamp: ts.map(|s| s.to_string()),
        status: status.map(|s| s.to_string()),
    }
}

#[test]
fn parse_timestamp_formats() {
    assert_eq!(parse_timestamp("2024-01-15 10:30:00.123"), 1705314600123);
    assert_eq!(parse_timestamp("2024-01-15T10:30:00.123"), 1705314600123);
    assert_eq!(parse_timestamp("2024/01/15 10:30:00"), 1705314600000);
    assert_eq!(parse_timestamp("2024-01-15 10:30:00"), 1705314600000);
}

#[test]
fn parse_timestamp_falls_back_to_millis_then_zero() {
    assert_eq!(parse_timestamp("12345"), 12345);
    assert_eq!(parse_timestamp("-7"), -7);
    assert_eq!(parse_timestamp("abc"), 0);
    assert_eq!(parse_timestamp(""), 0);
}

#[test]
fn into_event_builds_a_blocked_event() {
    let e = data(Some("V1"), Some("A"), Some("B"), Some("2024-01-15T10:30:00.123"), Some("Waiting"))
        .into_event()
        .expect("an event");
    assert_eq!(e.oht_id, "V1");
    assert_eq!(e.from_node, "A");
    assert_eq!(e.to_node, "B");
    assert_eq!(e.timestamp, 1705314600123);
    assert_eq!(e.event_type, MoveEventType::Blocked);
    assert_eq!(e.duration_ms, 0);
}

#[test]
fn into_event_status_words() {
    let kind = |s: Option<&str>| data(Some("V"), Some("A"), Some("B"), None, s).into_event().unwrap().event_type;
    assert_eq!(kind(Some("BLOCKED")), MoveEventType::Blocked);
    assert_eq!(kind(Some("depart")), MoveEventType::Depart);
    assert_eq!(kind(Some("Arrive")), MoveEventType::Arrive);
    assert_eq!(kind(Some("EStop")), MoveEventType::EmergencyStop);
    assert_eq!(kind(Some("emergency")), MoveEventType::EmergencyStop);
    assert_eq!(kind(Some("moving")), MoveEventType::PassThrough);
    assert_eq!(kind(None), MoveEventType::PassThrough);
}

#[test]
fn into_event_needs_vehicle_and_nodes() {
    assert!(data(None, Some("A"), Some("B"), None, None).into_event().is_none());
    assert!(data(Some("V"), None, Some("B"), None, None).into_event().is_none());
    assert!(data(Some("V"), Some("A"), None, None, None).into_event().is_none());
    let e = data(Some("V"), Some("A"), Some("B"), Some("12345"), None).into_event().unwrap();
    assert_eq!(e.timestamp, 12345);
    let e = EventData::default();
    assert!(e.into_event().is_none());
}

#[test]
fn extract_move_event_reads_groups_and_time() {
    let p = patterns();
    let e = extract_move_event(
        "2024-01-15 10:30:00 S6F11 OHT-V001 MOVE FROM NODE:A-1 TO NODE:A-2 BLOCKED",
        &p.oht,
        &p.timestamp,
    )
    .expect("an event");
    assert_eq!(e.oht_id, "V001");
    assert_eq!(e.from_node, "A-1");
    assert_eq!(e.to_node, "A-2");
    assert_eq!(e.timestamp, 1705314600000);
    assert_eq!(e.event_type, MoveEventType::Blocked);
}

#[test]
fn extract_move_event_without_time_or_match() {
    let p = patterns();
    let e = extract_move_event("oht_7 depart from = X1 to = Y1", &p.oht, &p.timestamp).expect("an event");
    assert_eq!(e.oht_id, "7");
    assert_eq!(e.from_node, "X1");
    assert_eq!(e.to_node, "Y1");
    assert_eq!(e.timestamp, 0);
    assert_eq!(e.event_type, MoveEventType::Depart);
    assert!(extract_move_event("OHT-V1 MOVE FROM:A TO:B", &p.oht, &p.timestamp).is_none());
}

#[test]
fn scan_text_line_needs_a_message_header() {
    let p = patterns();
    let with = scan_text_line("S6F11 OHT-V1 TRANSIT FROM NODE=A TO NODE=B", &p).expect("an event");
    assert_eq!(with.oht_id, "V1");
    assert_eq!(with.event_type, MoveEventType::PassThrough);
    assert!(scan_text_line("OHT-V1 TRANSIT FROM NODE=A TO NODE=B", &p).is_none());
}

#[test]
fn looks_like_xml_after_white_space() {
    assert!(looks_like_xml("  \n<?xml version=\"1.0\"?>"));
    assert!(looks_like_xml("<root/>"));
    assert!(looks_like_xml("\u{3000}<a>"));
    assert!(!looks_like_xml("S6F11 OHT"));
    assert!(!looks_like_xml(""));
    assert!(!looks_like_xml("   "));
    assert!(!looks_like_xml("x<a>"));
}

#[test]
fn text_chunk_ranges_split_evenly() {
    let p = StreamParser::new(std::path::PathBuf::from("dump.log"), 4, 1);
    assert_eq!(p.chunk_size(), 1048576);
    assert_eq!(p.num_threads(), 4);
    assert_eq!(p.file_path(), &std::path::PathBuf::from("dump.log"));
    assert_eq!(p.text_chunk_ranges(10), vec![(0, 2), (2, 4), (4, 6), (6, 10)]);
}

#[test]
fn text_chunk_ranges_of_a_large_file() {
    let p = StreamParser::new(std::path::PathBuf::from("dump.log"), 2, 1);
    // 3 MiB + 5 bytes: four chunks of a quarter each; two readers
    let size = 3 * 1048576 + 5;
    let len = size / 4;
    assert_eq!(p.text_chunk_ranges(size), vec![(0, len), (len, size)]);
}

fn ev(oht: &str, ts: i64) -> OhtMoveEvent {
    OhtMoveEvent {
        timestamp: ts,
        oht_id: oht.to_string(),
        from_node: "A".to_string(),
        to_node: "B".to_string(),
        event_type: MoveEventType::PassThrough,
        duration_ms: 0,
    }
}

#[test]
fn sorted_events_is_a_stable_sort() {
    let r = sorted_events(vec![vec![ev("a", 5), ev("b", 1)], vec![ev("c", 5), ev("d", 3)]]);
    let ids: Vec<&str> = r.iter().map(|e| e.oht_id.as_str()).collect();
    assert_eq!(ids, vec!["b", "d", "a", "c"]);
    assert!(sorted_events(vec![]).is_empty());
}

#[test]
fn xml_collector_gathers_an_open_record() {
    let p = patterns();
    let mut c = XmlEventCollector::new();
    let items = vec![
        XmlItem::Start {
            name: "Transfer".to_string(),
            attributes: vec![("time".to_string(), "2024-01-15 10:30:00".to_string())],
        },
        XmlItem::Text { text: "OHT-V9 MOVE FROM NODE:X-1 TO NODE:X-2".to_string() },
        XmlItem::End { name: "Transfer".to_string() },
    ];
    for it in items {
        assert!(matches!(c.step(it, &p), XmlAction::Continue));
    }
    match c.step(XmlItem::Eof, &p) {
        XmlAction::Finish(Some(b)) => {
            assert_eq!(b.len(), 1);
            assert_eq!(b[0].oht_id, "V9");
            assert_eq!(b[0].from_node, "X-1");
            assert_eq!(b[0].to_node, "X-2");
            assert_eq!(b[0].timestamp, 1705314600000);
            assert_eq!(b[0].event_type, MoveEventType::PassThrough);
        }
        _ => panic!("expected the last batch"),
    }
}

#[test]
fn xml_collector_reads_a_self_closing_record() {
    let p = patterns();
    let mut c = XmlEventCollector::new();
    let item = XmlItem::Empty {
        name: "OhtMove".to_string(),
        attributes: vec![
            ("vehicle".to_string(), "V7".to_string()),
            ("from".to_string(), "A".to_string()),
            ("to".to_string(), "B".to_string()),
            ("status".to_string(), "DEPART".to_string()),
        ],
    };
    assert!(matches!(c.step(item, &p), XmlAction::Continue));
    assert!(matches!(c.step(XmlItem::Other, &p), XmlAction::Continue));
    match c.step(XmlItem::Eof, &p) {
        XmlAction::Finish(Some(b)) => {
            assert_eq!(b.len(), 1);
            assert_eq!(b[0].oht_id, "V7");
            assert_eq!(b[0].event_type, MoveEventType::Depart);
            assert_eq!(b[0].timestamp, 0);
        }
        _ => panic!("expected the last batch"),
    }
}

#[test]
fn xml_collector_ignores_other_tags_and_stops_on_error() {
    let p = patterns();
    let mut c = XmlEventCollector::new();
    let item = XmlItem::Empty {
        name: "Alarm".to_string(),
        attributes: vec![("id".to_string(), "V7".to_string())],
    };
    assert!(matches!(c.step(item, &p), XmlAction::Continue));
    assert!(matches!(c.step(XmlItem::Error, &p), XmlAction::Abort));
    assert!(matches!(c.step(XmlItem::Eof, &p), XmlAction::Finish(None)));
}

#[test]
fn xml_collector_hands_on_full_batches() {
    let p = patterns();
    let mut c = XmlEventCollector::new();
    let mut sent: Vec<usize> = Vec::new();
    for i in 0..2001 {
        let item = XmlItem::Empty {
            name: "vehicle".to_string(),
            attributes: vec![
                ("id".to_string(), format!("V{}", i)),
                ("source".to_string(), "A".to_string()),
                ("target".to_string(), "B".to_string()),
            ],
        };
        match c.step(item, &p) {
            XmlAction::Send(b) => sent.push(b.len()),
            XmlAction::Continue => {}
            _ => panic!("unexpected action"),
        }
    }
    assert_eq!(sent, vec![1000, 1000]);
    match c.step(XmlItem::Eof, &p) {
        XmlAction::Finish(Some(b)) => {
            assert_eq!(b.len(), 1);
            assert_eq!(b[0].oht_id, "V2000");
        }
        _ => panic!("expected the last batch"),
    }
}

#[test]
fn events_from_lines_sorts_the_lines_events() {
    let p = patterns();
    let lines: Vec<String> = vec![
        "2024-01-15 10:30:05 S6F11 OHT-V1 MOVE FROM NODE:A TO NODE:B".to_string(),
        "no header OHT-V9 MOVE FROM NODE:A TO NODE:B".to_string(),
        "2024-01-15 10:30:01 S6F11 OHT-V2 MOVE FROM NODE:B TO NODE:C".to_string(),
        "S1F1 OHT-V3 DEPART FROM NODE:C TO NODE:D".to_string(),
        "2024-01-15 10:30:05 S6F11 OHT-V4 ARRIVE FROM NODE:D TO NODE:E".to_string(),
    ];
    let r = events_from_lines(&lines, &p);
    let ids: Vec<&str> = r.iter().map(|e| e.oht_id.as_str()).collect();
    assert_eq!(ids, vec!["V3", "V2", "V1", "V4"]);
    assert_eq!(r[0].timestamp, 0);
    assert_eq!(r[1].timestamp, 1705314601000);
}

#[test]
fn text_dump_events_line_by_line() {
    let p = patterns();
    let mut t = TextDumpEvents::new();
    t.take_line("S6F11 OHT-V1 MOVE FROM NODE:A TO NODE:B", &p);
    t.take_line("nothing here", &p);
    t.take_line("2024/01/15 10:30:00 S6F1 OHT-V2 MOVE FROM NODE:B TO NODE:A", &p);
    let r = t.finish();
    let ids: Vec<&str> = r.iter().map(|e| e.oht_id.as_str()).collect();
    assert_eq!(ids, vec!["V1", "V2"]);
    assert!(TextDumpEvents::new().finish().is_empty());
}

use amhs_probe::event::MoveEventType;
use amhs_probe::scanner::{has_secs_header, parse_timestamp_from_str, ScanFault, SecsScanner};
use amhs_probe::text::{is_whitespace, is_word_char, to_lower_ascii};

#[test]
fn scan_line_reads_a_blocked_move() {
    let mut s = SecsScanner::new();
    let e = s
        .scan_line("[2024-01-15 10:30:00.123] S6F11 OHT-V001 MOVE FROM:NODE-A TO:NODE-B BLOCKED")
        .expect("an event");
    assert_eq!(e.oht_id, "V001");
    assert_eq!(e.from_node, "NODE-A");
    assert_eq!(e.to_node, "NODE-B");
    assert_eq!(e.event_type, MoveEventType::Blocked);
    assert_eq!(e.duration_ms, 0);
    // the month digits of a bracketed date land in the day field, so the
    // date is not a calendar date and the timestamp stays 0
    assert_eq!(e.timestamp, 0);
}

#[test]
fn scan_line_reads_a_depart_without_date() {
    let mut s = SecsScanner::default();
    let e = s.scan_line("S6F11 OHT_V002 DEPART FROM:N1 TO:N2").expect("an event");
    assert_eq!(e.oht_id, "V002");
    assert_eq!(e.from_node, "N1");
    assert_eq!(e.to_node, "N2");
    assert_eq!(e.event_type, MoveEventType::Depart);
    assert_eq!(e.timestamp, 0);
}

#[test]
fn scan_line_ignores_other_lines() {
    let mut s = SecsScanner::new();
    assert!(s.scan_line("hello world").is_none());
    assert!(s.scan_line("").is_none());
    assert!(s.scan_line("S6F11 no vehicle here").is_none());
}

#[test]
fn scan_line_reports_arrive_from_the_line_text() {
    let mut s = SecsScanner::new();
    let e = s.scan_line("S1F1 OHT-7 MOVE FROM:X TO:Y arrive").expect("an event");
    assert_eq!(e.oht_id, "7");
    assert_eq!(e.event_type, MoveEventType::Arrive);
}

#[test]
fn try_scan_line_reports_a_counter_overflow() {
    let mut s = SecsScanner::new();
    let r = s.try_scan_line("S99999999999F1 OHT-V1 MOVE FROM:A TO:B");
    assert_eq!(r.err(), Some(ScanFault));
}

#[test]
fn try_scan_line_agrees_with_scan_line() {
    let line = "S6F11 OHT-V3 PASS FROM:P-1 TO:P-2";
    let mut a = SecsScanner::new();
    let mut b = SecsScanner::new();
    let x = a.try_scan_line(line).expect("no fault").expect("an event");
    let y = b.scan_line(line).expect("an event");
    assert_eq!(x.oht_id, y.oht_id);
    assert_eq!(x.from_node, y.from_node);
    assert_eq!(x.to_node, y.to_node);
    assert_eq!(x.event_type, MoveEventType::PassThrough);
}

#[test]
fn has_secs_header_finds_stream_and_function() {
    assert!(has_secs_header("S6F11 event"));
    assert!(has_secs_header("xxS12F3"));
    assert!(has_secs_header("msg s1f1 ok"));
    assert!(!has_secs_header("abc"));
    assert!(!has_secs_header("S6F"));
    assert!(!has_secs_header("SxF1 done"));
    assert!(!has_secs_header(""));
}

#[test]
fn parse_timestamp_from_str_dashed_date_is_not_a_calendar_date() {
    assert_eq!(parse_timestamp_from_str("2024-01-15 10:30:00.123"), 0);
}

#[test]
fn parse_timestamp_from_str_compact_date() {
    assert_eq!(parse_timestamp_from_str("20240115T103000"), 1704844800000);
    assert_eq!(parse_timestamp_from_str("202401T15"), 1705276800000);
}

#[test]
fn parse_timestamp_from_str_with_time_and_millis() {
    assert_eq!(parse_timestamp_from_str("202403T05T07 08:09:10.250"), 1709626150250);
}

#[test]
fn parse_timestamp_from_str_of_no_digits() {
    assert_eq!(parse_timestamp_from_str(""), 0);
    assert_eq!(parse_timestamp_from_str("abc"), 0);
}

#[test]
fn byte_classes() {
    assert!(is_whitespace(b' '));
    assert!(is_whitespace(b'\t'));
    assert!(is_whitespace(b'\n'));
    assert!(is_whitespace(b'\r'));
    assert!(!is_whitespace(b'x'));
    assert!(is_word_char(b'a'));
    assert!(is_word_char(b'Z'));
    assert!(is_word_char(b'7'));
    assert!(is_word_char(b'_'));
    assert!(is_word_char(b'-'));
    assert!(!is_word_char(b':'));
    assert_eq!(to_lower_ascii(b'Q'), b'q');
    assert_eq!(to_lower_ascii(b'q'), b'q');
    assert_eq!(to_lower_ascii(b'1'), b'1');
}

#[test]
fn try_scan_line_reports_a_split_character() {
    let mut s = SecsScanner::new();
    assert_eq!(s.try_scan_line("\u{e9}abc").err(), Some(ScanFault));
}

#[test]
fn ascii_lines_with_short_numbers_scan_cleanly() {
    let mut s = SecsScanner::new();
    for line in [
        "[2024-01-15 10:30:00.123] S123456789F987654321 OHT-V1 MOVE FROM:A TO:B",
        "S6F11 OHT_V002 DEPART FROM:N1 TO:N2 WAITING",
        "plain text with 123456789 digits",
        "",
        "oht9 x y from=1 to=2",
    ] {
        assert!(s.try_scan_line(line).is_ok());
    }
}

#[test]
fn scanned_names_are_words() {
    let mut s = SecsScanner::new();
    let e = s.scan_line("S1F1 OHT-V9.x MOVE FROM:N-1 TO:N-2").expect("an event");
    assert_eq!(e.oht_id, "V9");
    assert_eq!(e.from_node, "N-1");
    assert_eq!(e.to_node, "N-2");
    assert_eq!(e.event_type, MoveEventType::PassThrough);
    for name in [&e.oht_id, &e.from_node, &e.to_node] {
        assert!(!name.is_empty());
        assert!(name.bytes().all(|b| b.is_ascii_alphanumeric() || b == b'_' || b == b'-'));
    }
}

#[test]
fn blocked_in_front_makes_the_event_blocked() {
    let line = "S6F11 OHT-V001 MOVE FROM:NODE-A TO:NODE-B";
    let plain = SecsScanner::new().scan_line(line).expect("an event");
    assert_eq!(plain.event_type, MoveEventType::PassThrough);
    let blocked = SecsScanner::new().scan_line(&format!("blocked {}", line)).expect("an event");
    assert_eq!(blocked.event_type, MoveEventType::Blocked);
    assert_eq!(blocked.oht_id, plain.oht_id);
    assert_eq!(blocked.from_node, plain.from_node);
    assert_eq!(blocked.to_node, plain.to_node);
    assert_eq!(blocked.timestamp, plain.timestamp);
    assert!(SecsScanner::new().scan_line("blocked hello").is_none());
}

#[test]
fn earlier_lines_reach_only_the_timestamp() {
    let line = "S6F11 OHT-V7 ARRIVE FROM:P TO:Q";
    let mut used = SecsScanner::new();
    let _ = used.scan_line("[202401 x] S1F1 OHT-V1 MOVE FROM:A TO:B");
    let a = used.scan_line(line).expect("an event");
    let b = SecsScanner::new().scan_line(line).expect("an event");
    assert_eq!(a.oht_id, b.oht_id);
    assert_eq!(a.from_node, b.from_node);
    assert_eq!(a.to_node, b.to_node);
    assert_eq!(a.event_type, b.event_type);
    assert_eq!(a.duration_ms, b.duration_ms);
}

#[test]
fn header_is_kept_with_text_around_it() {
    assert!(has_secs_header("S6F11"));
    assert!(has_secs_header("prefix S6F11"));
    assert!(has_secs_header("S6F11 suffix"));
    assert!(has_secs_header("ab S6F11 cd"));
}

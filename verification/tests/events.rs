use amhs_probe::cli::MergeMode;
use amhs_probe::event::{MoveEventType, OhtMoveEvent};

fn event(oht: &str, from: &str, to: &str, t: MoveEventType, ts: i64) -> OhtMoveEvent {
    OhtMoveEvent {
        timestamp: ts,
        oht_id: oht.to_string(),
        from_node: from.to_string(),
        to_node: to.to_string(),
        event_type: t,
        duration_ms: 0,
    }
}

#[test]
fn edge_key_joins_the_nodes() {
    let e = event("V1", "N1", "N2", MoveEventType::PassThrough, 0);
    assert_eq!(e.edge_key(), "N1->N2");
}

#[test]
fn intersection_key_of_shared_prefix() {
    let e = event("V1", "A-1", "A-2", MoveEventType::PassThrough, 0);
    assert_eq!(e.intersection_key(), Some("IX-A".to_string()));
    let e = event("V1", "A-1-x", "A-2", MoveEventType::PassThrough, 0);
    assert_eq!(e.intersection_key(), Some("IX-A".to_string()));
}

#[test]
fn intersection_key_absent() {
    assert_eq!(event("V1", "A-1", "B-2", MoveEventType::PassThrough, 0).intersection_key(), None);
    assert_eq!(event("V1", "A", "A-2", MoveEventType::PassThrough, 0).intersection_key(), None);
    assert_eq!(event("V1", "A-1", "A", MoveEventType::PassThrough, 0).intersection_key(), None);
}

#[test]
fn intersection_key_is_symmetric() {
    let a = event("V1", "K-1", "K-9", MoveEventType::PassThrough, 0);
    let b = event("V1", "K-9", "K-1", MoveEventType::PassThrough, 0);
    assert_eq!(a.intersection_key(), b.intersection_key());
    let a = event("V1", "K-1", "J-9", MoveEventType::PassThrough, 0);
    let b = event("V1", "J-9", "K-1", MoveEventType::PassThrough, 0);
    assert_eq!(a.intersection_key(), b.intersection_key());
}

#[test]
fn timestamp_str_renders_utc_millis() {
    assert_eq!(event("V1", "A", "B", MoveEventType::Depart, 0).timestamp_str(), "1970-01-01 00:00:00.000");
    assert_eq!(
        event("V1", "A", "B", MoveEventType::Depart, 1709626150250).timestamp_str(),
        "2024-03-05 08:09:10.250"
    );
}

#[test]
fn timestamp_str_out_of_range_is_the_number() {
    assert_eq!(
        event("V1", "A", "B", MoveEventType::Depart, i64::MAX).timestamp_str(),
        "9223372036854775807"
    );
    assert_eq!(
        event("V1", "A", "B", MoveEventType::Depart, i64::MIN).timestamp_str(),
        "-9223372036854775808"
    );
}

#[test]
fn event_type_labels() {
    assert_eq!(MoveEventType::Depart.to_string(), "DEPART");
    assert_eq!(MoveEventType::Arrive.to_string(), "ARRIVE");
    assert_eq!(MoveEventType::PassThrough.to_string(), "PASS");
    assert_eq!(MoveEventType::Blocked.to_string(), "BLOCKED");
    assert_eq!(MoveEventType::EmergencyStop.to_string(), "ESTOP");
}

#[test]
fn merge_modes_differ() {
    assert_ne!(MergeMode::Semantic, MergeMode::MaxNodes);
    assert_ne!(MergeMode::MaxNodes, MergeMode::NoMerge);
    assert_eq!(MergeMode::Semantic, MergeMode::Semantic);
}

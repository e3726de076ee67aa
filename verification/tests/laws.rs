use amhs_probe::digraph::TrackGraph;
use amhs_probe::event::{MoveEventType, OhtMoveEvent};
use amhs_probe::parser::{MovePatterns, StreamParser, XmlAction, XmlEventCollector, XmlItem};
use amhs_probe::summary::parse_summary;

fn ev(oht: &str, from: &str, to: &str, t: MoveEventType) -> OhtMoveEvent {
    OhtMoveEvent {
        timestamp: 0,
        oht_id: oht.to_string(),
        from_node: from.to_string(),
        to_node: to.to_string(),
        event_type: t,
        duration_ms: 3,
    }
}

fn events() -> Vec<OhtMoveEvent> {
    vec![
        ev("V1", "A-1", "A-2", MoveEventType::Depart),
        ev("V2", "A-2", "B-1", MoveEventType::Blocked),
        ev("V3", "B-1", "A-1", MoveEventType::Arrive),
        ev("V1", "A-2", "B-1", MoveEventType::EmergencyStop),
        ev("V2", "A-1", "A-2", MoveEventType::PassThrough),
    ]
}

#[test]
fn building_in_two_runs_equals_one_run() {
    let es = events();
    let mut one = TrackGraph::new();
    one.build_from_events(&es);
    let mut two = TrackGraph::new();
    two.build_from_events(&es[..2]);
    two.build_from_events(&es[2..]);
    let (x, y) = (one.graph_export(), two.graph_export());
    let nx: Vec<&str> = x.nodes.iter().map(|n| n.id.as_str()).collect();
    let ny: Vec<&str> = y.nodes.iter().map(|n| n.id.as_str()).collect();
    assert_eq!(nx, ny);
    let ex: Vec<(&str, &str, u64, u64, u64)> =
        x.edges.iter().map(|e| (e.source.as_str(), e.target.as_str(), e.flow, e.blocked, e.total_duration_ms)).collect();
    let ey: Vec<(&str, &str, u64, u64, u64)> =
        y.edges.iter().map(|e| (e.source.as_str(), e.target.as_str(), e.flow, e.blocked, e.total_duration_ms)).collect();
    assert_eq!(ex, ey);
    assert_eq!(one.graph_stats().unique_ohts, two.graph_stats().unique_ohts);
}

#[test]
fn graph_accounts_for_every_event() {
    let es = events();
    let mut g = TrackGraph::new();
    g.build_from_events(&es);
    let stats = g.graph_stats();
    let summary = parse_summary(&es);
    assert_eq!(stats.node_count, summary.unique_nodes);
    assert_eq!(stats.unique_ohts, summary.unique_ohts);
    assert_eq!(stats.total_flow, summary.event_count as u64);
    assert_eq!(stats.total_blocked, summary.blocked_count as u64);
    assert!(stats.total_blocked <= stats.total_flow);
}

#[test]
fn kinds_add_up_to_the_events() {
    let s = parse_summary(&events());
    let estop = 1;
    assert_eq!(s.depart_count + s.arrive_count + s.pass_count + s.blocked_count + estop, s.event_count);
}

#[test]
fn congestion_comes_most_first() {
    let mut g = TrackGraph::new();
    g.build_from_events(&events());
    let all = g.top_congested_intersections(10);
    for w in all.windows(2) {
        assert!(w[0].total_flow >= w[1].total_flow);
    }
    for c in &all {
        assert!(c.blocked_count <= c.total_flow);
    }
}

#[test]
fn chunk_ranges_tile_the_file() {
    for threads in 1..6 {
        let p = StreamParser::new(std::path::PathBuf::from("f"), threads, 1);
        for size in [0usize, 1, 7, 100, 5_000_000] {
            let r = p.text_chunk_ranges(size);
            assert_eq!(r.len(), threads);
            assert_eq!(r[0].0, 0);
            assert_eq!(r[threads - 1].1, size);
            for w in r.windows(2) {
                assert_eq!(w[0].1, w[1].0);
            }
            for x in &r {
                assert!(x.0 <= x.1);
            }
        }
    }
}

#[test]
fn xml_collector_loses_no_record() {
    let p = MovePatterns::compile().unwrap();
    let mut c = XmlEventCollector::new();
    let mut handed: Vec<String> = Vec::new();
    let mut expected: Vec<String> = Vec::new();
    for i in 0..2503 {
        let id = format!("V{}", i);
        if i % 3 != 0 {
            expected.push(id.clone());
        }
        let attrs = if i % 3 != 0 {
            vec![("oht".to_string(), id), ("from".to_string(), "A".to_string()), ("to".to_string(), "B".to_string())]
        } else {
            vec![("oht".to_string(), id)]
        };
        match c.step(XmlItem::Empty { name: "OHT".to_string(), attributes: attrs }, &p) {
            XmlAction::Send(b) => {
                assert_eq!(b.len(), 1000);
                handed.extend(b.into_iter().map(|e| e.oht_id));
            }
            XmlAction::Continue => {}
            _ => panic!("unexpected action"),
        }
    }
    if let XmlAction::Finish(Some(b)) = c.step(XmlItem::Eof, &p) {
        handed.extend(b.into_iter().map(|e| e.oht_id));
    }
    assert_eq!(handed, expected);
}

use amhs_probe::digraph::TrackGraph;
use amhs_probe::event::{MoveEventType, OhtMoveEvent};
use amhs_probe::summary::parse_summary;

fn ev(oht: &str, from: &str, to: &str, t: MoveEventType, dur: u64) -> OhtMoveEvent {
    OhtMoveEvent {
        timestamp: 0,
        oht_id: oht.to_string(),
        from_node: from.to_string(),
        to_node: to.to_string(),
        event_type: t,
        duration_ms: dur,
    }
}

fn sample() -> Vec<OhtMoveEvent> {
    vec![
        ev("V1", "A", "B", MoveEventType::PassThrough, 10),
        ev("V2", "A", "B", MoveEventType::Blocked, 5),
        ev("V1", "B", "C", MoveEventType::Depart, 7),
    ]
}

#[test]
fn new_graph_is_empty() {
    let g = TrackGraph::new();
    let s = g.graph_stats();
    assert_eq!(s.node_count, 0);
    assert_eq!(s.edge_count, 0);
    assert_eq!(s.total_flow, 0);
    assert_eq!(s.total_blocked, 0);
    assert_eq!(s.unique_ohts, 0);
    assert!(g.top_congested_intersections(10).is_empty());
}

#[test]
fn graph_stats_after_build() {
    let mut g = TrackGraph::new();
    g.build_from_events(&sample());
    let s = g.graph_stats();
    assert_eq!(s.node_count, 3);
    assert_eq!(s.edge_count, 2);
    assert_eq!(s.total_flow, 3);
    assert_eq!(s.total_blocked, 1);
    assert_eq!(s.unique_ohts, 2);
}

#[test]
fn top_congested_orders_by_flow() {
    let mut g = TrackGraph::new();
    g.build_from_events(&sample());
    let all = g.top_congested_intersections(10);
    let ids: Vec<&str> = all.iter().map(|c| c.intersection_id.as_str()).collect();
    assert_eq!(ids, vec!["B", "A", "C"]);
    assert_eq!(all[0].total_flow, 3);
    assert_eq!(all[0].blocked_count, 1);
    assert_eq!(all[0].connected_edges, 2);
    assert_eq!(all[0].active_ohts, 1);
    assert_eq!(all[1].total_flow, 2);
    assert_eq!(all[1].blocked_count, 1);
    assert_eq!(all[1].connected_edges, 1);
    assert_eq!(all[1].active_ohts, 0);
    assert_eq!(all[2].total_flow, 1);
    assert_eq!(all[2].blocked_count, 0);
    assert_eq!(all[2].connected_edges, 1);
    assert_eq!(all[2].active_ohts, 1);
    let top = g.top_congested_intersections(2);
    let ids: Vec<&str> = top.iter().map(|c| c.intersection_id.as_str()).collect();
    assert_eq!(ids, vec!["B", "A"]);
    assert!(g.top_congested_intersections(0).is_empty());
}

#[test]
fn top_congested_ties_keep_node_order() {
    let mut g = TrackGraph::new();
    g.build_from_events(&[
        ev("V1", "P", "Q", MoveEventType::PassThrough, 0),
        ev("V2", "R", "S", MoveEventType::PassThrough, 0),
    ]);
    let all = g.top_congested_intersections(4);
    let ids: Vec<&str> = all.iter().map(|c| c.intersection_id.as_str()).collect();
    assert_eq!(ids, vec!["P", "Q", "R", "S"]);
}

#[test]
fn self_loop_counts_twice() {
    let mut g = TrackGraph::new();
    g.build_from_events(&[ev("V1", "L", "L", MoveEventType::Blocked, 0)]);
    let all = g.top_congested_intersections(1);
    assert_eq!(all.len(), 1);
    assert_eq!(all[0].total_flow, 2);
    assert_eq!(all[0].blocked_count, 2);
    assert_eq!(all[0].connected_edges, 2);
    assert_eq!(all[0].active_ohts, 1);
}

#[test]
fn graph_export_lists_nodes_and_edges() {
    let mut g = TrackGraph::new();
    g.build_from_events(&sample());
    let x = g.graph_export();
    let nodes: Vec<(&str, usize)> = x.nodes.iter().map(|n| (n.id.as_str(), n.index)).collect();
    assert_eq!(nodes, vec![("A", 0), ("B", 1), ("C", 2)]);
    assert_eq!(x.edges.len(), 2);
    assert_eq!(x.edges[0].source, "A");
    assert_eq!(x.edges[0].target, "B");
    assert_eq!(x.edges[0].flow, 2);
    assert_eq!(x.edges[0].blocked, 1);
    assert_eq!(x.edges[0].total_duration_ms, 15);
    assert_eq!(x.edges[1].source, "B");
    assert_eq!(x.edges[1].target, "C");
    assert_eq!(x.edges[1].flow, 1);
    assert_eq!(x.edges[1].blocked, 0);
    assert_eq!(x.edges[1].total_duration_ms, 7);
}

#[test]
fn vehicle_position_follows_its_last_move() {
    let mut g = TrackGraph::new();
    g.build_from_events(&[
        ev("V1", "A", "B", MoveEventType::PassThrough, 0),
        ev("V1", "B", "A", MoveEventType::PassThrough, 0),
    ]);
    let all = g.top_congested_intersections(2);
    let a = all.iter().find(|c| c.intersection_id == "A").unwrap();
    let b = all.iter().find(|c| c.intersection_id == "B").unwrap();
    assert_eq!(a.active_ohts, 1);
    assert_eq!(b.active_ohts, 0);
    assert_eq!(g.graph_stats().unique_ohts, 1);
}

#[test]
fn parse_summary_counts() {
    let s = parse_summary(&sample());
    assert_eq!(s.event_count, 3);
    assert_eq!(s.depart_count, 1);
    assert_eq!(s.arrive_count, 0);
    assert_eq!(s.pass_count, 1);
    assert_eq!(s.blocked_count, 1);
    assert_eq!(s.unique_ohts, 2);
    assert_eq!(s.unique_nodes, 3);
    let e = parse_summary(&[]);
    assert_eq!(e.event_count, 0);
    assert_eq!(e.unique_nodes, 0);
}

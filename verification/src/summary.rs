//! What a parse found: how many events of each kind, how many vehicles and
//! track nodes they name.
use vstd::prelude::*;

use crate::digraph::count_kind;
use crate::event::{EventView, MoveEventType, OhtMoveEvent};
use crate::names::{names_of, NameIndex};
use crate::parser::events_view;

verus! {

/// The vehicles the events name.
pub open spec fn vehicle_ids(es: Seq<EventView>) -> Set<Seq<char>> {
    Set::new(|id: Seq<char>| exists|i: int| 0 <= i < es.len() && (#[trigger] es[i]).oht_id == id)
}

/// The track nodes the events leave or reach.
pub open spec fn track_nodes(es: Seq<EventView>) -> Set<Seq<char>> {
    Set::new(
        |n: Seq<char>|
            exists|i: int| 0 <= i < es.len() && ((#[trigger] es[i]).from_node == n || es[i].to_node == n),
    )
}

/// The track nodes of events, one event more.
pub proof fn lemma_track_nodes_step(es: Seq<EventView>)
    requires
        es.len() > 0,
    ensures
        track_nodes(es) == track_nodes(es.drop_last()).insert(es.last().from_node).insert(es.last().to_node),
{
    let pre = es.drop_last();
    let e = es.last();
    assert forall|x: Seq<char>| track_nodes(es).contains(x) implies track_nodes(pre).insert(e.from_node).insert(
        e.to_node,
    ).contains(x) by {
        let k = choose|k: int| 0 <= k < es.len() && ((#[trigger] es[k]).from_node == x || es[k].to_node == x);
        if k < pre.len() {
            assert(pre[k] == es[k]);
        }
    }
    assert forall|x: Seq<char>| track_nodes(pre).contains(x) implies track_nodes(es).contains(x) by {
        let k = choose|k: int| 0 <= k < pre.len() && ((#[trigger] pre[k]).from_node == x || pre[k].to_node == x);
        assert(es[k] == pre[k]);
    }
    assert(es[es.len() - 1] == e);
    assert(track_nodes(es) =~= track_nodes(pre).insert(e.from_node).insert(e.to_node));
}

/// The vehicles of events, one event more.
pub proof fn lemma_vehicle_ids_step(es: Seq<EventView>)
    requires
        es.len() > 0,
    ensures
        vehicle_ids(es) == vehicle_ids(es.drop_last()).insert(es.last().oht_id),
{
    let pre = es.drop_last();
    let e = es.last();
    assert forall|x: Seq<char>| vehicle_ids(es).contains(x) implies vehicle_ids(pre).insert(e.oht_id).contains(
        x,
    ) by {
        let k = choose|k: int| 0 <= k < es.len() && (#[trigger] es[k]).oht_id == x;
        if k < pre.len() {
            assert(pre[k] == es[k]);
        }
    }
    assert forall|x: Seq<char>| vehicle_ids(pre).contains(x) implies vehicle_ids(es).contains(x) by {
        let k = choose|k: int| 0 <= k < pre.len() && (#[trigger] pre[k]).oht_id == x;
        assert(es[k] == pre[k]);
    }
    assert(es[es.len() - 1] == e);
    assert(vehicle_ids(es) =~= vehicle_ids(pre).insert(e.oht_id));
}

/// The track nodes of finitely many events are finitely many.
pub proof fn lemma_track_nodes_finite(es: Seq<EventView>)
    ensures
        track_nodes(es).finite(),
    decreases es.len(),
{
    if es.len() == 0 {
        assert(track_nodes(es) =~= Set::empty());
    } else {
        lemma_track_nodes_finite(es.drop_last());
        lemma_track_nodes_step(es);
    }
}

/// The counts of a parse.
#[derive(Debug)]
pub struct ParseSummary {
    pub event_count: usize,
    pub depart_count: usize,
    pub arrive_count: usize,
    pub pass_count: usize,
    pub blocked_count: usize,
    pub unique_ohts: usize,
    pub unique_nodes: usize,
}

/// Adds `name` to the distinct names where it is missing.
fn add_distinct(seen: &mut Vec<String>, index: &mut NameIndex, name: &String)
    requires
        names_of(old(seen)@).no_duplicates(),
        old(index).indexes(names_of(old(seen)@)),
    ensures
        names_of(final(seen)@).no_duplicates(),
        final(index).indexes(names_of(final(seen)@)),
        names_of(final(seen)@).to_set() == names_of(old(seen)@).to_set().insert(name@),
{
    let ghost before = names_of(seen@);
    match index.find(seen, name) {
        Some(i) => {
            assert(before[i as int] == name@);
            assert(before.to_set().insert(name@) =~= before.to_set());
        },
        None => {
            let len = seen.len();
            index.add(name, len, Ghost(before));
            seen.push(name.clone());
            proof {
                let after = names_of(seen@);
                assert(after =~= before.push(name@));
                before.lemma_push_to_set_commute(name@);
            }
        },
    }
}

/// Counts the events of each kind and the distinct vehicles and track
/// nodes they name.
pub fn parse_summary(events: &[OhtMoveEvent]) -> (s: ParseSummary)
    ensures
        s.event_count == events@.len(),
        s.depart_count == count_kind(events_view(events@), MoveEventType::Depart),
        s.arrive_count == count_kind(events_view(events@), MoveEventType::Arrive),
        s.pass_count == count_kind(events_view(events@), MoveEventType::PassThrough),
        s.blocked_count == count_kind(events_view(events@), MoveEventType::Blocked),
        vehicle_ids(events_view(events@)).finite(),
        s.unique_ohts == vehicle_ids(events_view(events@)).len(),
        track_nodes(events_view(events@)).finite(),
        s.unique_nodes == track_nodes(events_view(events@)).len(),
{
    let ghost ev = events_view(events@);
    let n = events.len();
    let mut depart: usize = 0;
    let mut arrive: usize = 0;
    let mut pass: usize = 0;
    let mut blocked: usize = 0;
    let mut ohts: Vec<String> = Vec::new();
    let mut oht_index = NameIndex::new();
    let mut nodes: Vec<String> = Vec::new();
    let mut node_index = NameIndex::new();
    let mut i: usize = 0;
    proof {
        assert(names_of(ohts@) =~= seq![]);
        assert(names_of(nodes@) =~= seq![]);
        assert(names_of(ohts@).to_set() =~= vehicle_ids(ev.take(0)));
        assert(names_of(nodes@).to_set() =~= track_nodes(ev.take(0)));
    }
    while i < n
        invariant
            n == events@.len(),
            ev == events_view(events@),
            ev.len() == n,
            i <= n,
            depart == count_kind(ev.take(i as int), MoveEventType::Depart),
            arrive == count_kind(ev.take(i as int), MoveEventType::Arrive),
            pass == count_kind(ev.take(i as int), MoveEventType::PassThrough),
            blocked == count_kind(ev.take(i as int), MoveEventType::Blocked),
            depart + arrive + pass + blocked <= i,
            names_of(ohts@).no_duplicates(),
            oht_index.indexes(names_of(ohts@)),
            node_index.indexes(names_of(nodes@)),
            names_of(ohts@).to_set() == vehicle_ids(ev.take(i as int)),
            names_of(nodes@).no_duplicates(),
            names_of(nodes@).to_set() == track_nodes(ev.take(i as int)),
        decreases n - i,
    {
        let e = &events[i];
        let ghost pre = ev.take(i as int);
        let ghost post = ev.take(i + 1);
        proof {
            assert(post.drop_last() =~= pre);
            assert(post.last() == e@);
        }
        match e.event_type {
            MoveEventType::Depart => depart = depart + 1,
            MoveEventType::Arrive => arrive = arrive + 1,
            MoveEventType::PassThrough => pass = pass + 1,
            MoveEventType::Blocked => blocked = blocked + 1,
            MoveEventType::EmergencyStop => {},
        }
        add_distinct(&mut ohts, &mut oht_index, &e.oht_id);
        add_distinct(&mut nodes, &mut node_index, &e.from_node);
        add_distinct(&mut nodes, &mut node_index, &e.to_node);
        proof {
            lemma_vehicle_ids_step(post);
            lemma_track_nodes_step(post);
        }
        i = i + 1;
    }
    proof {
        assert(ev.take(n as int) =~= ev);
        names_of(ohts@).unique_seq_to_set();
        names_of(nodes@).unique_seq_to_set();
    }
    ParseSummary {
        event_count: n,
        depart_count: depart,
        arrive_count: arrive,
        pass_count: pass,
        blocked_count: blocked,
        unique_ohts: ohts.len(),
        unique_nodes: nodes.len(),
    }
}

/// Every event is of exactly one kind: the counts of the five kinds add up
/// to the number of events.
pub proof fn lemma_kinds_partition(es: Seq<EventView>)
    ensures
        count_kind(es, MoveEventType::Depart) + count_kind(es, MoveEventType::Arrive) + count_kind(
            es,
            MoveEventType::PassThrough,
        ) + count_kind(es, MoveEventType::Blocked) + count_kind(es, MoveEventType::EmergencyStop)
            == es.len(),
    decreases es.len(),
{
    if es.len() > 0 {
        lemma_kinds_partition(es.drop_last());
    }
}

} // verus!

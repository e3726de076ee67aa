//! The track as a directed graph: nodes are track nodes, an edge counts the
//! movements between two nodes. The graph itself is a `petgraph` graph.
use petgraph::visit::EdgeRef;
use vstd::prelude::*;

use crate::event::{EventView, MoveEventType, OhtMoveEvent};
use crate::parser::events_view;
use crate::sorting::{flow_descending, is_permutation, sort_by_flow_descending, stably_sorted_by};
use crate::names::{first_names, names_of, NameIndex};
use crate::summary::{
    lemma_track_nodes_finite, lemma_track_nodes_step, lemma_vehicle_ids_step, track_nodes, vehicle_ids,
};

verus! {

#[verifier::external_type_specification]
#[verifier::external_body]
#[verifier::reject_recursive_types(N)]
#[verifier::reject_recursive_types(E)]
#[verifier::reject_recursive_types(Ty)]
#[verifier::reject_recursive_types(Ix)]
pub struct ExGraph<N, E, Ty, Ix>(petgraph::graph::Graph<N, E, Ty, Ix>);

#[verifier::external_type_specification]
#[verifier::external_body]
pub struct ExDirected(petgraph::Directed);

/// What an edge counts of the movements between its two nodes.
pub struct EdgeWeight {
    pub from_node: String,
    pub to_node: String,
    pub flow_count: u64,
    pub blocked_count: u64,
    pub total_duration_ms: u64,
}

/// The node names of the graph, by node index.
pub uninterp spec fn graph_nodes(g: petgraph::graph::Graph<String, EdgeWeight, petgraph::Directed, u32>) -> Seq<
    Seq<char>,
>;

/// The edges of the graph, by edge index: source index, target index, and
/// the weight's node names, flow, blocked count and total duration.
pub uninterp spec fn graph_edges(g: petgraph::graph::Graph<String, EdgeWeight, petgraph::Directed, u32>) -> Seq<
    (nat, nat, Seq<char>, Seq<char>, u64, u64, u64),
>;

pub open spec fn weight_entry(source: nat, target: nat, w: EdgeWeight) -> (
    nat,
    nat,
    Seq<char>,
    Seq<char>,
    u64,
    u64,
    u64,
) {
    (source, target, w.from_node@, w.to_node@, w.flow_count, w.blocked_count, w.total_duration_ms)
}

/// `petgraph::graph::Graph::new`: an empty graph.
#[verifier::external_body]
fn new_graph() -> (g: petgraph::graph::Graph<String, EdgeWeight, petgraph::Directed, u32>)
    ensures
        graph_nodes(g) == Seq::<Seq<char>>::empty(),
        graph_edges(g) == Seq::<(nat, nat, Seq<char>, Seq<char>, u64, u64, u64)>::empty(),
{
    petgraph::graph::Graph::new()
}

/// `Graph::add_node`: appends the node and returns its index. It panics
/// when the index type is exhausted, which `requires` leaves out.
#[verifier::external_body]
fn add_node(g: &mut petgraph::graph::Graph<String, EdgeWeight, petgraph::Directed, u32>, name: String) -> (i: u32)
    requires
        graph_nodes(*old(g)).len() + 1 < u32::MAX,
    ensures
        i == graph_nodes(*old(g)).len(),
        graph_nodes(*final(g)) == graph_nodes(*old(g)).push(name@),
        graph_edges(*final(g)) == graph_edges(*old(g)),
{
    g.add_node(name).index() as u32
}

/// `Graph::add_edge`: appends the edge and returns its index. It panics on
/// a missing node or when the index type is exhausted, which `requires`
/// leaves out.
#[verifier::external_body]
fn add_edge(
    g: &mut petgraph::graph::Graph<String, EdgeWeight, petgraph::Directed, u32>,
    a: u32,
    b: u32,
    w: EdgeWeight,
) -> (e: u32)
    requires
        a < graph_nodes(*old(g)).len(),
        b < graph_nodes(*old(g)).len(),
        graph_edges(*old(g)).len() + 1 < u32::MAX,
    ensures
        e == graph_edges(*old(g)).len(),
        graph_edges(*final(g)) == graph_edges(*old(g)).push(weight_entry(a as nat, b as nat, w)),
        graph_nodes(*final(g)) == graph_nodes(*old(g)),
{
    g.add_edge(petgraph::graph::NodeIndex::new(a as usize), petgraph::graph::NodeIndex::new(b as usize), w).index() as u32
}

/// `Graph::find_edge`: an edge from `a` to `b`, where there is one.
#[verifier::external_body]
fn find_edge(g: &petgraph::graph::Graph<String, EdgeWeight, petgraph::Directed, u32>, a: u32, b: u32) -> (r: Option<u32>)
    ensures
        match r {
            Some(e) => e < graph_edges(*g).len() && graph_edges(*g)[e as int].0 == a
                && graph_edges(*g)[e as int].1 == b,
            None => forall|k: int|
                0 <= k < graph_edges(*g).len() ==> !(#[trigger] graph_edges(*g)[k].0 == a
                    && graph_edges(*g)[k].1 == b),
        },
{
    match g.find_edge(petgraph::graph::NodeIndex::new(a as usize), petgraph::graph::NodeIndex::new(b as usize)) {
        Some(e) => Some(e.index() as u32),
        None => None,
    }
}

/// Indexing a graph by an edge index: the edge's weight.
#[verifier::external_body]
fn edge_weight(g: &petgraph::graph::Graph<String, EdgeWeight, petgraph::Directed, u32>, e: u32) -> (w: &EdgeWeight)
    requires
        e < graph_edges(*g).len(),
    ensures
        weight_entry(graph_edges(*g)[e as int].0, graph_edges(*g)[e as int].1, *w) == graph_edges(
            *g,
        )[e as int],
{
    &g[petgraph::graph::EdgeIndex::new(e as usize)]
}

/// `Graph::edge_weight_mut`, the weight replaced.
#[verifier::external_body]
fn set_edge_weight(g: &mut petgraph::graph::Graph<String, EdgeWeight, petgraph::Directed, u32>, e: u32, w: EdgeWeight)
    requires
        e < graph_edges(*old(g)).len(),
    ensures
        graph_edges(*final(g)) == graph_edges(*old(g)).update(
            e as int,
            weight_entry(graph_edges(*old(g))[e as int].0, graph_edges(*old(g))[e as int].1, w),
        ),
        graph_nodes(*final(g)) == graph_nodes(*old(g)),
{
    if let Some(x) = g.edge_weight_mut(petgraph::graph::EdgeIndex::new(e as usize)) {
        *x = w;
    }
}

/// Indexing a graph by a node index: the node's name.
#[verifier::external_body]
fn node_weight(g: &petgraph::graph::Graph<String, EdgeWeight, petgraph::Directed, u32>, i: u32) -> (s: &String)
    requires
        i < graph_nodes(*g).len(),
    ensures
        s@ == graph_nodes(*g)[i as int],
{
    &g[petgraph::graph::NodeIndex::new(i as usize)]
}

/// `Graph::node_count`.
#[verifier::external_body]
fn node_count(g: &petgraph::graph::Graph<String, EdgeWeight, petgraph::Directed, u32>) -> (n: usize)
    ensures
        n == graph_nodes(*g).len(),
{
    g.node_count()
}

/// `Graph::edge_count`.
#[verifier::external_body]
fn edge_count(g: &petgraph::graph::Graph<String, EdgeWeight, petgraph::Directed, u32>) -> (n: usize)
    ensures
        n == graph_edges(*g).len(),
{
    g.edge_count()
}

/// `Graph::edge_endpoints`: the source and target of an edge.
#[verifier::external_body]
fn edge_endpoints(g: &petgraph::graph::Graph<String, EdgeWeight, petgraph::Directed, u32>, e: u32) -> (r: (u32, u32))
    requires
        e < graph_edges(*g).len(),
    ensures
        r.0 == graph_edges(*g)[e as int].0,
        r.1 == graph_edges(*g)[e as int].1,
{
    let (a, b) = g.edge_endpoints(petgraph::graph::EdgeIndex::new(e as usize)).unwrap();
    (a.index() as u32, b.index() as u32)
}

/// `Graph::edges`, each edge taken by its index: the edges that leave
/// node `n`, each once.
#[verifier::external_body]
fn outgoing_edges(g: &petgraph::graph::Graph<String, EdgeWeight, petgraph::Directed, u32>, n: u32) -> (r: Vec<u32>)
    ensures
        r@.no_duplicates(),
        forall|e: u32| #[trigger]
            r@.contains(e) <==> (e < graph_edges(*g).len() && graph_edges(*g)[e as int].0 == n),
{
    let mut ids = Vec::new();
    for e in g.edges(petgraph::graph::NodeIndex::new(n as usize)) {
        ids.push(e.id().index() as u32);
    }
    ids
}

/// `Graph::edges_directed` with `Direction::Incoming`, each edge taken by
/// its index: the edges that reach node `n`, each once.
#[verifier::external_body]
fn incoming_edges(g: &petgraph::graph::Graph<String, EdgeWeight, petgraph::Directed, u32>, n: u32) -> (r: Vec<u32>)
    ensures
        r@.no_duplicates(),
        forall|e: u32| #[trigger]
            r@.contains(e) <==> (e < graph_edges(*g).len() && graph_edges(*g)[e as int].1 == n),
{
    let mut ids = Vec::new();
    for e in g.edges_directed(petgraph::graph::NodeIndex::new(n as usize), petgraph::Direction::Incoming) {
        ids.push(e.id().index() as u32);
    }
    ids
}


// ---------------------------------------------------------------------------
// The model
// ---------------------------------------------------------------------------

/// An edge of the model: source index, target index, the names of the node
/// left and the node reached, flow, blocked count, total duration.
pub type EdgeEntry = (nat, nat, Seq<char>, Seq<char>, u64, u64, u64);

/// The value of a track graph: node names by index, edges by index, and
/// the last node each vehicle was seen moving to (one entry per vehicle,
/// in the order vehicles first appeared).
pub struct TrackView {
    pub nodes: Seq<Seq<char>>,
    pub edges: Seq<EdgeEntry>,
    pub positions: Seq<(Seq<char>, Seq<char>)>,
}

pub open spec fn pairs_of(v: Seq<(String, String)>) -> Seq<(Seq<char>, Seq<char>)> {
    v.map_values(|p: (String, String)| (p.0@, p.1@))
}

/// The sum of the flows of the edges.
pub open spec fn total_flow(edges: Seq<EdgeEntry>) -> nat
    decreases edges.len(),
{
    if edges.len() == 0 {
        0
    } else {
        total_flow(edges.drop_last()) + edges.last().4 as nat
    }
}

/// The sum of the blocked counts of the edges.
pub open spec fn total_blocked(edges: Seq<EdgeEntry>) -> nat
    decreases edges.len(),
{
    if edges.len() == 0 {
        0
    } else {
        total_blocked(edges.drop_last()) + edges.last().5 as nat
    }
}

/// No two entries share a key.
pub open spec fn unique_keys(p: Seq<(Seq<char>, Seq<char>)>) -> bool {
    forall|i: int, j: int| 0 <= i < p.len() && 0 <= j < p.len() && i != j ==> p[i].0 != p[j].0
}

pub open spec fn model_wf(v: TrackView) -> bool {
    &&& v.nodes.no_duplicates()
    &&& v.nodes.len() < u32::MAX
    &&& v.edges.len() < u32::MAX
    &&& forall|k: int|
        0 <= k < v.edges.len() ==> {
            let e = #[trigger] v.edges[k];
            &&& e.0 < v.nodes.len()
            &&& e.1 < v.nodes.len()
            &&& e.2 == v.nodes[e.0 as int]
            &&& e.3 == v.nodes[e.1 as int]
            &&& e.5 <= e.4
        }
    &&& forall|k1: int, k2: int|
        0 <= k1 < v.edges.len() && 0 <= k2 < v.edges.len() && k1 != k2 ==> !(
        #[trigger] v.edges[k1].0 == #[trigger] v.edges[k2].0 && v.edges[k1].1 == v.edges[k2].1)
    &&& total_flow(v.edges) <= u64::MAX
    &&& unique_keys(v.positions)
}

/// The index of a node name.
pub open spec fn node_index(nodes: Seq<Seq<char>>, name: Seq<char>) -> int {
    choose|i: int| 0 <= i < nodes.len() && nodes[i] == name
}

/// The node list with `name` added where it is missing.
pub open spec fn with_node(nodes: Seq<Seq<char>>, name: Seq<char>) -> Seq<Seq<char>> {
    if nodes.contains(name) {
        nodes
    } else {
        nodes.push(name)
    }
}

/// The index of the edge from `a` to `b`, if there is one.
pub open spec fn edge_index(edges: Seq<EdgeEntry>, a: nat, b: nat) -> Option<int> {
    if exists|k: int| 0 <= k < edges.len() && edges[k].0 == a && edges[k].1 == b {
        Some(choose|k: int| 0 <= k < edges.len() && edges[k].0 == a && edges[k].1 == b)
    } else {
        None
    }
}

pub open spec fn blocked_one(e: EventView) -> u64 {
    if e.event_type == MoveEventType::Blocked {
        1
    } else {
        0
    }
}

/// The edges once the event is counted on the edge from `a` to `b`: one
/// more movement, blocked or not, and its duration; a new edge where
/// there was none.
pub open spec fn counted_edges(edges: Seq<EdgeEntry>, a: nat, b: nat, e: EventView) -> Seq<EdgeEntry> {
    match edge_index(edges, a, b) {
        Some(k) => edges.update(
            k,
            (
                a,
                b,
                edges[k].2,
                edges[k].3,
                (edges[k].4 + 1) as u64,
                (edges[k].5 + blocked_one(e)) as u64,
                (edges[k].6 + e.duration_ms) as u64,
            ),
        ),
        None => edges.push((a, b, e.from_node, e.to_node, 1u64, blocked_one(e), e.duration_ms)),
    }
}

/// The positions once vehicle `oht` was seen moving to `node`.
pub open spec fn with_position(p: Seq<(Seq<char>, Seq<char>)>, oht: Seq<char>, node: Seq<char>) -> Seq<
    (Seq<char>, Seq<char>),
> {
    if exists|i: int| 0 <= i < p.len() && p[i].0 == oht {
        p.update(choose|i: int| 0 <= i < p.len() && p[i].0 == oht, (oht, node))
    } else {
        p.push((oht, node))
    }
}

/// The graph once one event is recorded.
pub open spec fn record_event(v: TrackView, e: EventView) -> TrackView {
    let nodes = with_node(with_node(v.nodes, e.from_node), e.to_node);
    TrackView {
        nodes,
        edges: counted_edges(
            v.edges,
            node_index(nodes, e.from_node) as nat,
            node_index(nodes, e.to_node) as nat,
            e,
        ),
        positions: with_position(v.positions, e.oht_id, e.to_node),
    }
}

/// The graph once the events are recorded in order.
pub open spec fn record_events(v: TrackView, es: Seq<EventView>) -> TrackView
    decreases es.len(),
{
    if es.len() == 0 {
        v
    } else {
        record_event(record_events(v, es.drop_last()), es.last())
    }
}

/// The total duration of the edge that leads from the node named `from`
/// to the node named `to` (0 where there is none).
pub open spec fn pair_duration(edges: Seq<EdgeEntry>, from: Seq<char>, to: Seq<char>) -> nat {
    if exists|k: int| 0 <= k < edges.len() && edges[k].2 == from && edges[k].3 == to {
        edges[choose|k: int| 0 <= k < edges.len() && edges[k].2 == from && edges[k].3 == to].6 as nat
    } else {
        0
    }
}

/// The summed duration of the events from `from` to `to`.
pub open spec fn events_pair_duration(es: Seq<EventView>, from: Seq<char>, to: Seq<char>) -> nat
    decreases es.len(),
{
    if es.len() == 0 {
        0
    } else {
        events_pair_duration(es.drop_last(), from, to) + if es.last().from_node == from
            && es.last().to_node == to {
            es.last().duration_ms as nat
        } else {
            0
        }
    }
}

/// Recording the events keeps every edge's total duration within `u64`.
pub open spec fn durations_fit(v: TrackView, es: Seq<EventView>) -> bool {
    forall|i: int|
        0 <= i < es.len() ==> pair_duration(v.edges, es[i].from_node, es[i].to_node)
            + events_pair_duration(es, es[i].from_node, es[i].to_node) <= u64::MAX
}

/// The number of events of the given kind.
pub open spec fn count_kind(es: Seq<EventView>, t: MoveEventType) -> nat
    decreases es.len(),
{
    if es.len() == 0 {
        0
    } else {
        count_kind(es.drop_last(), t) + if es.last().event_type == t {
            1nat
        } else {
            0nat
        }
    }
}

/// The node names an edge joins.
pub open spec fn named_pair(e: EdgeEntry) -> (Seq<char>, Seq<char>) {
    (e.2, e.3)
}

/// The pairs of node names the edges join.
pub open spec fn edge_pairs(edges: Seq<EdgeEntry>) -> Set<(Seq<char>, Seq<char>)> {
    edges.map_values(|e: EdgeEntry| named_pair(e)).to_set()
}

/// The pairs of node names the events travel between.
pub open spec fn event_pairs(es: Seq<EventView>) -> Set<(Seq<char>, Seq<char>)> {
    es.map_values(|e: EventView| (e.from_node, e.to_node)).to_set()
}

/// The graph's counts.
#[derive(Debug)]
pub struct GraphStats {
    pub node_count: usize,
    pub edge_count: usize,
    pub total_flow: u64,
    pub total_blocked: u64,
    pub unique_ohts: usize,
}

/// The movements of the recorded events between track nodes.
pub struct TrackGraph {
    graph: petgraph::graph::Graph<String, EdgeWeight, petgraph::Directed, u32>,
    node_names: Vec<String>,
    node_index: NameIndex,
    oht_positions: Vec<(String, String)>,
    oht_index: NameIndex,
}

impl View for TrackGraph {
    type V = TrackView;

    closed spec fn view(&self) -> TrackView {
        TrackView {
            nodes: graph_nodes(self.graph),
            edges: graph_edges(self.graph),
            positions: pairs_of(self.oht_positions@),
        }
    }
}

proof fn lemma_total_blocked_le(edges: Seq<EdgeEntry>)
    requires
        forall|k: int| 0 <= k < edges.len() ==> (#[trigger] edges[k]).5 <= edges[k].4,
    ensures
        total_blocked(edges) <= total_flow(edges),
    decreases edges.len(),
{
    if edges.len() > 0 {
        lemma_total_blocked_le(edges.drop_last());
        assert(edges.last() == edges[edges.len() - 1]);
    }
}

impl TrackGraph {
    /// The graph is well formed: its name list mirrors the graph's nodes,
    /// names are distinct, edges join existing nodes and carry their names,
    /// no two edges join the same pair, counts fit their types.
    pub closed spec fn wf(&self) -> bool {
        &&& names_of(self.node_names@) == graph_nodes(self.graph)
        &&& self.node_index.indexes(names_of(self.node_names@))
        &&& self.oht_index.indexes(first_names(self.oht_positions@))
        &&& model_wf(self@)
    }

    /// An empty graph.
    pub fn new() -> (g: Self)
        ensures
            g.wf(),
            g@ == (TrackView { nodes: seq![], edges: seq![], positions: seq![] }),
    {
        let g = TrackGraph {
            graph: new_graph(),
            node_names: Vec::new(),
            node_index: NameIndex::new(),
            oht_positions: Vec::new(),
            oht_index: NameIndex::new(),
        };
        assert(names_of(g.node_names@) =~= seq![]);
        assert(first_names(g.oht_positions@) =~= seq![]);
        assert(pairs_of(g.oht_positions@) =~= seq![]);
        g
    }

    /// The graph's counts: nodes, edges, summed flows and blocked counts,
    /// vehicles seen.
    pub fn graph_stats(&self) -> (s: GraphStats)
        requires
            self.wf(),
        ensures
            s.node_count == self@.nodes.len(),
            s.edge_count == self@.edges.len(),
            s.total_flow == total_flow(self@.edges),
            s.total_blocked == total_blocked(self@.edges),
            s.unique_ohts == self@.positions.len(),
            s.total_blocked <= s.total_flow,
    {
        let n = edge_count(&self.graph);
        let mut flow: u64 = 0;
        let mut blocked: u64 = 0;
        let mut e: usize = 0;
        proof {
            lemma_total_blocked_le(self@.edges);
        }
        while e < n
            invariant
                self.wf(),
                n == self@.edges.len(),
                e <= n,
                flow == total_flow(self@.edges.take(e as int)),
                blocked == total_blocked(self@.edges.take(e as int)),
            decreases n - e,
        {
            let ghost pre = self@.edges.take(e as int);
            let ghost post = self@.edges.take(e + 1);
            proof {
                assert(post.drop_last() =~= pre);
                lemma_total_prefix(self@.edges, e + 1);
                lemma_total_blocked_le(post);
                assert forall|k: int| 0 <= k < post.len() implies (#[trigger] post[k]).5 <= post[k].4 by {
                    assert(post[k] == self@.edges[k]);
                }
                assert(post.last() == self@.edges[e as int]);
            }
            let w = edge_weight(&self.graph, e as u32);
            assert(w.flow_count == self@.edges[e as int].4);
            flow = flow + w.flow_count;
            blocked = blocked + w.blocked_count;
            e = e + 1;
        }
        proof {
            assert(self@.edges.take(n as int) =~= self@.edges);
        }
        GraphStats {
            node_count: node_count(&self.graph),
            edge_count: n,
            total_flow: flow,
            total_blocked: blocked,
            unique_ohts: self.oht_positions.len(),
        }
    }
}

proof fn lemma_total_prefix(edges: Seq<EdgeEntry>, i: int)
    requires
        0 <= i <= edges.len(),
    ensures
        total_flow(edges.take(i)) <= total_flow(edges),
    decreases edges.len(),
{
    if i < edges.len() {
        assert(edges.drop_last().take(i) =~= edges.take(i));
        lemma_total_prefix(edges.drop_last(), i);
    } else {
        assert(edges.take(i) =~= edges);
    }
}

// ---------------------------------------------------------------------------
// Recording events
// ---------------------------------------------------------------------------

proof fn lemma_node_index(nodes: Seq<Seq<char>>, i: int)
    requires
        nodes.no_duplicates(),
        0 <= i < nodes.len(),
    ensures
        node_index(nodes, nodes[i]) == i,
{
    let c = node_index(nodes, nodes[i]);
    assert(0 <= c < nodes.len() && nodes[c] == nodes[i]);
}

proof fn lemma_total_flow_update(s: Seq<EdgeEntry>, k: int, x: EdgeEntry)
    requires
        0 <= k < s.len(),
    ensures
        total_flow(s.update(k, x)) == total_flow(s) - s[k].4 + x.4,
        total_blocked(s.update(k, x)) == total_blocked(s) - s[k].5 + x.5,
    decreases s.len(),
{
    if k == s.len() - 1 {
        assert(s.update(k, x).drop_last() =~= s.drop_last());
    } else {
        assert(s.update(k, x).drop_last() =~= s.drop_last().update(k, x));
        lemma_total_flow_update(s.drop_last(), k, x);
    }
}

proof fn lemma_flow_le_total(s: Seq<EdgeEntry>, k: int)
    requires
        0 <= k < s.len(),
    ensures
        s[k].4 <= total_flow(s),
    decreases s.len(),
{
    if k < s.len() - 1 {
        lemma_flow_le_total(s.drop_last(), k);
        assert(s.drop_last()[k] == s[k]);
    }
}

proof fn lemma_total_flow_push(s: Seq<EdgeEntry>, x: EdgeEntry)
    ensures
        total_flow(s.push(x)) == total_flow(s) + x.4,
        total_blocked(s.push(x)) == total_blocked(s) + x.5,
{
    assert(s.push(x).drop_last() =~= s);
}

/// In a well-formed graph the edge between two named nodes is unique.
proof fn lemma_pair_unique(v: TrackView, k: int)
    requires
        model_wf(v),
        0 <= k < v.edges.len(),
    ensures
        pair_duration(v.edges, v.edges[k].2, v.edges[k].3) == v.edges[k].6,
{
    let f = v.edges[k].2;
    let t = v.edges[k].3;
    let c = choose|c: int| 0 <= c < v.edges.len() && v.edges[c].2 == f && v.edges[c].3 == t;
    assert(0 <= c < v.edges.len() && v.edges[c].2 == f && v.edges[c].3 == t);
    let ec = v.edges[c];
    let ek = v.edges[k];
    assert(v.nodes[ec.0 as int] == v.nodes[ek.0 as int]);
    assert(v.nodes[ec.1 as int] == v.nodes[ek.1 as int]);
    assert(ec.0 == ek.0);
    assert(ec.1 == ek.1);
}

/// No edge of a well-formed graph joins the named nodes where there is no
/// edge between their indices.
proof fn lemma_no_pair(v: TrackView, a: int, b: int, f: Seq<char>, t: Seq<char>)
    requires
        model_wf(v),
        0 <= a < v.nodes.len(),
        0 <= b < v.nodes.len(),
        v.nodes[a] == f,
        v.nodes[b] == t,
        forall|k: int| 0 <= k < v.edges.len() ==> !(#[trigger] v.edges[k].0 == a && v.edges[k].1 == b),
    ensures
        pair_duration(v.edges, f, t) == 0,
        forall|k: int| 0 <= k < v.edges.len() ==> !(#[trigger] v.edges[k].2 == f && v.edges[k].3 == t),
{
    assert forall|k: int| 0 <= k < v.edges.len() implies !(#[trigger] v.edges[k].2 == f && v.edges[k].3
        == t) by {
        let e = v.edges[k];
        if e.2 == f && e.3 == t {
            assert(v.nodes[e.0 as int] == v.nodes[a]);
            assert(v.nodes[e.1 as int] == v.nodes[b]);
        }
    }
}

/// What recording one event does to the well-formedness, the sizes, the
/// summed flow and blocked count, and the per-pair durations.
proof fn lemma_counted_edges(v: TrackView, e: EventView, nodes: Seq<Seq<char>>)
    requires
        model_wf(v),
        nodes.no_duplicates(),
        nodes.len() < u32::MAX,
        v.nodes.is_prefix_of(nodes),
        nodes.contains(e.from_node),
        nodes.contains(e.to_node),
        v.edges.len() + 1 < u32::MAX,
        total_flow(v.edges) + 1 <= u64::MAX,
        pair_duration(v.edges, e.from_node, e.to_node) + e.duration_ms <= u64::MAX,
    ensures
        ({
            let a = node_index(nodes, e.from_node) as nat;
            let b = node_index(nodes, e.to_node) as nat;
            let w = TrackView {
                nodes,
                edges: counted_edges(v.edges, a, b, e),
                positions: v.positions,
            };
            &&& model_wf(w)
            &&& w.edges.len() <= v.edges.len() + 1
            &&& total_flow(w.edges) == total_flow(v.edges) + 1
            &&& total_blocked(w.edges) == total_blocked(v.edges) + blocked_one(e)
            &&& forall|f: Seq<char>, t: Seq<char>|
                #[trigger] pair_duration(w.edges, f, t) == pair_duration(v.edges, f, t) + if f
                    == e.from_node && t == e.to_node {
                    e.duration_ms as nat
                } else {
                    0
                }
        }),
{
    let a = node_index(nodes, e.from_node);
    let b = node_index(nodes, e.to_node);
    assert(0 <= a < nodes.len() && nodes[a] == e.from_node);
    assert(0 <= b < nodes.len() && nodes[b] == e.to_node);
    let w = TrackView {
        nodes,
        edges: counted_edges(v.edges, a as nat, b as nat, e),
        positions: v.positions,
    };
    // the old edges keep their names in the longer node list
    assert forall|k: int| 0 <= k < v.edges.len() implies nodes[(#[trigger] v.edges[k]).0 as int]
        == v.nodes[v.edges[k].0 as int] && nodes[v.edges[k].1 as int] == v.nodes[v.edges[k].1 as int] by {
        assert(v.nodes.is_prefix_of(nodes));
    }
    let vv = TrackView { nodes, edges: v.edges, positions: v.positions };
    assert(model_wf(vv)) by {
        assert forall|k: int| 0 <= k < vv.edges.len() implies {
            let x = #[trigger] vv.edges[k];
            &&& x.0 < vv.nodes.len()
            &&& x.1 < vv.nodes.len()
            &&& x.2 == vv.nodes[x.0 as int]
            &&& x.3 == vv.nodes[x.1 as int]
            &&& x.5 <= x.4
        } by {
            assert(nodes[v.edges[k].0 as int] == v.nodes[v.edges[k].0 as int]);
        }
    }
    match edge_index(v.edges, a as nat, b as nat) {
        Some(k) => {
            assert(0 <= k < v.edges.len() && v.edges[k].0 == a && v.edges[k].1 == b);
            let x = w.edges[k];
            lemma_flow_le_total(v.edges, k);
            lemma_total_flow_update(v.edges, k, x);
            assert(v.edges[k].2 == e.from_node && v.edges[k].3 == e.to_node) by {
                assert(vv.edges[k].2 == nodes[a]);
                assert(vv.edges[k].3 == nodes[b]);
            }
            assert forall|j: int| 0 <= j < w.edges.len() implies {
                let y = #[trigger] w.edges[j];
                &&& y.0 < w.nodes.len()
                &&& y.1 < w.nodes.len()
                &&& y.2 == w.nodes[y.0 as int]
                &&& y.3 == w.nodes[y.1 as int]
                &&& y.5 <= y.4
            } by {
                if j != k {
                    assert(w.edges[j] == vv.edges[j]);
                } else {
                    assert(vv.edges[k].5 <= vv.edges[k].4);
                }
            }
            assert(total_flow(w.edges) <= u64::MAX);
            lemma_pair_unique(vv, k);
            assert forall|k1: int, k2: int|
                0 <= k1 < w.edges.len() && 0 <= k2 < w.edges.len() && k1 != k2 implies !(
            #[trigger] w.edges[k1].0 == #[trigger] w.edges[k2].0 && w.edges[k1].1 == w.edges[k2].1) by {
                assert(w.edges[k1].0 == vv.edges[k1].0 && w.edges[k1].1 == vv.edges[k1].1);
                assert(w.edges[k2].0 == vv.edges[k2].0 && w.edges[k2].1 == vv.edges[k2].1);
            }
            assert(model_wf(w));
            assert forall|f: Seq<char>, t: Seq<char>|
                #[trigger] pair_duration(w.edges, f, t) == pair_duration(v.edges, f, t) + if f
                    == e.from_node && t == e.to_node {
                    e.duration_ms as nat
                } else {
                    0
                } by {
                if f == e.from_node && t == e.to_node {
                    lemma_pair_unique(w, k);
                } else {
                    if exists|c: int| 0 <= c < v.edges.len() && v.edges[c].2 == f && v.edges[c].3 == t {
                        let c = choose|c: int|
                            0 <= c < v.edges.len() && v.edges[c].2 == f && v.edges[c].3 == t;
                        lemma_pair_unique(vv, c);
                        assert(c != k);
                        assert(w.edges[c] == v.edges[c]);
                        lemma_pair_unique(w, c);
                    } else {
                        assert forall|c: int| 0 <= c < w.edges.len() implies !(w.edges[c].2 == f
                            && w.edges[c].3 == t) by {
                            if c != k {
                                assert(w.edges[c] == v.edges[c]);
                            }
                        }
                    }
                }
            }
        },
        None => {
            let x: EdgeEntry = (a as nat, b as nat, e.from_node, e.to_node, 1u64, blocked_one(e), e.duration_ms);
            lemma_total_flow_push(v.edges, x);
            assert(forall|k: int| 0 <= k < v.edges.len() ==> !(#[trigger] v.edges[k].0 == a && v.edges[k].1 == b));
            lemma_no_pair(vv, a, b, e.from_node, e.to_node);
            assert(w.edges[v.edges.len() as int] == x);
            assert forall|k1: int, k2: int|
                0 <= k1 < w.edges.len() && 0 <= k2 < w.edges.len() && k1 != k2 implies !(
            #[trigger] w.edges[k1].0 == #[trigger] w.edges[k2].0 && w.edges[k1].1 == w.edges[k2].1) by {
                if k1 < v.edges.len() && k2 < v.edges.len() {
                    assert(w.edges[k1] == v.edges[k1] && w.edges[k2] == v.edges[k2]);
                } else if k1 < v.edges.len() {
                    assert(w.edges[k1] == v.edges[k1]);
                } else {
                    assert(w.edges[k2] == v.edges[k2]);
                }
            }
            assert(model_wf(w));
            assert forall|f: Seq<char>, t: Seq<char>|
                #[trigger] pair_duration(w.edges, f, t) == pair_duration(v.edges, f, t) + if f
                    == e.from_node && t == e.to_node {
                    e.duration_ms as nat
                } else {
                    0
                } by {
                if f == e.from_node && t == e.to_node {
                    lemma_pair_unique(w, v.edges.len() as int);
                } else {
                    if exists|c: int| 0 <= c < v.edges.len() && v.edges[c].2 == f && v.edges[c].3 == t {
                        let c = choose|c: int|
                            0 <= c < v.edges.len() && v.edges[c].2 == f && v.edges[c].3 == t;
                        lemma_pair_unique(vv, c);
                        assert(w.edges[c] == v.edges[c]);
                        lemma_pair_unique(w, c);
                    } else {
                        assert forall|c: int| 0 <= c < w.edges.len() implies !(w.edges[c].2 == f
                            && w.edges[c].3 == t) by {
                            if c < v.edges.len() {
                                assert(w.edges[c] == v.edges[c]);
                            }
                        }
                    }
                }
            }
        },
    }
}

/// In a well-formed graph no two edges join the same pair of names, so
/// there are as many edges as pairs.
proof fn lemma_edge_pairs_len(v: TrackView)
    requires
        model_wf(v),
    ensures
        v.edges.map_values(|e: EdgeEntry| named_pair(e)).no_duplicates(),
        edge_pairs(v.edges).len() == v.edges.len(),
{
    let ps = v.edges.map_values(|e: EdgeEntry| named_pair(e));
    assert forall|i: int, j: int| 0 <= i < ps.len() && 0 <= j < ps.len() && i != j implies ps[i] != ps[j] by {
        let a = v.edges[i];
        let b = v.edges[j];
        if ps[i] == ps[j] {
            assert(v.nodes[a.0 as int] == v.nodes[b.0 as int]);
            assert(v.nodes[a.1 as int] == v.nodes[b.1 as int]);
            assert(a.0 == b.0);
            assert(a.1 == b.1);
        }
    }
    ps.unique_seq_to_set();
}

/// Counting an event on the edge between its nodes adds its pair of names
/// to the edges' pairs.
proof fn lemma_counted_pairs(v: TrackView, e: EventView)
    requires
        model_wf(v),
        v.nodes.contains(e.from_node),
        v.nodes.contains(e.to_node),
    ensures
        edge_pairs(
            counted_edges(v.edges, node_index(v.nodes, e.from_node) as nat, node_index(v.nodes, e.to_node) as nat, e),
        ) == edge_pairs(v.edges).insert((e.from_node, e.to_node)),
{
    let a = node_index(v.nodes, e.from_node);
    let b = node_index(v.nodes, e.to_node);
    assert(0 <= a < v.nodes.len() && v.nodes[a] == e.from_node);
    assert(0 <= b < v.nodes.len() && v.nodes[b] == e.to_node);
    let w = counted_edges(v.edges, a as nat, b as nat, e);
    let ps = v.edges.map_values(|x: EdgeEntry| named_pair(x));
    let qs = w.map_values(|x: EdgeEntry| named_pair(x));
    match edge_index(v.edges, a as nat, b as nat) {
        Some(k) => {
            assert(0 <= k < v.edges.len() && v.edges[k].0 == a && v.edges[k].1 == b);
            assert(qs =~= ps);
            assert(ps[k] == (e.from_node, e.to_node));
            assert(ps.to_set().insert((e.from_node, e.to_node)) =~= ps.to_set());
        },
        None => {
            assert(qs =~= ps.push((e.from_node, e.to_node)));
            ps.lemma_push_to_set_commute((e.from_node, e.to_node));
        },
    }
}

/// The pairs of names of events, one event more.
proof fn lemma_event_pairs_step(es: Seq<EventView>)
    requires
        es.len() > 0,
    ensures
        event_pairs(es) == event_pairs(es.drop_last()).insert((es.last().from_node, es.last().to_node)),
{
    let f = |e: EventView| (e.from_node, e.to_node);
    assert(es.map_values(f) =~= es.drop_last().map_values(f).push(f(es.last())));
    es.drop_last().map_values(f).lemma_push_to_set_commute(f(es.last()));
}

proof fn lemma_events_pair_prefix(es: Seq<EventView>, j: int, f: Seq<char>, t: Seq<char>)
    requires
        0 <= j <= es.len(),
    ensures
        events_pair_duration(es.take(j), f, t) <= events_pair_duration(es, f, t),
    decreases es.len(),
{
    if j < es.len() {
        assert(es.drop_last().take(j) =~= es.take(j));
        lemma_events_pair_prefix(es.drop_last(), j, f, t);
    } else {
        assert(es.take(j) =~= es);
    }
}

impl TrackGraph {
    /// The index of the node with the given name.
    fn find_node(&self, name: &String) -> (r: Option<u32>)
        requires
            self.wf(),
        ensures
            match r {
                Some(i) => i < self@.nodes.len() && self@.nodes[i as int] == name@,
                None => !self@.nodes.contains(name@),
            },
    {
        match self.node_index.find(&self.node_names, name) {
            Some(i) => {
                assert(self@.nodes[i as int] == self.node_names@[i as int]@);
                Some(i as u32)
            },
            None => None,
        }
    }

    /// Adds a node of the given name where there is none.
    fn ensure_node(&mut self, name: &String)
        requires
            old(self).wf(),
            with_node(old(self)@.nodes, name@).len() + 1 < u32::MAX,
        ensures
            final(self).wf(),
            final(self)@ == (TrackView { nodes: with_node(old(self)@.nodes, name@), ..old(self)@ }),
    {
        match self.find_node(name) {
            Some(_) => {},
            None => {
                let ghost old_nodes = self@.nodes;
                add_node(&mut self.graph, name.clone());
                let len = self.node_names.len();
                self.node_index.add(name, len, Ghost(old_nodes));
                self.node_names.push(name.clone());
                assert(names_of(self.node_names@) =~= old_nodes.push(name@));
                assert forall|i: int, j: int|
                    0 <= i < self@.nodes.len() && 0 <= j < self@.nodes.len() && i != j implies self@.nodes[i]
                    != self@.nodes[j] by {
                    if i < old_nodes.len() && j < old_nodes.len() {
                    } else if i < old_nodes.len() {
                        assert(old_nodes.contains(old_nodes[i]));
                    } else {
                        assert(old_nodes.contains(old_nodes[j]));
                    }
                }
                assert forall|k: int| 0 <= k < self@.edges.len() implies {
                    let e = #[trigger] self@.edges[k];
                    &&& e.0 < self@.nodes.len()
                    &&& e.1 < self@.nodes.len()
                    &&& e.2 == self@.nodes[e.0 as int]
                    &&& e.3 == self@.nodes[e.1 as int]
                    &&& e.5 <= e.4
                } by {
                    assert(self@.edges[k] == old(self)@.edges[k]);
                }
            },
        }
    }

    /// Counts the event on the edge between its two (existing) nodes.
    fn update_edge(&mut self, evt: &OhtMoveEvent)
        requires
            old(self).wf(),
            old(self)@.nodes.contains(evt.from_node@),
            old(self)@.nodes.contains(evt.to_node@),
            old(self)@.edges.len() + 1 < u32::MAX,
            total_flow(old(self)@.edges) + 1 <= u64::MAX,
            pair_duration(old(self)@.edges, evt.from_node@, evt.to_node@) + evt.duration_ms <= u64::MAX,
        ensures
            final(self).wf(),
            final(self)@ == (TrackView {
                edges: counted_edges(
                    old(self)@.edges,
                    node_index(old(self)@.nodes, evt.from_node@) as nat,
                    node_index(old(self)@.nodes, evt.to_node@) as nat,
                    evt@,
                ),
                ..old(self)@
            }),
    {
        let ghost v = self@;
        let a = match self.find_node(&evt.from_node) {
            Some(i) => i,
            None => {
                return ;
            },
        };
        let b = match self.find_node(&evt.to_node) {
            Some(i) => i,
            None => {
                return ;
            },
        };
        proof {
            lemma_node_index(v.nodes, a as int);
            lemma_node_index(v.nodes, b as int);
            lemma_counted_edges(v, evt@, v.nodes);
        }
        let blocked = evt.event_type == MoveEventType::Blocked;
        match find_edge(&self.graph, a, b) {
            Some(e) => {
                proof {
                    let k = choose|k: int| 0 <= k < v.edges.len() && v.edges[k].0 == a && v.edges[k].1 == b;
                    assert(k == e as int);
                    lemma_flow_le_total(v.edges, e as int);
                    lemma_pair_unique(v, e as int);
                }
                let w = edge_weight(&self.graph, e);
                let nw = EdgeWeight {
                    from_node: w.from_node.clone(),
                    to_node: w.to_node.clone(),
                    flow_count: w.flow_count + 1,
                    blocked_count: if blocked {
                        w.blocked_count + 1
                    } else {
                        w.blocked_count
                    },
                    total_duration_ms: w.total_duration_ms + evt.duration_ms,
                };
                set_edge_weight(&mut self.graph, e, nw);
                assert(self@.edges =~= counted_edges(v.edges, a as nat, b as nat, evt@));
            },
            None => {
                let nw = EdgeWeight {
                    from_node: evt.from_node.clone(),
                    to_node: evt.to_node.clone(),
                    flow_count: 1,
                    blocked_count: if blocked {
                        1
                    } else {
                        0
                    },
                    total_duration_ms: evt.duration_ms,
                };
                add_edge(&mut self.graph, a, b, nw);
                assert(self@.edges =~= counted_edges(v.edges, a as nat, b as nat, evt@));
            },
        }
    }

    /// Records the vehicle's latest node.
    fn set_position(&mut self, oht: &String, node: &String)
        requires
            old(self).wf(),
        ensures
            final(self).wf(),
            final(self)@ == (TrackView {
                positions: with_position(old(self)@.positions, oht@, node@),
                ..old(self)@
            }),
    {
        let ghost p = self@.positions;
        let ghost keys = first_names(self.oht_positions@);
        assert forall|j: int| 0 <= j < p.len() implies #[trigger] p[j].0 == keys[j] by {
            assert(p[j].0 == self.oht_positions@[j].0@);
        }
        match self.oht_index.find_first(&self.oht_positions, oht) {
            Some(i) => {
                self.oht_positions.set(i, (oht.clone(), node.clone()));
                proof {
                    let c = choose|c: int| 0 <= c < p.len() && p[c].0 == oht@;
                    assert(p[i as int].0 == oht@);
                    assert(c == i as int);
                    assert(pairs_of(self.oht_positions@) =~= p.update(i as int, (oht@, node@)));
                    assert(first_names(self.oht_positions@) =~= keys);
                    assert(unique_keys(self@.positions)) by {
                        assert forall|x: int, y: int|
                            0 <= x < self@.positions.len() && 0 <= y < self@.positions.len() && x
                                != y implies self@.positions[x].0 != self@.positions[y].0 by {
                            assert(self@.positions[x].0 == p[x].0);
                            assert(self@.positions[y].0 == p[y].0);
                        }
                    }
                }
            },
            None => {
                let len = self.oht_positions.len();
                self.oht_index.add(oht, len, Ghost(keys));
                self.oht_positions.push((oht.clone(), node.clone()));
                proof {
                    assert(first_names(self.oht_positions@) =~= keys.push(oht@));
                    assert(pairs_of(self.oht_positions@) =~= p.push((oht@, node@)));
                    assert forall|j: int| 0 <= j < p.len() implies p[j].0 != oht@ by {
                        assert(keys[j] == p[j].0);
                    }
                    assert(unique_keys(self@.positions)) by {
                        assert forall|x: int, y: int|
                            0 <= x < self@.positions.len() && 0 <= y < self@.positions.len() && x
                                != y implies self@.positions[x].0 != self@.positions[y].0 by {
                            if x < p.len() {
                                assert(self@.positions[x] == p[x]);
                            }
                            if y < p.len() {
                                assert(self@.positions[y] == p[y]);
                            }
                        }
                    }
                }
            },
        }
    }

    /// Records one event: both nodes, the movement on their edge, and
    /// the vehicle's position.
    fn record(&mut self, evt: &OhtMoveEvent)
        requires
            old(self).wf(),
            with_node(with_node(old(self)@.nodes, evt.from_node@), evt.to_node@).len() + 1 < u32::MAX,
            edge_pairs(old(self)@.edges).insert((evt.from_node@, evt.to_node@)).len() + 1 < u32::MAX,
            total_flow(old(self)@.edges) + 1 <= u64::MAX,
            pair_duration(old(self)@.edges, evt.from_node@, evt.to_node@) + evt.duration_ms <= u64::MAX,
        ensures
            final(self).wf(),
            final(self)@ == record_event(old(self)@, evt@),
            edge_pairs(final(self)@.edges) == edge_pairs(old(self)@.edges).insert((evt.from_node@, evt.to_node@)),
            total_flow(final(self)@.edges) == total_flow(old(self)@.edges) + 1,
            total_blocked(final(self)@.edges) == total_blocked(old(self)@.edges) + blocked_one(evt@),
            forall|f: Seq<char>, t: Seq<char>|
                #[trigger] pair_duration(final(self)@.edges, f, t) == pair_duration(old(self)@.edges, f, t)
                    + if f == evt.from_node@ && t == evt.to_node@ {
                    evt.duration_ms as nat
                } else {
                    0
                },
    {
        let ghost v = self@;
        proof {
            let n1 = with_node(v.nodes, evt.from_node@);
            assert(n1.len() <= with_node(n1, evt.to_node@).len());
            lemma_edge_pairs_len(v);
            let ps = edge_pairs(v.edges);
            assert(ps.finite());
            assert(ps.len() <= ps.insert((evt.from_node@, evt.to_node@)).len());
        }
        self.ensure_node(&evt.from_node);
        self.ensure_node(&evt.to_node);
        let ghost nodes = self@.nodes;
        proof {
            assert(v.nodes.is_prefix_of(nodes));
            assert(nodes.contains(evt.from_node@)) by {
                let n1 = with_node(v.nodes, evt.from_node@);
                if v.nodes.contains(evt.from_node@) {
                    let i = choose|i: int| 0 <= i < v.nodes.len() && v.nodes[i] == evt.from_node@;
                    assert(nodes[i] == evt.from_node@);
                } else {
                    assert(n1[v.nodes.len() as int] == evt.from_node@);
                    assert(nodes[v.nodes.len() as int] == evt.from_node@);
                }
            }
            assert(nodes.contains(evt.to_node@)) by {
                let n1 = with_node(v.nodes, evt.from_node@);
                if n1.contains(evt.to_node@) {
                    let i = choose|i: int| 0 <= i < n1.len() && n1[i] == evt.to_node@;
                    assert(nodes[i] == evt.to_node@);
                } else {
                    assert(nodes[n1.len() as int] == evt.to_node@);
                }
            }
            lemma_counted_edges(v, evt@, nodes);
        }
        let ghost mid = self@;
        proof {
            lemma_counted_pairs(mid, evt@);
        }
        self.update_edge(evt);
        self.set_position(&evt.oht_id, &evt.to_node);
    }

    /// Records the events in order: their nodes, the movements on each
    /// edge, and each vehicle's latest node.
    pub fn build_from_events(&mut self, events: &[OhtMoveEvent])
        requires
            old(self).wf(),
            old(self)@.nodes.to_set().union(track_nodes(events_view(events@))).len() + 1 < u32::MAX,
            edge_pairs(old(self)@.edges).union(event_pairs(events_view(events@))).len() + 1 < u32::MAX,
            total_flow(old(self)@.edges) + events@.len() <= u64::MAX,
            durations_fit(old(self)@, events_view(events@)),
        ensures
            final(self).wf(),
            final(self)@ == record_events(old(self)@, events_view(events@)),
            final(self)@.nodes.to_set() == old(self)@.nodes.to_set().union(track_nodes(events_view(events@))),
            edge_pairs(final(self)@.edges) == edge_pairs(old(self)@.edges).union(
                event_pairs(events_view(events@)),
            ),
            total_flow(final(self)@.edges) == total_flow(old(self)@.edges) + events@.len(),
            total_blocked(final(self)@.edges) == total_blocked(old(self)@.edges) + count_kind(
                events_view(events@),
                MoveEventType::Blocked,
            ),
    {
        let ghost v0 = self@;
        let ghost ev = events_view(events@);
        let ghost all_nodes = v0.nodes.to_set().union(track_nodes(ev));
        let ghost all_pairs = edge_pairs(v0.edges).union(event_pairs(ev));
        proof {
            lemma_track_nodes_finite(ev);
            assert(all_nodes.finite());
            assert(all_pairs.finite());
        }
        let n = events.len();
        let mut i: usize = 0;
        assert(ev.take(0) =~= seq![]);
        assert(track_nodes(ev.take(0)) =~= Set::empty());
        assert(event_pairs(ev.take(0)) =~= Set::empty());
        assert(v0.nodes.to_set().union(Set::empty()) =~= v0.nodes.to_set());
        assert(edge_pairs(v0.edges).union(Set::empty()) =~= edge_pairs(v0.edges));
        while i < n
            invariant
                self.wf(),
                n == events@.len(),
                ev == events_view(events@),
                ev.len() == n,
                i <= n,
                all_nodes == v0.nodes.to_set().union(track_nodes(ev)),
                all_pairs == edge_pairs(v0.edges).union(event_pairs(ev)),
                all_nodes.finite(),
                all_pairs.finite(),
                all_nodes.len() + 1 < u32::MAX,
                all_pairs.len() + 1 < u32::MAX,
                total_flow(v0.edges) + n <= u64::MAX,
                durations_fit(v0, ev),
                self@ == record_events(v0, ev.take(i as int)),
                self@.nodes.to_set() == v0.nodes.to_set().union(track_nodes(ev.take(i as int))),
                edge_pairs(self@.edges) == edge_pairs(v0.edges).union(event_pairs(ev.take(i as int))),
                total_flow(self@.edges) == total_flow(v0.edges) + i,
                total_blocked(self@.edges) == total_blocked(v0.edges) + count_kind(
                    ev.take(i as int),
                    MoveEventType::Blocked,
                ),
                forall|f: Seq<char>, t: Seq<char>|
                    #[trigger] pair_duration(self@.edges, f, t) == pair_duration(v0.edges, f, t)
                        + events_pair_duration(ev.take(i as int), f, t),
            decreases n - i,
        {
            let evt = &events[i];
            let ghost pre = ev.take(i as int);
            let ghost post = ev.take(i + 1);
            let ghost cur = self@;
            proof {
                assert(post.drop_last() =~= pre);
                assert(post.last() == evt@);
                assert(ev[i as int] == evt@);
                lemma_events_pair_prefix(ev, i + 1, evt.from_node@, evt.to_node@);
                assert(pair_duration(v0.edges, ev[i as int].from_node, ev[i as int].to_node)
                    + events_pair_duration(ev, ev[i as int].from_node, ev[i as int].to_node) <= u64::MAX);
                // the nodes and pairs after this event are among all of them
                let n1 = with_node(cur.nodes, evt.from_node@);
                let n2 = with_node(n1, evt.to_node@);
                lemma_with_node(cur.nodes, evt.from_node@);
                lemma_with_node(n1, evt.to_node@);
                lemma_track_nodes_step(post);
                assert(track_nodes(ev).contains(evt.from_node@) && track_nodes(ev).contains(evt.to_node@)) by {
                    assert(ev[i as int].from_node == evt.from_node@);
                }
                assert forall|x: Seq<char>| track_nodes(pre).contains(x) implies track_nodes(ev).contains(x) by {
                    let k = choose|k: int| 0 <= k < pre.len() && ((#[trigger] pre[k]).from_node == x || pre[k].to_node == x);
                    assert(ev[k] == pre[k]);
                }
                assert(n2.to_set().subset_of(all_nodes));
                vstd::set_lib::lemma_len_subset(n2.to_set(), all_nodes);
                n2.unique_seq_to_set();
                let pr = (evt.from_node@, evt.to_node@);
                lemma_event_pairs_step(post);
                assert(event_pairs(ev).contains(pr)) by {
                    let f = |e: EventView| (e.from_node, e.to_node);
                    assert(ev.map_values(f)[i as int] == pr);
                }
                assert forall|x: (Seq<char>, Seq<char>)| event_pairs(pre).contains(x) implies event_pairs(ev).contains(x) by {
                    let f = |e: EventView| (e.from_node, e.to_node);
                    let k = choose|k: int| 0 <= k < pre.map_values(f).len() && pre.map_values(f)[k] == x;
                    assert(ev.map_values(f)[k] == x);
                }
                assert(edge_pairs(cur.edges).insert(pr).subset_of(all_pairs));
                vstd::set_lib::lemma_len_subset(edge_pairs(cur.edges).insert(pr), all_pairs);
            }
            self.record(evt);
            proof {
                assert(self@.nodes.to_set() =~= v0.nodes.to_set().union(track_nodes(post)));
                assert(edge_pairs(self@.edges) =~= edge_pairs(v0.edges).union(event_pairs(post)));
            }
            i = i + 1;
        }
        assert(ev.take(n as int) =~= ev);
    }
}

// ---------------------------------------------------------------------------
// Congestion
// ---------------------------------------------------------------------------

/// The traffic through one track node.
pub struct IntersectionCongestion {
    pub intersection_id: String,
    pub total_flow: u64,
    pub blocked_count: u64,
    pub connected_edges: usize,
    pub active_ohts: usize,
}

pub struct CongestionView {
    pub intersection_id: Seq<char>,
    pub total_flow: int,
    pub blocked_count: int,
    pub connected_edges: int,
    pub active_ohts: int,
}

impl View for IntersectionCongestion {
    type V = CongestionView;

    open spec fn view(&self) -> CongestionView {
        CongestionView {
            intersection_id: self.intersection_id@,
            total_flow: self.total_flow as int,
            blocked_count: self.blocked_count as int,
            connected_edges: self.connected_edges as int,
            active_ohts: self.active_ohts as int,
        }
    }
}

pub open spec fn congestion_views(v: Seq<IntersectionCongestion>) -> Seq<CongestionView> {
    v.map_values(|c: IntersectionCongestion| c@)
}

/// The sum of `f` over the edges that satisfy `p`.
pub open spec fn edge_sum(edges: Seq<EdgeEntry>, p: spec_fn(EdgeEntry) -> bool, f: spec_fn(EdgeEntry) -> nat) -> nat
    decreases edges.len(),
{
    if edges.len() == 0 {
        0
    } else {
        edge_sum(edges.drop_last(), p, f) + if p(edges.last()) {
            f(edges.last())
        } else {
            0
        }
    }
}

/// The sum of `f` over the edges with the given indices.
pub open spec fn id_sum(edges: Seq<EdgeEntry>, ids: Seq<u32>, f: spec_fn(EdgeEntry) -> nat) -> nat
    decreases ids.len(),
{
    if ids.len() == 0 {
        0
    } else {
        id_sum(edges, ids.drop_last(), f) + f(edges[ids.last() as int])
    }
}

pub open spec fn leaves(n: nat) -> spec_fn(EdgeEntry) -> bool {
    |e: EdgeEntry| e.0 == n
}

pub open spec fn reaches(n: nat) -> spec_fn(EdgeEntry) -> bool {
    |e: EdgeEntry| e.1 == n
}

pub open spec fn flow_of() -> spec_fn(EdgeEntry) -> nat {
    |e: EdgeEntry| e.4 as nat
}

pub open spec fn blocked_of() -> spec_fn(EdgeEntry) -> nat {
    |e: EdgeEntry| e.5 as nat
}

pub open spec fn one() -> spec_fn(EdgeEntry) -> nat {
    |e: EdgeEntry| 1nat
}

/// The flow of all edges that leave or reach node `i` (a loop counts twice).
pub open spec fn node_flow(v: TrackView, i: nat) -> nat {
    edge_sum(v.edges, leaves(i), flow_of()) + edge_sum(v.edges, reaches(i), flow_of())
}

pub open spec fn node_blocked(v: TrackView, i: nat) -> nat {
    edge_sum(v.edges, leaves(i), blocked_of()) + edge_sum(v.edges, reaches(i), blocked_of())
}

pub open spec fn node_edges(v: TrackView, i: nat) -> nat {
    edge_sum(v.edges, leaves(i), one()) + edge_sum(v.edges, reaches(i), one())
}

/// The number of vehicles last seen moving to the node named `name`.
pub open spec fn vehicles_at(p: Seq<(Seq<char>, Seq<char>)>, name: Seq<char>) -> nat
    decreases p.len(),
{
    if p.len() == 0 {
        0
    } else {
        vehicles_at(p.drop_last(), name) + if p.last().1 == name {
            1nat
        } else {
            0nat
        }
    }
}

pub open spec fn node_congestion(v: TrackView, i: nat) -> CongestionView {
    CongestionView {
        intersection_id: v.nodes[i as int],
        total_flow: node_flow(v, i) as int,
        blocked_count: node_blocked(v, i) as int,
        connected_edges: node_edges(v, i) as int,
        active_ohts: vehicles_at(v.positions, v.nodes[i as int]) as int,
    }
}

/// The traffic of the nodes before `n` that carry any flow, by node index.
pub open spec fn busy_nodes(v: TrackView, n: nat) -> Seq<CongestionView>
    decreases n,
{
    if n == 0 {
        seq![]
    } else {
        let s = busy_nodes(v, (n - 1) as nat);
        if node_flow(v, (n - 1) as nat) > 0 {
            s.push(node_congestion(v, (n - 1) as nat))
        } else {
            s
        }
    }
}

/// Every node's flow fits in `u64` and its edge count in `usize`.
pub open spec fn node_counts_fit(v: TrackView) -> bool {
    forall|i: nat|
        i < v.nodes.len() ==> #[trigger] node_flow(v, i) <= u64::MAX && node_edges(v, i) <= usize::MAX
}

proof fn lemma_id_sum_congruent(e1: Seq<EdgeEntry>, e2: Seq<EdgeEntry>, ids: Seq<u32>, f: spec_fn(EdgeEntry) -> nat)
    requires
        forall|j: int| 0 <= j < ids.len() ==> e1[#[trigger] ids[j] as int] == e2[ids[j] as int],
    ensures
        id_sum(e1, ids, f) == id_sum(e2, ids, f),
    decreases ids.len(),
{
    if ids.len() > 0 {
        assert forall|j: int| 0 <= j < ids.drop_last().len() implies e1[#[trigger] ids.drop_last()[j] as int]
            == e2[ids.drop_last()[j] as int] by {
            assert(ids.drop_last()[j] == ids[j]);
        }
        lemma_id_sum_congruent(e1, e2, ids.drop_last(), f);
        assert(e1[ids.last() as int] == e2[ids.last() as int]);
    }
}

proof fn lemma_id_sum_remove(edges: Seq<EdgeEntry>, ids: Seq<u32>, j: int, f: spec_fn(EdgeEntry) -> nat)
    requires
        0 <= j < ids.len(),
    ensures
        id_sum(edges, ids, f) == id_sum(edges, ids.remove(j), f) + f(edges[ids[j] as int]),
    decreases ids.len(),
{
    if j == ids.len() - 1 {
        assert(ids.remove(j) =~= ids.drop_last());
    } else {
        assert(ids.remove(j).drop_last() =~= ids.drop_last().remove(j));
        assert(ids.remove(j).last() == ids.last());
        lemma_id_sum_remove(edges, ids.drop_last(), j, f);
        assert(ids.drop_last()[j] == ids[j]);
    }
}

/// Summing over a duplicate-free list of exactly the edges that satisfy
/// `p` sums over those edges.
proof fn lemma_id_sum(edges: Seq<EdgeEntry>, ids: Seq<u32>, p: spec_fn(EdgeEntry) -> bool, f: spec_fn(EdgeEntry) -> nat)
    requires
        edges.len() < u32::MAX,
        ids.no_duplicates(),
        forall|x: u32| #[trigger] ids.contains(x) <==> (x < edges.len() && p(edges[x as int])),
    ensures
        id_sum(edges, ids, f) == edge_sum(edges, p, f),
    decreases edges.len(),
{
    if edges.len() == 0 {
        if ids.len() > 0 {
            assert(ids.contains(ids[0]));
        }
        assert(ids.len() == 0);
    } else {
        let m = (edges.len() - 1) as u32;
        let e2 = edges.drop_last();
        if p(edges[m as int]) {
            assert(ids.contains(m));
            let j = choose|j: int| 0 <= j < ids.len() && ids[j] == m;
            let ids2 = ids.remove(j);
            lemma_id_sum_remove(edges, ids, j, f);
            assert forall|x: u32| #[trigger] ids2.contains(x) <==> (x < e2.len() && p(e2[x as int])) by {
                if ids2.contains(x) {
                    let q = choose|q: int| 0 <= q < ids2.len() && ids2[q] == x;
                    if q < j {
                        assert(ids[q] == x);
                    } else {
                        assert(ids[q + 1] == x);
                    }
                    assert(ids.contains(x));
                    assert(x != m);
                }
                if x < e2.len() && p(e2[x as int]) {
                    assert(edges[x as int] == e2[x as int]);
                    assert(ids.contains(x));
                    let q = choose|q: int| 0 <= q < ids.len() && ids[q] == x;
                    assert(q != j);
                    if q < j {
                        assert(ids2[q] == x);
                    } else {
                        assert(ids2[q - 1] == x);
                    }
                }
            }
            assert(ids2.no_duplicates()) by {
                assert forall|a: int, b: int| 0 <= a < ids2.len() && 0 <= b < ids2.len() && a != b implies ids2[a]
                    != ids2[b] by {
                    let a1 = if a < j { a } else { a + 1 };
                    let b1 = if b < j { b } else { b + 1 };
                    assert(ids2[a] == ids[a1]);
                    assert(ids2[b] == ids[b1]);
                }
            }
            lemma_id_sum(e2, ids2, p, f);
            assert forall|q: int| 0 <= q < ids2.len() implies edges[#[trigger] ids2[q] as int] == e2[ids2[q] as int] by {
                assert(ids2.contains(ids2[q]));
            }
            lemma_id_sum_congruent(edges, e2, ids2, f);
        } else {
            assert forall|x: u32| #[trigger] ids.contains(x) <==> (x < e2.len() && p(e2[x as int])) by {
                if x < e2.len() {
                    assert(edges[x as int] == e2[x as int]);
                }
            }
            lemma_id_sum(e2, ids, p, f);
            assert forall|q: int| 0 <= q < ids.len() implies edges[#[trigger] ids[q] as int] == e2[ids[q] as int] by {
                assert(ids.contains(ids[q]));
            }
            lemma_id_sum_congruent(edges, e2, ids, f);
        }
    }
}

proof fn lemma_edge_sum_ones(edges: Seq<EdgeEntry>, p: spec_fn(EdgeEntry) -> bool)
    ensures
        edge_sum(edges, p, one()) <= edges.len(),
    decreases edges.len(),
{
    if edges.len() > 0 {
        lemma_edge_sum_ones(edges.drop_last(), p);
    }
}

proof fn lemma_id_sum_prefix(edges: Seq<EdgeEntry>, ids: Seq<u32>, j: int, f: spec_fn(EdgeEntry) -> nat)
    requires
        0 <= j <= ids.len(),
    ensures
        id_sum(edges, ids.take(j), f) <= id_sum(edges, ids, f),
    decreases ids.len(),
{
    if j < ids.len() {
        assert(ids.drop_last().take(j) =~= ids.take(j));
        lemma_id_sum_prefix(edges, ids.drop_last(), j, f);
    } else {
        assert(ids.take(j) =~= ids);
    }
}

proof fn lemma_id_sum_ones(edges: Seq<EdgeEntry>, ids: Seq<u32>)
    ensures
        id_sum(edges, ids, one()) == ids.len(),
    decreases ids.len(),
{
    if ids.len() > 0 {
        lemma_id_sum_ones(edges, ids.drop_last());
    }
}

/// The congestion views of an ordering of the candidates are an ordering
/// of their views.
proof fn lemma_sorted_views(before: Seq<IntersectionCongestion>, after: Seq<IntersectionCongestion>)
    requires
        stably_sorted_by(before, after, |c: IntersectionCongestion| flow_descending(c)),
    ensures
        stably_sorted_by(
            congestion_views(before),
            congestion_views(after),
            |c: CongestionView| -c.total_flow,
        ),
{
    let p = choose|p: Seq<int>|
        {
            &&& is_permutation(p, before.len())
            &&& forall|k: int| 0 <= k < after.len() ==> after[k] == before[#[trigger] p[k]]
            &&& forall|k1: int, k2: int|
                0 <= k1 < k2 < after.len() && flow_descending(after[k1]) == flow_descending(after[k2])
                    ==> #[trigger] p[k1] < #[trigger] p[k2]
        };
    let bv = congestion_views(before);
    let av = congestion_views(after);
    assert(forall|k: int| 0 <= k < av.len() ==> av[k] == bv[#[trigger] p[k]]);
    assert forall|i: int, j: int| 0 <= i < j < av.len() implies -av[i].total_flow <= -av[j].total_flow by {
        assert(flow_descending(after[i]) <= flow_descending(after[j]));
    }
    assert forall|k1: int, k2: int|
        0 <= k1 < k2 < av.len() && -av[k1].total_flow == -av[k2].total_flow implies #[trigger] p[k1]
        < #[trigger] p[k2] by {
        assert(flow_descending(after[k1]) == flow_descending(after[k2]));
    }
}

impl TrackGraph {
    /// Sums flow and blocked count over the listed edges, and counts them.
    fn sum_listed(&self, ids: &Vec<u32>) -> (r: (u64, u64, usize))
        requires
            self.wf(),
            forall|q: int| 0 <= q < ids@.len() ==> #[trigger] ids@[q] < self@.edges.len(),
            id_sum(self@.edges, ids@, flow_of()) <= u64::MAX,
        ensures
            r.0 == id_sum(self@.edges, ids@, flow_of()),
            r.1 == id_sum(self@.edges, ids@, blocked_of()),
            r.1 <= r.0,
            r.2 == ids@.len(),
    {
        let mut flow: u64 = 0;
        let mut blocked: u64 = 0;
        let mut j: usize = 0;
        while j < ids.len()
            invariant
                self.wf(),
                j <= ids@.len(),
                forall|q: int| 0 <= q < ids@.len() ==> #[trigger] ids@[q] < self@.edges.len(),
                id_sum(self@.edges, ids@, flow_of()) <= u64::MAX,
                flow == id_sum(self@.edges, ids@.take(j as int), flow_of()),
                blocked == id_sum(self@.edges, ids@.take(j as int), blocked_of()),
                blocked <= flow,
            decreases ids@.len() - j,
        {
            let e = ids[j];
            proof {
                assert(ids@.take(j + 1).drop_last() =~= ids@.take(j as int));
                assert(ids@.take(j + 1).last() == e);
                lemma_id_sum_prefix(self@.edges, ids@, j + 1, flow_of());
            }
            let w = edge_weight(&self.graph, e);
            assert(w.flow_count == self@.edges[e as int].4);
            assert(self@.edges[e as int].5 <= self@.edges[e as int].4);
            flow = flow + w.flow_count;
            blocked = blocked + w.blocked_count;
            j = j + 1;
        }
        assert(ids@.take(ids@.len() as int) =~= ids@);
        (flow, blocked, j)
    }

    /// Flow, blocked count and number of edges of node `i`.
    fn node_traffic(&self, i: u32) -> (r: (u64, u64, usize))
        requires
            self.wf(),
            i < self@.nodes.len(),
            node_counts_fit(self@),
        ensures
            r.0 == node_flow(self@, i as nat),
            r.1 == node_blocked(self@, i as nat),
            r.2 == node_edges(self@, i as nat),
    {
        let out = outgoing_edges(&self.graph, i);
        let inc = incoming_edges(&self.graph, i);
        let ghost edges = self@.edges;
        proof {
            assert forall|x: u32| #[trigger] out@.contains(x) <==> (x < edges.len() && leaves(i as nat)(edges[x as int])) by {}
            assert forall|x: u32| #[trigger] inc@.contains(x) <==> (x < edges.len() && reaches(i as nat)(edges[x as int])) by {}
            lemma_id_sum(edges, out@, leaves(i as nat), flow_of());
            lemma_id_sum(edges, out@, leaves(i as nat), blocked_of());
            lemma_id_sum(edges, out@, leaves(i as nat), one());
            lemma_id_sum(edges, inc@, reaches(i as nat), flow_of());
            lemma_id_sum(edges, inc@, reaches(i as nat), blocked_of());
            lemma_id_sum(edges, inc@, reaches(i as nat), one());
            lemma_id_sum_ones(edges, out@);
            lemma_id_sum_ones(edges, inc@);
            assert(node_flow(self@, i as nat) <= u64::MAX);
            assert(node_edges(self@, i as nat) <= usize::MAX);
            assert forall|q: int| 0 <= q < out@.len() implies #[trigger] out@[q] < self@.edges.len() by {
                assert(out@.contains(out@[q]));
            }
            assert forall|q: int| 0 <= q < inc@.len() implies #[trigger] inc@[q] < self@.edges.len() by {
                assert(inc@.contains(inc@[q]));
            }
        }
        let (f1, b1, c1) = self.sum_listed(&out);
        let (f2, b2, c2) = self.sum_listed(&inc);
        (f1 + f2, b1 + b2, c1 + c2)
    }

    /// The number of vehicles last seen moving to the node named `name`.
    fn count_vehicles_at(&self, name: &String) -> (r: usize)
        requires
            self.wf(),
        ensures
            r == vehicles_at(self@.positions, name@),
    {
        let ghost p = self@.positions;
        let mut count: usize = 0;
        let mut j: usize = 0;
        while j < self.oht_positions.len()
            invariant
                p == self@.positions,
                p.len() == self.oht_positions@.len(),
                j <= p.len(),
                count <= j,
                count == vehicles_at(p.take(j as int), name@),
            decreases p.len() - j,
        {
            proof {
                assert(p.take(j + 1).drop_last() =~= p.take(j as int));
                assert(p.take(j + 1).last() == p[j as int]);
                assert(p[j as int].1 == self.oht_positions@[j as int].1@);
            }
            if self.oht_positions[j].1 == *name {
                count = count + 1;
            }
            j = j + 1;
        }
        assert(p.take(p.len() as int) =~= p);
        count
    }

    /// The `top_n` nodes with the most flow, most first (nodes of equal
    /// flow by node index); nodes without flow are left out.
    pub fn top_congested_intersections(&self, top_n: usize) -> (r: Vec<IntersectionCongestion>)
        requires
            self.wf(),
            node_counts_fit(self@),
        ensures
            ({
                let cands = busy_nodes(self@, self@.nodes.len());
                exists|sorted: Seq<CongestionView>|
                    {
                        &&& stably_sorted_by(cands, sorted, |c: CongestionView| -c.total_flow)
                        &&& congestion_views(r@) == if top_n <= sorted.len() {
                            sorted.take(top_n as int)
                        } else {
                            sorted
                        }
                    }
            }),
            r@.len() <= top_n,
            forall|i: int, j: int| 0 <= i < j < r@.len() ==> r@[i].total_flow >= r@[j].total_flow,
    {
        let n = node_count(&self.graph);
        let mut cands: Vec<IntersectionCongestion> = Vec::new();
        let mut i: usize = 0;
        while i < n
            invariant
                self.wf(),
                node_counts_fit(self@),
                n == self@.nodes.len(),
                i <= n,
                congestion_views(cands@) == busy_nodes(self@, i as nat),
            decreases n - i,
        {
            let (flow, blocked, count) = self.node_traffic(i as u32);
            let name = node_weight(&self.graph, i as u32);
            let active = self.count_vehicles_at(name);
            if flow > 0 {
                let c = IntersectionCongestion {
                    intersection_id: name.clone(),
                    total_flow: flow,
                    blocked_count: blocked,
                    connected_edges: count,
                    active_ohts: active,
                };
                let ghost before = cands@;
                cands.push(c);
                assert(congestion_views(cands@) =~= congestion_views(before).push(c@));
            }
            i = i + 1;
        }
        let ghost unsorted = cands@;
        sort_by_flow_descending(&mut cands);
        proof {
            lemma_sorted_views(unsorted, cands@);
        }
        let ghost full = congestion_views(cands@);
        cands.truncate(top_n);
        proof {
            if top_n <= full.len() {
                assert(congestion_views(cands@) =~= full.take(top_n as int));
            }
            assert forall|i: int, j: int| 0 <= i < j < cands@.len() implies cands@[i].total_flow
                >= cands@[j].total_flow by {
                assert(congestion_views(cands@)[i] == full[i]);
                assert(congestion_views(cands@)[j] == full[j]);
                assert(-full[i].total_flow <= -full[j].total_flow);
            }
        }
        cands
    }
}

// ---------------------------------------------------------------------------
// Export
// ---------------------------------------------------------------------------

/// A node as it is exported: its name and its index.
pub struct ExportNode {
    pub id: String,
    pub index: usize,
}

/// An edge as it is exported: the names of its two nodes and its counts.
pub struct ExportEdge {
    pub source: String,
    pub target: String,
    pub flow: u64,
    pub blocked: u64,
    pub total_duration_ms: u64,
}

/// The nodes and edges of a track graph, each list by index.
pub struct GraphExport {
    pub nodes: Vec<ExportNode>,
    pub edges: Vec<ExportEdge>,
}

impl TrackGraph {
    /// Every node with its index and every edge with the names of its
    /// nodes and its counts, in index order.
    pub fn graph_export(&self) -> (x: GraphExport)
        requires
            self.wf(),
        ensures
            x.nodes@.len() == self@.nodes.len(),
            forall|i: int|
                0 <= i < x.nodes@.len() ==> (#[trigger] x.nodes@[i]).id@ == self@.nodes[i]
                    && x.nodes@[i].index == i,
            x.edges@.len() == self@.edges.len(),
            forall|k: int|
                0 <= k < x.edges@.len() ==> {
                    let e = self@.edges[k];
                    &&& (#[trigger] x.edges@[k]).source@ == self@.nodes[e.0 as int]
                    &&& x.edges@[k].target@ == self@.nodes[e.1 as int]
                    &&& x.edges@[k].flow == e.4
                    &&& x.edges@[k].blocked == e.5
                    &&& x.edges@[k].total_duration_ms == e.6
                },
    {
        let n = node_count(&self.graph);
        let mut nodes: Vec<ExportNode> = Vec::new();
        let mut i: usize = 0;
        while i < n
            invariant
                self.wf(),
                n == self@.nodes.len(),
                i <= n,
                nodes@.len() == i,
                forall|j: int|
                    0 <= j < i ==> (#[trigger] nodes@[j]).id@ == self@.nodes[j] && nodes@[j].index == j,
            decreases n - i,
        {
            let name = node_weight(&self.graph, i as u32);
            nodes.push(ExportNode { id: name.clone(), index: i });
            i = i + 1;
        }
        let m = edge_count(&self.graph);
        let mut edges: Vec<ExportEdge> = Vec::new();
        let mut k: usize = 0;
        while k < m
            invariant
                self.wf(),
                m == self@.edges.len(),
                k <= m,
                edges@.len() == k,
                forall|j: int|
                    0 <= j < k ==> {
                        let e = self@.edges[j];
                        &&& (#[trigger] edges@[j]).source@ == self@.nodes[e.0 as int]
                        &&& edges@[j].target@ == self@.nodes[e.1 as int]
                        &&& edges@[j].flow == e.4
                        &&& edges@[j].blocked == e.5
                        &&& edges@[j].total_duration_ms == e.6
                    },
            decreases m - k,
        {
            let ghost e = self@.edges[k as int];
            let (a, b) = edge_endpoints(&self.graph, k as u32);
            let w = edge_weight(&self.graph, k as u32);
            let source = node_weight(&self.graph, a).clone();
            let target = node_weight(&self.graph, b).clone();
            edges.push(
                ExportEdge {
                    source,
                    target,
                    flow: w.flow_count,
                    blocked: w.blocked_count,
                    total_duration_ms: w.total_duration_ms,
                },
            );
            k = k + 1;
        }
        GraphExport { nodes, edges }
    }
}

// ---------------------------------------------------------------------------
// Laws of recording
// ---------------------------------------------------------------------------

/// The graph with no nodes, edges or vehicles.
pub open spec fn empty_track() -> TrackView {
    TrackView { nodes: seq![], edges: seq![], positions: seq![] }
}

/// The vehicles of the positions, in order.
pub open spec fn position_keys(p: Seq<(Seq<char>, Seq<char>)>) -> Seq<Seq<char>> {
    p.map_values(|x: (Seq<char>, Seq<char>)| x.0)
}

/// Recording events in two runs gives the graph that recording them all at
/// once gives.
pub proof fn lemma_record_in_two_runs(v: TrackView, a: Seq<EventView>, b: Seq<EventView>)
    ensures
        record_events(record_events(v, a), b) == record_events(v, a + b),
    decreases b.len(),
{
    if b.len() == 0 {
        assert(a + b =~= a);
    } else {
        lemma_record_in_two_runs(v, a, b.drop_last());
        assert((a + b).drop_last() =~= a + b.drop_last());
        assert((a + b).last() == b.last());
    }
}

proof fn lemma_with_node(nodes: Seq<Seq<char>>, name: Seq<char>)
    requires
        nodes.no_duplicates(),
    ensures
        with_node(nodes, name).no_duplicates(),
        with_node(nodes, name).to_set() == nodes.to_set().insert(name),
{
    if nodes.contains(name) {
        assert(nodes.to_set().insert(name) =~= nodes.to_set());
    } else {
        nodes.lemma_push_to_set_commute(name);
    }
}

proof fn lemma_with_position(p: Seq<(Seq<char>, Seq<char>)>, oht: Seq<char>, node: Seq<char>)
    requires
        unique_keys(p),
    ensures
        unique_keys(with_position(p, oht, node)),
        position_keys(with_position(p, oht, node)).to_set() == position_keys(p).to_set().insert(oht),
        position_keys(with_position(p, oht, node)).no_duplicates(),
{
    let q = with_position(p, oht, node);
    let kp = position_keys(p);
    let kq = position_keys(q);
    if exists|i: int| 0 <= i < p.len() && p[i].0 == oht {
        let i = choose|i: int| 0 <= i < p.len() && p[i].0 == oht;
        assert(kq =~= kp);
        assert(kp[i] == oht);
        assert(kp.to_set().insert(oht) =~= kp.to_set());
    } else {
        assert(kq =~= kp.push(oht));
        kp.lemma_push_to_set_commute(oht);
        assert forall|i: int, j: int| 0 <= i < q.len() && 0 <= j < q.len() && i != j implies q[i].0
            != q[j].0 by {
            if i < p.len() && j < p.len() {
                assert(q[i] == p[i] && q[j] == p[j]);
            } else if i < p.len() {
                assert(q[i] == p[i]);
            } else {
                assert(q[j] == p[j]);
            }
        }
    }
    assert forall|i: int, j: int| 0 <= i < kq.len() && 0 <= j < kq.len() && i != j implies kq[i]
        != kq[j] by {
        assert(kq[i] == q[i].0 && kq[j] == q[j].0);
    }
}

proof fn lemma_counted_flow(edges: Seq<EdgeEntry>, a: nat, b: nat, e: EventView)
    requires
        forall|k: int| 0 <= k < edges.len() ==> (#[trigger] edges[k]).5 <= edges[k].4,
        total_flow(edges) < u64::MAX,
    ensures
        forall|k: int|
            0 <= k < counted_edges(edges, a, b, e).len() ==> (#[trigger] counted_edges(edges, a, b, e)[k]).5
                <= counted_edges(edges, a, b, e)[k].4,
        total_flow(counted_edges(edges, a, b, e)) == total_flow(edges) + 1,
        total_blocked(counted_edges(edges, a, b, e)) == total_blocked(edges) + blocked_one(e),
{
    let w = counted_edges(edges, a, b, e);
    match edge_index(edges, a, b) {
        Some(k) => {
            assert(0 <= k < edges.len() && edges[k].0 == a && edges[k].1 == b);
            lemma_flow_le_total(edges, k);
            lemma_total_flow_update(edges, k, w[k]);
            assert forall|j: int| 0 <= j < w.len() implies (#[trigger] w[j]).5 <= w[j].4 by {
                if j != k {
                    assert(w[j] == edges[j]);
                }
            }
        },
        None => {
            lemma_total_flow_push(edges, w[edges.len() as int]);
            assert(w =~= edges.push(w[edges.len() as int]));
            assert forall|j: int| 0 <= j < w.len() implies (#[trigger] w[j]).5 <= w[j].4 by {
                if j < edges.len() {
                    assert(w[j] == edges[j]);
                }
            }
        },
    }
}

proof fn lemma_count_kinds_bounded(es: Seq<EventView>, t: MoveEventType)
    ensures
        count_kind(es, t) <= es.len(),
    decreases es.len(),
{
    if es.len() > 0 {
        lemma_count_kinds_bounded(es.drop_last(), t);
    }
}

/// A graph built from events, starting empty, accounts for every event: its
/// nodes are the distinct nodes the events leave or reach, its vehicles the
/// distinct vehicles they name, its summed flow is the number of events and
/// its summed blocked count the number of blocked events.
pub proof fn lemma_build_accounts_for_events(es: Seq<EventView>)
    requires
        es.len() <= u64::MAX,
    ensures
        ({
            let v = record_events(empty_track(), es);
            &&& v.nodes.no_duplicates()
            &&& v.nodes.to_set() == track_nodes(es)
            &&& v.nodes.len() == track_nodes(es).len()
            &&& unique_keys(v.positions)
            &&& position_keys(v.positions).no_duplicates()
            &&& position_keys(v.positions).to_set() == vehicle_ids(es)
            &&& v.positions.len() == vehicle_ids(es).len()
            &&& total_flow(v.edges) == es.len()
            &&& total_blocked(v.edges) == count_kind(es, MoveEventType::Blocked)
        }),
    decreases es.len(),
{
    let v = record_events(empty_track(), es);
    if es.len() == 0 {
        assert(v.nodes.to_set() =~= track_nodes(es));
        assert(position_keys(v.positions).to_set() =~= vehicle_ids(es));
        assert(position_keys(v.positions) =~= seq![]);
        v.nodes.unique_seq_to_set();
        position_keys(v.positions).unique_seq_to_set();
    } else {
        let pre = es.drop_last();
        let e = es.last();
        lemma_build_accounts_for_events(pre);
        let u = record_events(empty_track(), pre);
        assert(v == record_event(u, e));
        let n1 = with_node(u.nodes, e.from_node);
        lemma_with_node(u.nodes, e.from_node);
        lemma_with_node(n1, e.to_node);
        lemma_track_nodes_step(es);
        v.nodes.unique_seq_to_set();
        lemma_with_position(u.positions, e.oht_id, e.to_node);
        lemma_vehicle_ids_step(es);
        position_keys(v.positions).unique_seq_to_set();
        lemma_edges_counted(pre);
        lemma_counted_flow(
            u.edges,
            node_index(v.nodes, e.from_node) as nat,
            node_index(v.nodes, e.to_node) as nat,
            e,
        );
    }
}

proof fn lemma_edges_counted(es: Seq<EventView>)
    requires
        es.len() < u64::MAX,
    ensures
        forall|k: int|
            0 <= k < record_events(empty_track(), es).edges.len() ==> (#[trigger] record_events(
                empty_track(),
                es,
            ).edges[k]).5 <= record_events(empty_track(), es).edges[k].4,
        total_flow(record_events(empty_track(), es).edges) == es.len(),
        total_blocked(record_events(empty_track(), es).edges) == count_kind(es, MoveEventType::Blocked),
    decreases es.len(),
{
    if es.len() > 0 {
        let pre = es.drop_last();
        let e = es.last();
        lemma_edges_counted(pre);
        let u = record_events(empty_track(), pre);
        let nodes = with_node(with_node(u.nodes, e.from_node), e.to_node);
        lemma_counted_flow(u.edges, node_index(nodes, e.from_node) as nat, node_index(nodes, e.to_node) as nat, e);
    }
}

// ---------------------------------------------------------------------------
// Vehicles at a node
// ---------------------------------------------------------------------------

/// The vehicles whose latest recorded node is `name`.
pub open spec fn vehicles_ending_at(p: Seq<(Seq<char>, Seq<char>)>, name: Seq<char>) -> Set<Seq<char>> {
    Set::new(|o: Seq<char>| exists|k: int| 0 <= k < p.len() && p[k] == (o, name))
}

proof fn lemma_vehicles_counted(p: Seq<(Seq<char>, Seq<char>)>, name: Seq<char>)
    requires
        unique_keys(p),
    ensures
        vehicles_ending_at(p, name).finite(),
        vehicles_at(p, name) == vehicles_ending_at(p, name).len(),
    decreases p.len(),
{
    if p.len() == 0 {
        assert(vehicles_ending_at(p, name) =~= Set::empty());
    } else {
        let pre = p.drop_last();
        let x = p.last();
        assert(unique_keys(pre)) by {
            assert forall|i: int, j: int| 0 <= i < pre.len() && 0 <= j < pre.len() && i != j implies pre[i].0
                != pre[j].0 by {
                assert(pre[i] == p[i] && pre[j] == p[j]);
            }
        }
        lemma_vehicles_counted(pre, name);
        let sp = vehicles_ending_at(pre, name);
        assert(!sp.contains(x.0)) by {
            if sp.contains(x.0) {
                let k = choose|k: int| 0 <= k < pre.len() && pre[k] == (x.0, name);
                assert(p[k] == pre[k]);
                assert(p[p.len() - 1] == x);
            }
        }
        if x.1 == name {
            assert(vehicles_ending_at(p, name) =~= sp.insert(x.0)) by {
                assert(p[p.len() - 1] == x);
                assert forall|o: Seq<char>| vehicles_ending_at(p, name).contains(o) implies sp.insert(x.0).contains(
                    o,
                ) by {
                    let k = choose|k: int| 0 <= k < p.len() && p[k] == (o, name);
                    if k < pre.len() {
                        assert(pre[k] == p[k]);
                    }
                }
                assert forall|o: Seq<char>| sp.contains(o) implies vehicles_ending_at(p, name).contains(o) by {
                    let k = choose|k: int| 0 <= k < pre.len() && pre[k] == (o, name);
                    assert(p[k] == pre[k]);
                }
            }
        } else {
            assert(vehicles_ending_at(p, name) =~= sp) by {
                assert(p[p.len() - 1] == x);
                assert forall|o: Seq<char>| vehicles_ending_at(p, name).contains(o) implies sp.contains(o) by {
                    let k = choose|k: int| 0 <= k < p.len() && p[k] == (o, name);
                    if k < pre.len() {
                        assert(pre[k] == p[k]);
                    }
                }
                assert forall|o: Seq<char>| sp.contains(o) implies vehicles_ending_at(p, name).contains(o) by {
                    let k = choose|k: int| 0 <= k < pre.len() && pre[k] == (o, name);
                    assert(p[k] == pre[k]);
                }
            }
        }
    }
}

/// A node's count of active vehicles is the number of distinct vehicles
/// whose latest recorded move ended at that node.
pub proof fn lemma_active_vehicles(v: TrackView, i: nat)
    requires
        unique_keys(v.positions),
        i < v.nodes.len(),
    ensures
        vehicles_ending_at(v.positions, v.nodes[i as int]).finite(),
        node_congestion(v, i).active_ohts == vehicles_ending_at(v.positions, v.nodes[i as int]).len(),
{
    lemma_vehicles_counted(v.positions, v.nodes[i as int]);
}

/// The node the last of the events of vehicle `o` moved to, if it moved.
pub open spec fn last_move_of(es: Seq<EventView>, o: Seq<char>) -> Option<Seq<char>>
    decreases es.len(),
{
    if es.len() == 0 {
        None
    } else if es.last().oht_id == o {
        Some(es.last().to_node)
    } else {
        last_move_of(es.drop_last(), o)
    }
}

pub open spec fn has_position(p: Seq<(Seq<char>, Seq<char>)>, o: Seq<char>, n: Seq<char>) -> bool {
    exists|k: int| 0 <= k < p.len() && p[k] == (o, n)
}

proof fn lemma_with_position_pairs(p: Seq<(Seq<char>, Seq<char>)>, oht: Seq<char>, node: Seq<char>, o: Seq<char>, n: Seq<char>)
    requires
        unique_keys(p),
    ensures
        has_position(with_position(p, oht, node), o, n) == if o == oht {
            n == node
        } else {
            has_position(p, o, n)
        },
{
    let q = with_position(p, oht, node);
    if exists|i: int| 0 <= i < p.len() && p[i].0 == oht {
        let c = choose|i: int| 0 <= i < p.len() && p[i].0 == oht;
        assert(q == p.update(c, (oht, node)));
        if o == oht {
            if n == node {
                assert(q[c] == (o, n));
            }
            if has_position(q, o, n) {
                let k = choose|k: int| 0 <= k < q.len() && q[k] == (o, n);
                if k != c {
                    assert(q[k] == p[k]);
                    assert(p[k].0 == p[c].0);
                }
            }
        } else {
            if has_position(q, o, n) {
                let k = choose|k: int| 0 <= k < q.len() && q[k] == (o, n);
                assert(k != c);
                assert(p[k] == q[k]);
            }
            if has_position(p, o, n) {
                let k = choose|k: int| 0 <= k < p.len() && p[k] == (o, n);
                assert(k != c);
                assert(q[k] == p[k]);
            }
        }
    } else {
        assert(q == p.push((oht, node)));
        if o == oht {
            if n == node {
                assert(q[p.len() as int] == (o, n));
            }
            if has_position(q, o, n) {
                let k = choose|k: int| 0 <= k < q.len() && q[k] == (o, n);
                if k < p.len() {
                    assert(q[k] == p[k]);
                }
            }
        } else {
            if has_position(q, o, n) {
                let k = choose|k: int| 0 <= k < q.len() && q[k] == (o, n);
                assert(k < p.len());
                assert(p[k] == q[k]);
            }
            if has_position(p, o, n) {
                let k = choose|k: int| 0 <= k < p.len() && p[k] == (o, n);
                assert(q[k] == p[k]);
            }
        }
    }
}

/// After recording events, a vehicle stands at the node its last event
/// moved it to; a vehicle without events keeps the node it had.
pub proof fn lemma_position_is_last_move(v: TrackView, es: Seq<EventView>, o: Seq<char>, n: Seq<char>)
    requires
        unique_keys(v.positions),
    ensures
        unique_keys(record_events(v, es).positions),
        has_position(record_events(v, es).positions, o, n) == match last_move_of(es, o) {
            Some(m) => n == m,
            None => has_position(v.positions, o, n),
        },
    decreases es.len(),
{
    if es.len() > 0 {
        let pre = es.drop_last();
        let e = es.last();
        lemma_position_is_last_move(v, pre, o, n);
        let u = record_events(v, pre);
        lemma_with_position(u.positions, e.oht_id, e.to_node);
        lemma_with_position_pairs(u.positions, e.oht_id, e.to_node, o, n);
    }
}

/// In a graph built from events, starting empty, a node's count of active
/// vehicles is the number of distinct vehicles whose last event moved them
/// to that node.
pub proof fn lemma_active_vehicles_after_build(es: Seq<EventView>, i: nat)
    requires
        i < record_events(empty_track(), es).nodes.len(),
    ensures
        ({
            let v = record_events(empty_track(), es);
            let ended = Set::new(|o: Seq<char>| last_move_of(es, o) == Some(v.nodes[i as int]));
            &&& ended.finite()
            &&& node_congestion(v, i).active_ohts == ended.len()
        }),
{
    let v = record_events(empty_track(), es);
    let name = v.nodes[i as int];
    assert(unique_keys(empty_track().positions));
    lemma_position_is_last_move(empty_track(), es, seq![], seq![]);
    lemma_active_vehicles(v, i);
    let ended = Set::new(|o: Seq<char>| last_move_of(es, o) == Some(name));
    assert(vehicles_ending_at(v.positions, name) =~= ended) by {
        assert forall|o: Seq<char>| vehicles_ending_at(v.positions, name).contains(o) == ended.contains(o) by {
            lemma_position_is_last_move(empty_track(), es, o, name);
            assert(!has_position(empty_track().positions, o, name));
        }
    }
}

} // verus!

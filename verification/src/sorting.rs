//! Stable sorting by a key, done by the standard library's sort.
use vstd::prelude::*;

use crate::digraph::IntersectionCongestion;
use crate::event::OhtMoveEvent;

verus! {

/// `p` maps the positions `0..n` one to one onto `0..n`.
pub open spec fn is_permutation(p: Seq<int>, n: nat) -> bool {
    &&& p.len() == n
    &&& forall|i: int| 0 <= i < n ==> 0 <= #[trigger] p[i] < n
    &&& forall|i: int, j: int| 0 <= i < n && 0 <= j < n && i != j ==> p[i] != p[j]
}

/// `after` holds the items of `before`, ordered by ascending key, items of
/// equal key in their order in `before`.
pub open spec fn stably_sorted_by<T>(before: Seq<T>, after: Seq<T>, key: spec_fn(T) -> int) -> bool {
    &&& after.len() == before.len()
    &&& forall|i: int, j: int| 0 <= i < j < after.len() ==> key(after[i]) <= key(after[j])
    &&& exists|p: Seq<int>|
        {
            &&& is_permutation(p, before.len())
            &&& forall|k: int| 0 <= k < after.len() ==> after[k] == before[#[trigger] p[k]]
            &&& forall|k1: int, k2: int|
                0 <= k1 < k2 < after.len() && key(after[k1]) == key(after[k2]) ==> #[trigger] p[k1]
                    < #[trigger] p[k2]
        }
}

pub open spec fn event_time(e: OhtMoveEvent) -> int {
    e.timestamp as int
}

pub open spec fn flow_descending(c: IntersectionCongestion) -> int {
    -(c.total_flow as int)
}

/// `slice::sort_by_key` on the timestamp: its documentation promises a
/// stable sort, which the contract states.
#[verifier::external_body]
pub(crate) fn sort_events_by_time(v: &mut Vec<OhtMoveEvent>)
    ensures
        stably_sorted_by(old(v)@, final(v)@, |e: OhtMoveEvent| event_time(e)),
{
    v.sort_by_key(|e| e.timestamp);
}

/// `slice::sort_by` comparing the flows in reverse: its documentation
/// promises a stable sort, which the contract states (largest flow first).
#[verifier::external_body]
pub(crate) fn sort_by_flow_descending(v: &mut Vec<IntersectionCongestion>)
    ensures
        stably_sorted_by(old(v)@, final(v)@, |c: IntersectionCongestion| flow_descending(c)),
{
    v.sort_by(|a, b| b.total_flow.cmp(&a.total_flow));
}

} // verus!

//! The movement event that the scanners extract from a log line.
use vstd::prelude::*;
use vstd::string::*;

use crate::clock::{render_utc_millis, utc_millis_text};
use crate::text::{int_decimal, i64_decimal};

verus! {

#[derive(Debug, Clone, Copy, PartialEq, Eq, Structural)]
pub enum MoveEventType {
    Depart,
    Arrive,
    PassThrough,
    Blocked,
    EmergencyStop,
}

/// The label an event type is shown with.
pub open spec fn event_type_label(t: MoveEventType) -> Seq<char> {
    match t {
        MoveEventType::Depart => "DEPART"@,
        MoveEventType::Arrive => "ARRIVE"@,
        MoveEventType::PassThrough => "PASS"@,
        MoveEventType::Blocked => "BLOCKED"@,
        MoveEventType::EmergencyStop => "ESTOP"@,
    }
}

impl MoveEventType {
    /// The label of the event type, as it is displayed.
    pub fn to_string(&self) -> (s: String)
        ensures
            s@ == event_type_label(*self),
    {
        match self {
            MoveEventType::Depart => String::from_str("DEPART"),
            MoveEventType::Arrive => String::from_str("ARRIVE"),
            MoveEventType::PassThrough => String::from_str("PASS"),
            MoveEventType::Blocked => String::from_str("BLOCKED"),
            MoveEventType::EmergencyStop => String::from_str("ESTOP"),
        }
    }
}

#[derive(Debug, Clone)]
pub struct OhtMoveEvent {
    pub timestamp: i64,
    pub oht_id: String,
    pub from_node: String,
    pub to_node: String,
    pub event_type: MoveEventType,
    pub duration_ms: u64,
}

/// The value of an event: its fields, strings taken as characters.
pub struct EventView {
    pub timestamp: i64,
    pub oht_id: Seq<char>,
    pub from_node: Seq<char>,
    pub to_node: Seq<char>,
    pub event_type: MoveEventType,
    pub duration_ms: u64,
}

impl View for OhtMoveEvent {
    type V = EventView;

    open spec fn view(&self) -> EventView {
        EventView {
            timestamp: self.timestamp,
            oht_id: self.oht_id@,
            from_node: self.from_node@,
            to_node: self.to_node@,
            event_type: self.event_type,
            duration_ms: self.duration_ms,
        }
    }
}

/// The view of an optional event.
pub open spec fn opt_event_view(e: Option<OhtMoveEvent>) -> Option<EventView> {
    match e {
        Some(x) => Some(x@),
        None => None,
    }
}

/// The characters before the first `-`, when there is one.
pub open spec fn first_dash(s: Seq<char>) -> Option<int> {
    if exists|i: int| 0 <= i < s.len() && s[i] == '-' {
        Some(choose|i: int| 0 <= i < s.len() && s[i] == '-' && forall|j: int| 0 <= j < i ==> s[j] != '-')
    } else {
        None
    }
}

/// The intersection two nodes share: `IX-` and the part before the first `-`
/// of both node names, where both have a `-` and that part agrees.
pub open spec fn intersection_of(from: Seq<char>, to: Seq<char>) -> Option<Seq<char>> {
    match (first_dash(from), first_dash(to)) {
        (Some(i), Some(j)) => if from.take(i) == to.take(j) {
            Some("IX-"@ + from.take(i))
        } else {
            None
        },
        _ => None,
    }
}

/// The format a timestamp is shown with.
pub open spec fn timestamp_format() -> Seq<char> {
    "%Y-%m-%d %H:%M:%S%.3f"@
}

/// Index of the first `-` in `s`, if any.
fn find_dash(s: &str) -> (r: Option<usize>)
    ensures
        match r {
            Some(i) => first_dash(s@) == Some(i as int) && i < s@.len(),
            None => first_dash(s@) is None,
        },
{
    let n = s.unicode_len();
    let mut i: usize = 0;
    while i < n
        invariant
            n == s@.len(),
            i <= n,
            forall|j: int| 0 <= j < i ==> s@[j] != '-',
        decreases n - i,
    {
        if s.get_char(i) == '-' {
            let ghost w = choose|k: int| 0 <= k < s@.len() && s@[k] == '-' && forall|j: int| 0 <= j < k ==> s@[j] != '-';
            assert(0 <= i < s@.len() && s@[i as int] == '-' && forall|j: int| 0 <= j < i ==> s@[j] != '-');
            assert(w == i) by {
                if w < i {
                } else if w > i {
                }
            }
            return Some(i);
        }
        i = i + 1;
    }
    None
}

impl OhtMoveEvent {
    /// The edge the event travels: `from->to`.
    pub fn edge_key(&self) -> (k: String)
        ensures
            k@ == self.from_node@ + "->"@ + self.to_node@,
    {
        let mut k = self.from_node.clone();
        k.append("->");
        k.append(self.to_node.as_str());
        k
    }

    /// The intersection the event passes, where both node names share the
    /// part before their first `-`.
    pub fn intersection_key(&self) -> (k: Option<String>)
        ensures
            match k {
                Some(s) => intersection_of(self.from_node@, self.to_node@) == Some(s@),
                None => intersection_of(self.from_node@, self.to_node@) is None,
            },
    {
        let from = self.from_node.as_str();
        let to = self.to_node.as_str();
        match (find_dash(from), find_dash(to)) {
            (Some(i), Some(j)) => {
                let a = from.substring_char(0, i).to_owned();
                let b = to.substring_char(0, j).to_owned();
                if a == b {
                    let mut k = String::from_str("IX-");
                    k.append(a.as_str());
                    Some(k)
                } else {
                    None
                }
            },
            _ => None,
        }
    }

    /// The timestamp as UTC date and time with milliseconds, or its decimal
    /// value where it is outside the calendar range.
    pub fn timestamp_str(&self) -> (s: String)
        ensures
            s@ == match utc_millis_text(self.timestamp, timestamp_format()) {
                Some(t) => t,
                None => int_decimal(self.timestamp as int),
            },
    {
        match render_utc_millis(self.timestamp, "%Y-%m-%d %H:%M:%S%.3f") {
            Some(t) => t,
            None => i64_decimal(self.timestamp),
        }
    }
}

/// The intersection of two nodes does not depend on the direction of
/// travel between them.
pub proof fn lemma_intersection_symmetric(from: Seq<char>, to: Seq<char>)
    ensures
        intersection_of(from, to) == intersection_of(to, from),
{
}

} // verus!

//! Reading movement events out of text lines and XML records, with regular
//! expressions and chrono's date parsing.
use vstd::prelude::*;
use vstd::string::*;
use vstd::utf8::encode_utf8;

use crate::clock::{parse_utc_millis, parsed_utc_millis, plain_datetime, plain_datetime_millis};
use crate::event::{opt_event_view, EventView, MoveEventType, OhtMoveEvent};
use crate::names::names_of;
use crate::sorting::{event_time, is_permutation, sort_events_by_time, stably_sorted_by};
use crate::patterns::{captures, compile, groups_view, is_match, regex_captures, regex_compiles, Pattern};
use crate::text::{
    all_decimal, i64_text_value, occurs_at, lowercase, parse_i64, replace_all, replace_char, str_contains,
    str_eq_ignore_case, text_contains, text_eq_ignore_case, unicode_lower,
};

verus! {

#[verifier::external_type_specification]
#[verifier::external_body]
pub struct ExPathBuf(std::path::PathBuf);

/// A message header such as `S6F11`.
pub const SECS_MESSAGE_PATTERN: &'static str = "(?i)S(?:\\d+)F(?:\\d+)";

/// An OHT movement: the vehicle, then the node it leaves and the node it
/// reaches.
pub const OHT_MOVE_PATTERN: &'static str = "(?i)OHT[_\\-]?(\\w+)\\s+(?:MOVE|TRANSIT|PASSING|DEPART|ARRIVE)\\s+FROM\\s+(?:NODE\\s*)?[:=]\\s*([A-Za-z0-9_\\-]+)\\s+TO\\s+(?:NODE\\s*)?[:=]\\s*([A-Za-z0-9_\\-]+)";

/// A date and time such as `2024-01-15 10:30:00.123`.
pub const TIMESTAMP_PATTERN: &'static str = "(\\d{4}[-/]\\d{2}[-/]\\d{2}\\s+\\d{2}:\\d{2}:\\d{2}(?:\\.\\d+)?)";

/// The three expressions the text formats are read with.
pub struct MovePatterns {
    pub secs: Pattern,
    pub oht: Pattern,
    pub timestamp: Pattern,
}

/// An expression that the `regex` crate refused.
#[derive(Debug)]
pub struct PatternError {
    pub error: regex::Error,
}

pub open spec fn patterns_hold(p: MovePatterns) -> bool {
    &&& p.secs.source() == SECS_MESSAGE_PATTERN@
    &&& p.oht.source() == OHT_MOVE_PATTERN@
    &&& p.timestamp.source() == TIMESTAMP_PATTERN@
}

impl MovePatterns {
    /// Compiles the three expressions.
    pub fn compile() -> (r: Result<MovePatterns, PatternError>)
        ensures
            r is Ok <==> (regex_compiles(SECS_MESSAGE_PATTERN@) && regex_compiles(OHT_MOVE_PATTERN@)
                && regex_compiles(TIMESTAMP_PATTERN@)),
            r matches Ok(p) ==> patterns_hold(p),
    {
        let oht = match compile(OHT_MOVE_PATTERN) {
            Ok(p) => p,
            Err(error) => {
                return Err(PatternError { error });
            },
        };
        let timestamp = match compile(TIMESTAMP_PATTERN) {
            Ok(p) => p,
            Err(error) => {
                return Err(PatternError { error });
            },
        };
        let secs = match compile(SECS_MESSAGE_PATTERN) {
            Ok(p) => p,
            Err(error) => {
                return Err(PatternError { error });
            },
        };
        Ok(MovePatterns { secs, oht, timestamp })
    }
}

// ---------------------------------------------------------------------------
// Timestamps
// ---------------------------------------------------------------------------

/// The date-time formats tried, in order.
pub open spec fn timestamp_formats() -> Seq<Seq<char>> {
    seq![
        "%Y-%m-%d %H:%M:%S%.3f"@,
        "%Y/%m/%d %H:%M:%S%.3f"@,
        "%Y-%m-%d %H:%M:%S"@,
        "%Y/%m/%d %H:%M:%S"@,
    ]
}

/// The first format, from `k` on, that chrono reads `text` with.
pub open spec fn first_parse(text: Seq<char>, k: int) -> Option<i64>
    decreases 4 - k,
{
    if k >= 4 || k < 0 {
        None
    } else {
        match parsed_utc_millis(text, timestamp_formats()[k]) {
            Some(v) => Some(v),
            None => first_parse(text, k + 1),
        }
    }
}

/// The instant a timestamp text names: with `T` taken as a space, read in
/// the first format that fits; else the text as a decimal number of
/// milliseconds; else 0.
pub open spec fn timestamp_value(ts: Seq<char>) -> i64 {
    match first_parse(replace_char(ts, 'T', " "@), 0) {
        Some(v) => v,
        None => match i64_text_value(ts) {
            Some(v) => v as i64,
            None => 0,
        },
    }
}

proof fn lemma_no_t(s: Seq<char>)
    requires
        forall|i: int| 0 <= i < s.len() ==> #[trigger] s[i] != 'T',
    ensures
        replace_char(s, 'T', " "@) == s,
    decreases s.len(),
{
    if s.len() > 0 {
        let pre = s.drop_last();
        assert forall|i: int| 0 <= i < pre.len() implies #[trigger] pre[i] != 'T' by {
            assert(pre[i] == s[i]);
        }
        lemma_no_t(pre);
        assert(s.last() == s[s.len() - 1]);
        assert(pre + seq![s.last()] =~= s);
    }
}

/// Reads a timestamp text; see `timestamp_value`. A plain
/// `YYYY-MM-DD HH:MM:SS.fff` or `YYYY/MM/DD HH:MM:SS.fff` text gives the
/// UTC milliseconds of its calendar fields, whichever separator it uses
/// (0 where they name no instant).
pub fn parse_timestamp(ts: &str) -> (r: i64)
    ensures
        r == timestamp_value(ts@),
        plain_datetime(ts@, '-') || plain_datetime(ts@, '/') ==> r == match plain_datetime_millis(ts@) {
            Some(v) => v,
            None => 0,
        },
{
    let clean = replace_all(ts, 'T', " ");
    let text = clean.as_str();
    proof {
        reveal_with_fuel(first_parse, 5);
        reveal_strlit("%Y-%m-%d %H:%M:%S%.3f");
        reveal_strlit("%Y/%m/%d %H:%M:%S%.3f");
        reveal_strlit("%Y-%m-%d %H:%M:%S");
        reveal_strlit("%Y/%m/%d %H:%M:%S");
        if plain_datetime(ts@, '-') || plain_datetime(ts@, '/') {
            lemma_no_t(ts@);
            assert(!(48 <= ts@[4] as int <= 57));
            assert(!all_decimal(ts@)) by {
                assert(!('0' <= ts@[4] <= '9'));
            }
            assert(i64_text_value(ts@) is None);
        }
    }
    if let Ok(v) = parse_utc_millis(text, "%Y-%m-%d %H:%M:%S%.3f") {
        return v;
    }
    if let Ok(v) = parse_utc_millis(text, "%Y/%m/%d %H:%M:%S%.3f") {
        return v;
    }
    if let Ok(v) = parse_utc_millis(text, "%Y-%m-%d %H:%M:%S") {
        return v;
    }
    if let Ok(v) = parse_utc_millis(text, "%Y/%m/%d %H:%M:%S") {
        return v;
    }
    match parse_i64(ts) {
        Ok(v) => v,
        Err(_) => 0,
    }
}

// ---------------------------------------------------------------------------
// Event records
// ---------------------------------------------------------------------------

pub open spec fn opt_text(o: Option<String>) -> Option<Seq<char>> {
    match o {
        Some(s) => Some(s@),
        None => None,
    }
}

/// The fields of an event as they are gathered from XML attributes and text.
pub struct EventData {
    pub oht_id: Option<String>,
    pub from_node: Option<String>,
    pub to_node: Option<String>,
    pub timestamp: Option<String>,
    pub status: Option<String>,
}

pub struct EventDataView {
    pub oht_id: Option<Seq<char>>,
    pub from_node: Option<Seq<char>>,
    pub to_node: Option<Seq<char>>,
    pub timestamp: Option<Seq<char>>,
    pub status: Option<Seq<char>>,
}

impl View for EventData {
    type V = EventDataView;

    open spec fn view(&self) -> EventDataView {
        EventDataView {
            oht_id: opt_text(self.oht_id),
            from_node: opt_text(self.from_node),
            to_node: opt_text(self.to_node),
            timestamp: opt_text(self.timestamp),
            status: opt_text(self.status),
        }
    }
}

pub open spec fn empty_data() -> EventDataView {
    EventDataView { oht_id: None, from_node: None, to_node: None, timestamp: None, status: None }
}

impl Default for EventData {
    fn default() -> (d: EventData)
        ensures
            d@ == empty_data(),
    {
        EventData { oht_id: None, from_node: None, to_node: None, timestamp: None, status: None }
    }
}

/// "blocked"
pub open spec fn w_blocked() -> Seq<u8> {
    seq![98u8, 108u8, 111u8, 99u8, 107u8, 101u8, 100u8]
}

/// "waiting"
pub open spec fn w_waiting() -> Seq<u8> {
    seq![119u8, 97u8, 105u8, 116u8, 105u8, 110u8, 103u8]
}

/// "wait"
pub open spec fn w_wait() -> Seq<u8> {
    seq![119u8, 97u8, 105u8, 116u8]
}

/// "depart"
pub open spec fn w_depart() -> Seq<u8> {
    seq![100u8, 101u8, 112u8, 97u8, 114u8, 116u8]
}

/// "arrive"
pub open spec fn w_arrive() -> Seq<u8> {
    seq![97u8, 114u8, 114u8, 105u8, 118u8, 101u8]
}

/// "estop"
pub open spec fn w_estop() -> Seq<u8> {
    seq![101u8, 115u8, 116u8, 111u8, 112u8]
}

/// "emergency"
pub open spec fn w_emergency() -> Seq<u8> {
    seq![101u8, 109u8, 101u8, 114u8, 103u8, 101u8, 110u8, 99u8, 121u8]
}

fn w_blocked_bytes() -> (a: [u8; 7])
    ensures
        a@ == w_blocked(),
{
    [98, 108, 111, 99, 107, 101, 100]
}

fn w_waiting_bytes() -> (a: [u8; 7])
    ensures
        a@ == w_waiting(),
{
    [119, 97, 105, 116, 105, 110, 103]
}

fn w_wait_bytes() -> (a: [u8; 4])
    ensures
        a@ == w_wait(),
{
    [119, 97, 105, 116]
}

fn w_depart_bytes() -> (a: [u8; 6])
    ensures
        a@ == w_depart(),
{
    [100, 101, 112, 97, 114, 116]
}

fn w_arrive_bytes() -> (a: [u8; 6])
    ensures
        a@ == w_arrive(),
{
    [97, 114, 114, 105, 118, 101]
}

fn w_estop_bytes() -> (a: [u8; 5])
    ensures
        a@ == w_estop(),
{
    [101, 115, 116, 111, 112]
}

fn w_emergency_bytes() -> (a: [u8; 9])
    ensures
        a@ == w_emergency(),
{
    [101, 109, 101, 114, 103, 101, 110, 99, 121]
}

/// The kind of movement an XML status word names.
pub open spec fn status_event_type(status: Option<Seq<char>>) -> MoveEventType {
    match status {
        Some(s) => if text_eq_ignore_case(s, w_blocked()) || text_eq_ignore_case(s, w_waiting()) {
            MoveEventType::Blocked
        } else if text_eq_ignore_case(s, w_depart()) {
            MoveEventType::Depart
        } else if text_eq_ignore_case(s, w_arrive()) {
            MoveEventType::Arrive
        } else if text_eq_ignore_case(s, w_estop()) || text_eq_ignore_case(s, w_emergency()) {
            MoveEventType::EmergencyStop
        } else {
            MoveEventType::PassThrough
        },
        None => MoveEventType::PassThrough,
    }
}

/// The event a record makes: one where the vehicle and both nodes are known.
pub open spec fn data_event(d: EventDataView) -> Option<EventView> {
    match (d.oht_id, d.from_node, d.to_node) {
        (Some(oht), Some(from), Some(to)) => Some(
            EventView {
                timestamp: timestamp_value(
                    match d.timestamp {
                        Some(t) => t,
                        None => seq![],
                    },
                ),
                oht_id: oht,
                from_node: from,
                to_node: to,
                event_type: status_event_type(d.status),
                duration_ms: 0,
            },
        ),
        _ => None,
    }
}

impl EventData {
    /// The event the record makes, if the vehicle and both nodes are known.
    pub fn into_event(self) -> (e: Option<OhtMoveEvent>)
        ensures
            opt_event_view(e) == data_event(self@),
    {
        let ghost v = self@;
        let oht_id = match self.oht_id {
            Some(s) => s,
            None => {
                return None;
            },
        };
        let from_node = match self.from_node {
            Some(s) => s,
            None => {
                return None;
            },
        };
        let to_node = match self.to_node {
            Some(s) => s,
            None => {
                return None;
            },
        };
        let ts = match self.timestamp {
            Some(s) => s,
            None => String::new(),
        };
        let timestamp = parse_timestamp(ts.as_str());
        let event_type = match &self.status {
            Some(s) => {
                let s = s.as_str();
                if str_eq_ignore_case(s, w_blocked_bytes().as_slice()) || str_eq_ignore_case(
                    s,
                    w_waiting_bytes().as_slice(),
                ) {
                    MoveEventType::Blocked
                } else if str_eq_ignore_case(s, w_depart_bytes().as_slice()) {
                    MoveEventType::Depart
                } else if str_eq_ignore_case(s, w_arrive_bytes().as_slice()) {
                    MoveEventType::Arrive
                } else if str_eq_ignore_case(s, w_estop_bytes().as_slice()) || str_eq_ignore_case(
                    s,
                    w_emergency_bytes().as_slice(),
                ) {
                    MoveEventType::EmergencyStop
                } else {
                    MoveEventType::PassThrough
                }
            },
            None => MoveEventType::PassThrough,
        };
        Some(OhtMoveEvent { timestamp, oht_id, from_node, to_node, event_type, duration_ms: 0 })
    }
}

// ---------------------------------------------------------------------------
// Text lines
// ---------------------------------------------------------------------------

/// The kind of movement a text line reports, by the words in it.
pub open spec fn line_event_type(lower: Seq<char>) -> MoveEventType {
    if text_contains(lower, w_blocked()) || text_contains(lower, w_wait()) {
        MoveEventType::Blocked
    } else if text_contains(lower, w_depart()) {
        MoveEventType::Depart
    } else if text_contains(lower, w_arrive()) {
        MoveEventType::Arrive
    } else if text_contains(lower, w_estop()) || text_contains(lower, w_emergency()) {
        MoveEventType::EmergencyStop
    } else {
        MoveEventType::PassThrough
    }
}

/// The vehicle and the two nodes, from the groups of a movement match.
pub open spec fn move_groups(g: Seq<Option<Seq<char>>>) -> Option<(Seq<char>, Seq<char>, Seq<char>)> {
    if g.len() > 3 && g[1] is Some && g[2] is Some && g[3] is Some {
        Some((g[1]->Some_0, g[2]->Some_0, g[3]->Some_0))
    } else {
        None
    }
}

/// The event of a text line given the groups of its movement match, the
/// timestamp read from it and the lower-cased line.
pub open spec fn groups_event(g: Seq<Option<Seq<char>>>, timestamp: i64, lower: Seq<char>) -> Option<
    EventView,
> {
    match move_groups(g) {
        Some((oht, from, to)) => Some(
            EventView {
                timestamp,
                oht_id: oht,
                from_node: from,
                to_node: to,
                event_type: line_event_type(lower),
                duration_ms: 0,
            },
        ),
        None => None,
    }
}

/// The timestamp of a text line: the first date-time match read by
/// `timestamp_value`, else 0.
pub open spec fn line_timestamp(ts_pattern: Seq<char>, line: Seq<char>) -> i64 {
    match regex_captures(ts_pattern, line) {
        Some(g) => if g.len() > 1 && g[1] is Some {
            timestamp_value(g[1]->Some_0)
        } else {
            0
        },
        None => 0,
    }
}

/// The event of a text line, by the movement and timestamp expressions.
pub open spec fn line_event(oht_pattern: Seq<char>, ts_pattern: Seq<char>, line: Seq<char>) -> Option<
    EventView,
> {
    match regex_captures(oht_pattern, line) {
        Some(g) => groups_event(g, line_timestamp(ts_pattern, line), unicode_lower(line)),
        None => None,
    }
}

/// Builds the event of a text line from the groups of its movement match
/// (the vehicle, the node left and the node reached being groups 1 to 3),
/// the timestamp read from the line and the lower-cased line.
pub fn move_event_from_groups(groups: &Vec<Option<String>>, timestamp: i64, lower: &str) -> (e: Option<
    OhtMoveEvent,
>)
    ensures
        opt_event_view(e) == groups_event(groups_view(groups@), timestamp, lower@),
{
    if groups.len() <= 3 {
        return None;
    }
    let oht_id = match &groups[1] {
        Some(s) => s.clone(),
        None => {
            return None;
        },
    };
    let from_node = match &groups[2] {
        Some(s) => s.clone(),
        None => {
            return None;
        },
    };
    let to_node = match &groups[3] {
        Some(s) => s.clone(),
        None => {
            return None;
        },
    };
    let event_type = if str_contains(lower, w_blocked_bytes().as_slice()) || str_contains(
        lower,
        w_wait_bytes().as_slice(),
    ) {
        MoveEventType::Blocked
    } else if str_contains(lower, w_depart_bytes().as_slice()) {
        MoveEventType::Depart
    } else if str_contains(lower, w_arrive_bytes().as_slice()) {
        MoveEventType::Arrive
    } else if str_contains(lower, w_estop_bytes().as_slice()) || str_contains(
        lower,
        w_emergency_bytes().as_slice(),
    ) {
        MoveEventType::EmergencyStop
    } else {
        MoveEventType::PassThrough
    };
    Some(OhtMoveEvent { timestamp, oht_id, from_node, to_node, event_type, duration_ms: 0 })
}

/// The movement event a text line reports, by the movement expression
/// `oht_re` and the date-time expression `ts_re`.
pub fn extract_move_event(line: &str, oht_re: &Pattern, ts_re: &Pattern) -> (e: Option<OhtMoveEvent>)
    ensures
        opt_event_view(e) == line_event(oht_re.source(), ts_re.source(), line@),
{
    let groups = match captures(oht_re, line) {
        Some(g) => g,
        None => {
            return None;
        },
    };
    let timestamp = match captures(ts_re, line) {
        Some(t) => {
            if t.len() > 1 {
                match &t[1] {
                    Some(s) => parse_timestamp(s.as_str()),
                    None => 0,
                }
            } else {
                0
            }
        },
        None => 0,
    };
    let lower = lowercase(line);
    move_event_from_groups(&groups, timestamp, lower.as_str())
}

/// The event a line of a text dump contributes: lines without a message
/// header contribute none.
pub open spec fn text_line_event(p: MovePatterns, line: Seq<char>) -> Option<EventView> {
    if regex_captures(p.secs.source(), line) is Some {
        line_event(p.oht.source(), p.timestamp.source(), line)
    } else {
        None
    }
}

/// The event one line of a text dump contributes.
pub fn scan_text_line(line: &str, patterns: &MovePatterns) -> (e: Option<OhtMoveEvent>)
    ensures
        opt_event_view(e) == text_line_event(*patterns, line@),
{
    if !is_match(&patterns.secs, line) {
        return None;
    }
    extract_move_event(line, &patterns.oht, &patterns.timestamp)
}

/// "oht"
pub open spec fn k_oht() -> Seq<u8> {
    seq![111u8, 104u8, 116u8]
}

/// "transfer"
pub open spec fn k_transfer() -> Seq<u8> {
    seq![116u8, 114u8, 97u8, 110u8, 115u8, 102u8, 101u8, 114u8]
}

/// "transit"
pub open spec fn k_transit() -> Seq<u8> {
    seq![116u8, 114u8, 97u8, 110u8, 115u8, 105u8, 116u8]
}

/// "vehicle"
pub open spec fn k_vehicle() -> Seq<u8> {
    seq![118u8, 101u8, 104u8, 105u8, 99u8, 108u8, 101u8]
}

/// "time"
pub open spec fn k_time() -> Seq<u8> {
    seq![116u8, 105u8, 109u8, 101u8]
}

/// "timestamp"
pub open spec fn k_timestamp() -> Seq<u8> {
    seq![116u8, 105u8, 109u8, 101u8, 115u8, 116u8, 97u8, 109u8, 112u8]
}

/// "ts"
pub open spec fn k_ts() -> Seq<u8> {
    seq![116u8, 115u8]
}

/// "id"
pub open spec fn k_id() -> Seq<u8> {
    seq![105u8, 100u8]
}

/// "from"
pub open spec fn k_from() -> Seq<u8> {
    seq![102u8, 114u8, 111u8, 109u8]
}

/// "source"
pub open spec fn k_source() -> Seq<u8> {
    seq![115u8, 111u8, 117u8, 114u8, 99u8, 101u8]
}

/// "src"
pub open spec fn k_src() -> Seq<u8> {
    seq![115u8, 114u8, 99u8]
}

/// "to"
pub open spec fn k_to() -> Seq<u8> {
    seq![116u8, 111u8]
}

/// "dest"
pub open spec fn k_dest() -> Seq<u8> {
    seq![100u8, 101u8, 115u8, 116u8]
}

/// "target"
pub open spec fn k_target() -> Seq<u8> {
    seq![116u8, 97u8, 114u8, 103u8, 101u8, 116u8]
}

/// "status"
pub open spec fn k_status() -> Seq<u8> {
    seq![115u8, 116u8, 97u8, 116u8, 117u8, 115u8]
}

/// "type"
pub open spec fn k_type() -> Seq<u8> {
    seq![116u8, 121u8, 112u8, 101u8]
}

/// "event"
pub open spec fn k_event() -> Seq<u8> {
    seq![101u8, 118u8, 101u8, 110u8, 116u8]
}

fn k_oht_bytes() -> (a: [u8; 3])
    ensures
        a@ == k_oht(),
{
    [111, 104, 116]
}

fn k_transfer_bytes() -> (a: [u8; 8])
    ensures
        a@ == k_transfer(),
{
    [116, 114, 97, 110, 115, 102, 101, 114]
}

fn k_transit_bytes() -> (a: [u8; 7])
    ensures
        a@ == k_transit(),
{
    [116, 114, 97, 110, 115, 105, 116]
}

fn k_vehicle_bytes() -> (a: [u8; 7])
    ensures
        a@ == k_vehicle(),
{
    [118, 101, 104, 105, 99, 108, 101]
}

fn k_time_bytes() -> (a: [u8; 4])
    ensures
        a@ == k_time(),
{
    [116, 105, 109, 101]
}

fn k_timestamp_bytes() -> (a: [u8; 9])
    ensures
        a@ == k_timestamp(),
{
    [116, 105, 109, 101, 115, 116, 97, 109, 112]
}

fn k_ts_bytes() -> (a: [u8; 2])
    ensures
        a@ == k_ts(),
{
    [116, 115]
}

fn k_id_bytes() -> (a: [u8; 2])
    ensures
        a@ == k_id(),
{
    [105, 100]
}

fn k_from_bytes() -> (a: [u8; 4])
    ensures
        a@ == k_from(),
{
    [102, 114, 111, 109]
}

fn k_source_bytes() -> (a: [u8; 6])
    ensures
        a@ == k_source(),
{
    [115, 111, 117, 114, 99, 101]
}

fn k_src_bytes() -> (a: [u8; 3])
    ensures
        a@ == k_src(),
{
    [115, 114, 99]
}

fn k_to_bytes() -> (a: [u8; 2])
    ensures
        a@ == k_to(),
{
    [116, 111]
}

fn k_dest_bytes() -> (a: [u8; 4])
    ensures
        a@ == k_dest(),
{
    [100, 101, 115, 116]
}

fn k_target_bytes() -> (a: [u8; 6])
    ensures
        a@ == k_target(),
{
    [116, 97, 114, 103, 101, 116]
}

fn k_status_bytes() -> (a: [u8; 6])
    ensures
        a@ == k_status(),
{
    [115, 116, 97, 116, 117, 115]
}

fn k_type_bytes() -> (a: [u8; 4])
    ensures
        a@ == k_type(),
{
    [116, 121, 112, 101]
}

fn k_event_bytes() -> (a: [u8; 5])
    ensures
        a@ == k_event(),
{
    [101, 118, 101, 110, 116]
}

/// A tag whose (lower-cased) name mentions a vehicle movement.
pub open spec fn is_oht_tag(name: Seq<char>) -> bool {
    let l = unicode_lower(name);
    text_contains(l, k_oht()) || text_contains(l, k_transfer()) || text_contains(l, k_transit())
        || text_contains(l, k_vehicle())
}

/// An attribute key (lower-cased) that names a time.
pub open spec fn key_time(k: Seq<char>) -> bool {
    text_contains(k, k_time()) || text_contains(k, k_timestamp()) || text_contains(k, k_ts())
}

/// An attribute key (lower-cased) that names the vehicle.
pub open spec fn key_oht(k: Seq<char>) -> bool {
    text_contains(k, k_oht()) || text_contains(k, k_vehicle()) || text_contains(k, k_id())
}

/// An attribute key (lower-cased) that names the node left.
pub open spec fn key_from(k: Seq<char>) -> bool {
    text_contains(k, k_from()) || text_contains(k, k_source()) || text_contains(k, k_src())
}

/// An attribute key (lower-cased) that names the node reached.
pub open spec fn key_to(k: Seq<char>) -> bool {
    text_contains(k, k_to()) || text_contains(k, k_dest()) || text_contains(k, k_target())
}

/// An attribute key (lower-cased) that names the status.
pub open spec fn key_status(k: Seq<char>) -> bool {
    text_contains(k, k_status()) || text_contains(k, k_type()) || text_contains(k, k_event())
}

fn oht_tag(name: &str) -> (r: bool)
    ensures
        r == is_oht_tag(name@),
{
    let l = lowercase(name);
    let l = l.as_str();
    str_contains(l, k_oht_bytes().as_slice()) || str_contains(l, k_transfer_bytes().as_slice())
        || str_contains(l, k_transit_bytes().as_slice()) || str_contains(
        l,
        k_vehicle_bytes().as_slice(),
    )
}

fn time_key(k: &str) -> (r: bool)
    ensures
        r == key_time(k@),
{
    str_contains(k, k_time_bytes().as_slice()) || str_contains(k, k_timestamp_bytes().as_slice())
        || str_contains(k, k_ts_bytes().as_slice())
}

fn oht_key(k: &str) -> (r: bool)
    ensures
        r == key_oht(k@),
{
    str_contains(k, k_oht_bytes().as_slice()) || str_contains(k, k_vehicle_bytes().as_slice())
        || str_contains(k, k_id_bytes().as_slice())
}

fn from_key(k: &str) -> (r: bool)
    ensures
        r == key_from(k@),
{
    str_contains(k, k_from_bytes().as_slice()) || str_contains(k, k_source_bytes().as_slice())
        || str_contains(k, k_src_bytes().as_slice())
}

fn to_key(k: &str) -> (r: bool)
    ensures
        r == key_to(k@),
{
    str_contains(k, k_to_bytes().as_slice()) || str_contains(k, k_dest_bytes().as_slice())
        || str_contains(k, k_target_bytes().as_slice())
}

fn status_key(k: &str) -> (r: bool)
    ensures
        r == key_status(k@),
{
    str_contains(k, k_status_bytes().as_slice()) || str_contains(k, k_type_bytes().as_slice())
        || str_contains(k, k_event_bytes().as_slice())
}

// ---------------------------------------------------------------------------
// XML records
// ---------------------------------------------------------------------------

/// One XML event, with names and texts already decoded.
pub enum XmlItem {
    Start { name: String, attributes: Vec<(String, String)> },
    Empty { name: String, attributes: Vec<(String, String)> },
    Text { text: String },
    End { name: String },
    Eof,
    Error,
    Other,
}

pub enum XmlItemView {
    Start { name: Seq<char>, attributes: Seq<(Seq<char>, Seq<char>)> },
    Empty { name: Seq<char>, attributes: Seq<(Seq<char>, Seq<char>)> },
    Text { text: Seq<char> },
    End { name: Seq<char> },
    Eof,
    Error,
    Other,
}

pub open spec fn attrs_view(a: Seq<(String, String)>) -> Seq<(Seq<char>, Seq<char>)> {
    a.map_values(|p: (String, String)| (p.0@, p.1@))
}

impl View for XmlItem {
    type V = XmlItemView;

    open spec fn view(&self) -> XmlItemView {
        match self {
            XmlItem::Start { name, attributes } => XmlItemView::Start {
                name: name@,
                attributes: attrs_view(attributes@),
            },
            XmlItem::Empty { name, attributes } => XmlItemView::Empty {
                name: name@,
                attributes: attrs_view(attributes@),
            },
            XmlItem::Text { text } => XmlItemView::Text { text: text@ },
            XmlItem::End { name } => XmlItemView::End { name: name@ },
            XmlItem::Eof => XmlItemView::Eof,
            XmlItem::Error => XmlItemView::Error,
            XmlItem::Other => XmlItemView::Other,
        }
    }
}

/// What the reader of the XML stream is to do after an event.
pub enum XmlAction {
    /// Read the next event.
    Continue,
    /// Hand on a full batch of events, then read on.
    Send(Vec<OhtMoveEvent>),
    /// The stream has ended; hand on the last batch where there is one.
    Finish(Option<Vec<OhtMoveEvent>>),
    /// The stream could not be read on; stop.
    Abort,
}

pub enum XmlActionView {
    Continue,
    Send(Seq<EventView>),
    Finish(Option<Seq<EventView>>),
    Abort,
}

pub open spec fn events_view(v: Seq<OhtMoveEvent>) -> Seq<EventView> {
    v.map_values(|e: OhtMoveEvent| e@)
}

impl View for XmlAction {
    type V = XmlActionView;

    open spec fn view(&self) -> XmlActionView {
        match self {
            XmlAction::Continue => XmlActionView::Continue,
            XmlAction::Send(b) => XmlActionView::Send(events_view(b@)),
            XmlAction::Finish(Some(b)) => XmlActionView::Finish(Some(events_view(b@))),
            XmlAction::Finish(None) => XmlActionView::Finish(None),
            XmlAction::Abort => XmlActionView::Abort,
        }
    }
}

/// Gathers events from the XML stream, one event of the stream at a time.
pub struct XmlEventCollector {
    in_oht_event: bool,
    current_event_data: Option<EventData>,
    parent_timestamp: Option<String>,
    batch: Vec<OhtMoveEvent>,
}

pub struct CollectorView {
    pub in_oht_event: bool,
    pub current: Option<EventDataView>,
    pub parent_timestamp: Option<Seq<char>>,
    pub batch: Seq<EventView>,
}

pub open spec fn opt_data(o: Option<EventData>) -> Option<EventDataView> {
    match o {
        Some(d) => Some(d@),
        None => None,
    }
}

impl View for XmlEventCollector {
    type V = CollectorView;

    closed spec fn view(&self) -> CollectorView {
        CollectorView {
            in_oht_event: self.in_oht_event,
            current: opt_data(self.current_event_data),
            parent_timestamp: opt_text(self.parent_timestamp),
            batch: events_view(self.batch@),
        }
    }
}

/// The largest batch kept before it is handed on.
pub open spec fn batch_limit() -> nat {
    1000
}

/// An attribute of an opening tag: a time is kept for the records inside,
/// and the record being gathered takes what the key names.
pub open spec fn start_attr(
    parent: Option<Seq<char>>,
    cur: Option<EventDataView>,
    key: Seq<char>,
    val: Seq<char>,
) -> (Option<Seq<char>>, Option<EventDataView>) {
    let k = unicode_lower(key);
    let parent2 = if key_time(k) {
        Some(val)
    } else {
        parent
    };
    let cur2 = match cur {
        Some(ed) => Some(
            EventDataView {
                oht_id: if key_oht(k) {
                    Some(val)
                } else {
                    ed.oht_id
                },
                from_node: if key_from(k) {
                    Some(val)
                } else {
                    ed.from_node
                },
                to_node: if key_to(k) {
                    Some(val)
                } else {
                    ed.to_node
                },
                timestamp: if key_time(k) {
                    Some(val)
                } else {
                    ed.timestamp
                },
                status: ed.status,
            },
        ),
        None => None,
    };
    (parent2, cur2)
}

pub open spec fn start_attrs(
    parent: Option<Seq<char>>,
    cur: Option<EventDataView>,
    attrs: Seq<(Seq<char>, Seq<char>)>,
) -> (Option<Seq<char>>, Option<EventDataView>)
    decreases attrs.len(),
{
    if attrs.len() == 0 {
        (parent, cur)
    } else {
        let (p, c) = start_attrs(parent, cur, attrs.drop_last());
        start_attr(p, c, attrs.last().0, attrs.last().1)
    }
}

/// An attribute of a self-closing record: the record takes what the key
/// names.
pub open spec fn empty_attr(ed: EventDataView, key: Seq<char>, val: Seq<char>) -> EventDataView {
    let k = unicode_lower(key);
    EventDataView {
        oht_id: if key_oht(k) {
            Some(val)
        } else {
            ed.oht_id
        },
        from_node: if key_from(k) {
            Some(val)
        } else {
            ed.from_node
        },
        to_node: if key_to(k) {
            Some(val)
        } else {
            ed.to_node
        },
        timestamp: if key_time(k) {
            Some(val)
        } else {
            ed.timestamp
        },
        status: if key_status(k) {
            Some(val)
        } else {
            ed.status
        },
    }
}

pub open spec fn empty_attrs(ed: EventDataView, attrs: Seq<(Seq<char>, Seq<char>)>) -> EventDataView
    decreases attrs.len(),
{
    if attrs.len() == 0 {
        ed
    } else {
        let e = empty_attrs(ed, attrs.drop_last());
        empty_attr(e, attrs.last().0, attrs.last().1)
    }
}

/// Text inside a record: a movement sentence gives the vehicle and both
/// nodes; a date-time gives the timestamp where none is known yet.
pub open spec fn text_update(ed: EventDataView, oht_src: Seq<char>, ts_src: Seq<char>, text: Seq<char>) -> EventDataView {
    let ed1 = match regex_captures(oht_src, text) {
        Some(g) => match move_groups(g) {
            Some((o, f, t)) => EventDataView {
                oht_id: Some(o),
                from_node: Some(f),
                to_node: Some(t),
                ..ed
            },
            None => ed,
        },
        None => ed,
    };
    if ed1.timestamp is None {
        match regex_captures(ts_src, text) {
            Some(g) => if g.len() > 1 && g[1] is Some {
                EventDataView { timestamp: Some(g[1]->Some_0), ..ed1 }
            } else {
                ed1
            },
            None => ed1,
        }
    } else {
        ed1
    }
}

/// The batch is handed on once it holds the limit.
pub open spec fn flush(v: CollectorView) -> (CollectorView, XmlActionView) {
    if v.batch.len() >= batch_limit() {
        (CollectorView { batch: seq![], ..v }, XmlActionView::Send(v.batch))
    } else {
        (v, XmlActionView::Continue)
    }
}

pub open spec fn with_event(batch: Seq<EventView>, e: Option<EventView>) -> Seq<EventView> {
    match e {
        Some(x) => batch.push(x),
        None => batch,
    }
}

/// The record a self-closing tag describes: its attributes, and the time
/// of the enclosing tags where it names none.
pub open spec fn self_closed_data(parent: Option<Seq<char>>, attributes: Seq<(Seq<char>, Seq<char>)>) -> EventDataView {
    let ed = empty_attrs(empty_data(), attributes);
    if ed.timestamp is None {
        EventDataView { timestamp: parent, ..ed }
    } else {
        ed
    }
}

/// What the collector does with one event of the XML stream.
pub open spec fn xml_step(v: CollectorView, item: XmlItemView, oht_src: Seq<char>, ts_src: Seq<char>) -> (
    CollectorView,
    XmlActionView,
) {
    match item {
        XmlItemView::Start { name, attributes } => {
            let opens = is_oht_tag(name);
            let cur = if opens {
                Some(empty_data())
            } else {
                v.current
            };
            let (parent, cur2) = start_attrs(v.parent_timestamp, cur, attributes);
            (
                CollectorView {
                    in_oht_event: opens || v.in_oht_event,
                    current: cur2,
                    parent_timestamp: parent,
                    batch: v.batch,
                },
                XmlActionView::Continue,
            )
        },
        XmlItemView::Empty { name, attributes } => if is_oht_tag(name) {
            flush(
                CollectorView {
                    batch: with_event(v.batch, data_event(self_closed_data(v.parent_timestamp, attributes))),
                    ..v
                },
            )
        } else {
            (v, XmlActionView::Continue)
        },
        XmlItemView::Text { text } => if v.in_oht_event {
            match v.current {
                Some(ed) => (
                    CollectorView { current: Some(text_update(ed, oht_src, ts_src, text)), ..v },
                    XmlActionView::Continue,
                ),
                None => (v, XmlActionView::Continue),
            }
        } else {
            (v, XmlActionView::Continue)
        },
        XmlItemView::End { name } => {
            let v2 = if v.in_oht_event && is_oht_tag(name) {
                let batch = match v.current {
                    Some(ed) => with_event(v.batch, data_event(ed)),
                    None => v.batch,
                };
                CollectorView { in_oht_event: false, current: None, batch, ..v }
            } else {
                v
            };
            flush(v2)
        },
        XmlItemView::Eof => (
            CollectorView { batch: seq![], ..v },
            XmlActionView::Finish(
                if v.batch.len() > 0 {
                    Some(v.batch)
                } else {
                    None
                },
            ),
        ),
        XmlItemView::Error => (v, XmlActionView::Abort),
        XmlItemView::Other => (v, XmlActionView::Continue),
    }
}

pub open spec fn fresh_collector() -> CollectorView {
    CollectorView { in_oht_event: false, current: None, parent_timestamp: None, batch: seq![] }
}

impl XmlEventCollector {
    pub fn new() -> (c: Self)
        ensures
            c@ == fresh_collector(),
    {
        let c = XmlEventCollector {
            in_oht_event: false,
            current_event_data: None,
            parent_timestamp: None,
            batch: Vec::new(),
        };
        assert(events_view(c.batch@) =~= seq![]);
        c
    }

    /// Hands the batch on where it has reached the limit.
    fn flush_batch(&mut self) -> (a: XmlAction)
        ensures
            (final(self)@, a@) == flush(old(self)@),
    {
        if self.batch.len() >= 1000 {
            let mut out = Vec::new();
            std::mem::swap(&mut out, &mut self.batch);
            assert(events_view(self.batch@) =~= seq![]);
            XmlAction::Send(out)
        } else {
            XmlAction::Continue
        }
    }

    fn push_event(&mut self, e: Option<OhtMoveEvent>)
        ensures
            final(self)@ == (CollectorView {
                batch: with_event(old(self)@.batch, opt_event_view(e)),
                ..old(self)@
            }),
    {
        if let Some(x) = e {
            self.batch.push(x);
            assert(events_view(self.batch@) =~= events_view(old(self).batch@).push(x@));
        }
    }

    /// Takes one event of the XML stream, with the movement expression
    /// `patterns.oht` and the date-time expression `patterns.timestamp`.
    pub fn step(&mut self, item: XmlItem, patterns: &MovePatterns) -> (a: XmlAction)
        ensures
            (final(self)@, a@) == xml_step(
                old(self)@,
                item@,
                patterns.oht.source(),
                patterns.timestamp.source(),
            ),
    {
        let ghost iv = item@;
        match item {
            XmlItem::Start { name, attributes } => {
                if oht_tag(name.as_str()) {
                    self.in_oht_event = true;
                    self.current_event_data = Some(EventData::default());
                }
                self.start_attributes(&attributes);
                XmlAction::Continue
            },
            XmlItem::Empty { name, attributes } => {
                if oht_tag(name.as_str()) {
                    let mut ed = EventData::default();
                    empty_attributes(&mut ed, &attributes);
                    if ed.timestamp.is_none() {
                        ed.timestamp = self.parent_timestamp.clone();
                    }
                    let e = ed.into_event();
                    self.push_event(e);
                    self.flush_batch()
                } else {
                    XmlAction::Continue
                }
            },
            XmlItem::Text { text } => {
                if self.in_oht_event {
                    match self.current_event_data.take() {
                        Some(mut ed) => {
                            text_fields(&mut ed, text.as_str(), patterns);
                            self.current_event_data = Some(ed);
                        },
                        None => {},
                    }
                }
                XmlAction::Continue
            },
            XmlItem::End { name } => {
                if self.in_oht_event && oht_tag(name.as_str()) {
                    match self.current_event_data.take() {
                        Some(ed) => {
                            let e = ed.into_event();
                            self.push_event(e);
                        },
                        None => {},
                    }
                    self.in_oht_event = false;
                }
                self.flush_batch()
            },
            XmlItem::Eof => {
                let mut out = Vec::new();
                std::mem::swap(&mut out, &mut self.batch);
                assert(events_view(self.batch@) =~= seq![]);
                if out.len() > 0 {
                    XmlAction::Finish(Some(out))
                } else {
                    XmlAction::Finish(None)
                }
            },
            XmlItem::Error => XmlAction::Abort,
            XmlItem::Other => XmlAction::Continue,
        }
    }

    fn start_attributes(&mut self, attributes: &Vec<(String, String)>)
        ensures
            ({
                let (p, c) = start_attrs(
                    old(self)@.parent_timestamp,
                    old(self)@.current,
                    attrs_view(attributes@),
                );
                final(self)@ == CollectorView { parent_timestamp: p, current: c, ..old(self)@ }
            }),
    {
        let ghost a = attrs_view(attributes@);
        let mut i: usize = 0;
        while i < attributes.len()
            invariant
                i <= attributes@.len(),
                a == attrs_view(attributes@),
                ({
                    let (p, c) = start_attrs(
                        old(self)@.parent_timestamp,
                        old(self)@.current,
                        a.take(i as int),
                    );
                    self@ == CollectorView { parent_timestamp: p, current: c, ..old(self)@ }
                }),
            decreases attributes@.len() - i,
        {
            let key = &attributes[i].0;
            let val = &attributes[i].1;
            proof {
                assert(a.take(i + 1).drop_last() =~= a.take(i as int));
                assert(a.take(i + 1).last() == (key@, val@));
            }
            let k = lowercase(key.as_str());
            let k = k.as_str();
            let is_time = time_key(k);
            if is_time {
                self.parent_timestamp = Some(val.clone());
            }
            match self.current_event_data.take() {
                Some(mut ed) => {
                    if oht_key(k) {
                        ed.oht_id = Some(val.clone());
                    }
                    if from_key(k) {
                        ed.from_node = Some(val.clone());
                    }
                    if to_key(k) {
                        ed.to_node = Some(val.clone());
                    }
                    if is_time {
                        ed.timestamp = Some(val.clone());
                    }
                    self.current_event_data = Some(ed);
                },
                None => {},
            }
            i = i + 1;
        }
        proof {
            assert(a.take(a.len() as int) =~= a);
        }
    }
}

fn empty_attributes(ed: &mut EventData, attributes: &Vec<(String, String)>)
    ensures
        final(ed)@ == empty_attrs(old(ed)@, attrs_view(attributes@)),
{
    let ghost a = attrs_view(attributes@);
    let mut i: usize = 0;
    while i < attributes.len()
        invariant
            i <= attributes@.len(),
            a == attrs_view(attributes@),
            ed@ == empty_attrs(old(ed)@, a.take(i as int)),
        decreases attributes@.len() - i,
    {
        let key = &attributes[i].0;
        let val = &attributes[i].1;
        proof {
            assert(a.take(i + 1).drop_last() =~= a.take(i as int));
            assert(a.take(i + 1).last() == (key@, val@));
        }
        let k = lowercase(key.as_str());
        let k = k.as_str();
        if oht_key(k) {
            ed.oht_id = Some(val.clone());
        }
        if from_key(k) {
            ed.from_node = Some(val.clone());
        }
        if to_key(k) {
            ed.to_node = Some(val.clone());
        }
        if time_key(k) {
            ed.timestamp = Some(val.clone());
        }
        if status_key(k) {
            ed.status = Some(val.clone());
        }
        i = i + 1;
    }
    proof {
        assert(a.take(a.len() as int) =~= a);
    }
}

/// Takes the fields a text inside a record gives.
fn text_fields(ed: &mut EventData, text: &str, patterns: &MovePatterns)
    ensures
        final(ed)@ == text_update(old(ed)@, patterns.oht.source(), patterns.timestamp.source(), text@),
{
    match captures(&patterns.oht, text) {
        Some(g) => {
            if g.len() > 3 {
                match (&g[1], &g[2], &g[3]) {
                    (Some(o), Some(f), Some(t)) => {
                        ed.oht_id = Some(o.clone());
                        ed.from_node = Some(f.clone());
                        ed.to_node = Some(t.clone());
                    },
                    _ => {},
                }
            }
        },
        None => {},
    }
    if ed.timestamp.is_none() {
        match captures(&patterns.timestamp, text) {
            Some(g) => {
                if g.len() > 1 {
                    match &g[1] {
                        Some(t) => {
                            ed.timestamp = Some(t.clone());
                        },
                        None => {},
                    }
                }
            },
            None => {},
        }
    }
}


// ---------------------------------------------------------------------------
// Telling XML from text
// ---------------------------------------------------------------------------

/// The characters of the Unicode `White_Space` property, which
/// `str::trim_start` removes.
pub open spec fn is_white_space(c: char) -> bool {
    let x = c as int;
    ||| 9 <= x <= 13
    ||| x == 32
    ||| x == 0x85
    ||| x == 0xA0
    ||| x == 0x1680
    ||| 0x2000 <= x <= 0x200A
    ||| x == 0x2028
    ||| x == 0x2029
    ||| x == 0x202F
    ||| x == 0x205F
    ||| x == 0x3000
}

/// The text starts, after white space, with `<`.
pub open spec fn xml_head(s: Seq<char>) -> bool {
    exists|i: int| 0 <= i < s.len() && s[i] == '<' && forall|j: int| 0 <= j < i ==> is_white_space(#[trigger] s[j])
}

fn white_space_char(c: char) -> (r: bool)
    ensures
        r == is_white_space(c),
{
    let x = c as u32;
    (9 <= x && x <= 13) || x == 32 || x == 0x85 || x == 0xA0 || x == 0x1680 || (0x2000 <= x && x <= 0x200A)
        || x == 0x2028 || x == 0x2029 || x == 0x202F || x == 0x205F || x == 0x3000
}

/// Whether the head of a dump is XML: its first character that is not
/// white space is `<`.
pub fn looks_like_xml(head: &str) -> (r: bool)
    ensures
        r == xml_head(head@),
{
    let n = head.unicode_len();
    let mut i: usize = 0;
    while i < n
        invariant
            n == head@.len(),
            i <= n,
            forall|j: int| 0 <= j < i ==> is_white_space(#[trigger] head@[j]),
        decreases n - i,
    {
        let c = head.get_char(i);
        if !white_space_char(c) {
            if c == '<' {
                return true;
            }
            assert forall|k: int| 0 <= k < head@.len() && head@[k] == '<' implies !(forall|j: int|
                0 <= j < k ==> is_white_space(#[trigger] head@[j])) by {
                if k > i {
                    assert(!is_white_space(head@[i as int]));
                }
            }
            return false;
        }
        i = i + 1;
    }
    assert forall|k: int| 0 <= k < head@.len() implies head@[k] != '<' || !(forall|j: int|
        0 <= j < k ==> is_white_space(#[trigger] head@[j])) by {
        assert(is_white_space(head@[k]));
    }
    false
}

// ---------------------------------------------------------------------------
// Laws of text lines
// ---------------------------------------------------------------------------

/// The kind of a movement read from a text line follows from the words in
/// the lower-cased line: `blocked` or `wait` makes it blocked; else
/// `depart` a departure; else `arrive` an arrival; else `estop` or
/// `emergency` an emergency stop; else a pass.
pub proof fn lemma_line_kind_by_words(oht_pattern: Seq<char>, ts_pattern: Seq<char>, line: Seq<char>)
    ensures
        line_event(oht_pattern, ts_pattern, line) matches Some(e) ==> {
            let l = unicode_lower(line);
            let blocked = text_contains(l, seq![98u8, 108u8, 111u8, 99u8, 107u8, 101u8, 100u8])
                || text_contains(l, seq![119u8, 97u8, 105u8, 116u8]);
            let depart = text_contains(l, seq![100u8, 101u8, 112u8, 97u8, 114u8, 116u8]);
            let arrive = text_contains(l, seq![97u8, 114u8, 114u8, 105u8, 118u8, 101u8]);
            let stop = text_contains(l, seq![101u8, 115u8, 116u8, 111u8, 112u8]) || text_contains(
                l,
                seq![101u8, 109u8, 101u8, 114u8, 103u8, 101u8, 110u8, 99u8, 121u8],
            );
            &&& blocked ==> e.event_type == MoveEventType::Blocked
            &&& !blocked && depart ==> e.event_type == MoveEventType::Depart
            &&& !blocked && !depart && arrive ==> e.event_type == MoveEventType::Arrive
            &&& !blocked && !depart && !arrive && stop ==> e.event_type == MoveEventType::EmergencyStop
            &&& !blocked && !depart && !arrive && !stop ==> e.event_type == MoveEventType::PassThrough
        },
{
    assert(w_blocked() =~= seq![98u8, 108u8, 111u8, 99u8, 107u8, 101u8, 100u8]);
    assert(w_wait() =~= seq![119u8, 97u8, 105u8, 116u8]);
    assert(w_depart() =~= seq![100u8, 101u8, 112u8, 97u8, 114u8, 116u8]);
    assert(w_arrive() =~= seq![97u8, 114u8, 114u8, 105u8, 118u8, 101u8]);
    assert(w_estop() =~= seq![101u8, 115u8, 116u8, 111u8, 112u8]);
    assert(w_emergency() =~= seq![101u8, 109u8, 101u8, 114u8, 103u8, 101u8, 110u8, 99u8, 121u8]);
}

/// A record makes an event exactly when it names the vehicle and both
/// nodes; the event carries them, the instant of its time text (of the
/// empty text where it names none), no duration, and a kind given by its
/// status word, compared ignoring ASCII case: `blocked` or `waiting`, then
/// `depart`, `arrive`, `estop` or `emergency`; any other word, or none,
/// makes a pass.
pub proof fn lemma_record_event_fields(d: EventDataView)
    ensures
        (data_event(d) is Some) == (d.oht_id is Some && d.from_node is Some && d.to_node is Some),
        data_event(d) matches Some(e) ==> {
            &&& e.oht_id == d.oht_id->Some_0
            &&& e.from_node == d.from_node->Some_0
            &&& e.to_node == d.to_node->Some_0
            &&& e.duration_ms == 0
            &&& e.timestamp == timestamp_value(
                match d.timestamp {
                    Some(t) => t,
                    None => seq![],
                },
            )
        },
        data_event(d) matches Some(e) ==> match d.status {
            None => e.event_type == MoveEventType::PassThrough,
            Some(st) => {
                let blocked = text_eq_ignore_case(st, seq![98u8, 108u8, 111u8, 99u8, 107u8, 101u8, 100u8])
                    || text_eq_ignore_case(st, seq![119u8, 97u8, 105u8, 116u8, 105u8, 110u8, 103u8]);
                let depart = text_eq_ignore_case(st, seq![100u8, 101u8, 112u8, 97u8, 114u8, 116u8]);
                let arrive = text_eq_ignore_case(st, seq![97u8, 114u8, 114u8, 105u8, 118u8, 101u8]);
                let stop = text_eq_ignore_case(st, seq![101u8, 115u8, 116u8, 111u8, 112u8])
                    || text_eq_ignore_case(
                    st,
                    seq![101u8, 109u8, 101u8, 114u8, 103u8, 101u8, 110u8, 99u8, 121u8],
                );
                &&& blocked ==> e.event_type == MoveEventType::Blocked
                &&& !blocked && depart ==> e.event_type == MoveEventType::Depart
                &&& !blocked && !depart && arrive ==> e.event_type == MoveEventType::Arrive
                &&& !blocked && !depart && !arrive && stop ==> e.event_type == MoveEventType::EmergencyStop
                &&& !blocked && !depart && !arrive && !stop ==> e.event_type == MoveEventType::PassThrough
            },
        },
{
    assert(w_blocked() =~= seq![98u8, 108u8, 111u8, 99u8, 107u8, 101u8, 100u8]);
    assert(w_waiting() =~= seq![119u8, 97u8, 105u8, 116u8, 105u8, 110u8, 103u8]);
    assert(w_depart() =~= seq![100u8, 101u8, 112u8, 97u8, 114u8, 116u8]);
    assert(w_arrive() =~= seq![97u8, 114u8, 114u8, 105u8, 118u8, 101u8]);
    assert(w_estop() =~= seq![101u8, 115u8, 116u8, 111u8, 112u8]);
    assert(w_emergency() =~= seq![101u8, 109u8, 101u8, 114u8, 103u8, 101u8, 110u8, 99u8, 121u8]);
}

proof fn lemma_timestamp_has_time(l: Seq<char>)
    requires
        text_contains(l, k_timestamp()),
    ensures
        text_contains(l, k_time()),
{
    let h = encode_utf8(l);
    let i = choose|i: int| occurs_at(h, k_timestamp(), i);
    assert(h.subrange(i, i + 9) == k_timestamp());
    assert(h.subrange(i, i + 4) =~= k_timestamp().subrange(0, 4));
    assert(k_timestamp().subrange(0, 4) =~= k_time());
    assert(occurs_at(h, k_time(), i));
}

/// An opening tag's attribute whose key, lower-cased, holds `time` or `ts`
/// sets the time kept for the records inside to its value; the last such
/// attribute wins, and without one the kept time stays.
pub proof fn lemma_opening_tag_keeps_time(
    parent: Option<Seq<char>>,
    cur: Option<EventDataView>,
    attrs: Seq<(Seq<char>, Seq<char>)>,
)
    ensures
        ({
            let timed = |k: Seq<char>| text_contains(unicode_lower(k), seq![116u8, 105u8, 109u8, 101u8])
                || text_contains(unicode_lower(k), seq![116u8, 115u8]);
            let kept = start_attrs(parent, cur, attrs).0;
            &&& (forall|i: int| 0 <= i < attrs.len() ==> !timed(#[trigger] attrs[i].0)) ==> kept == parent
            &&& forall|i: int|
                0 <= i < attrs.len() && timed(attrs[i].0) && (forall|j: int|
                    i < j < attrs.len() ==> !timed(#[trigger] attrs[j].0)) ==> kept == Some(
                    #[trigger] attrs[i].1,
                )
        }),
    decreases attrs.len(),
{
    let timed = |k: Seq<char>| text_contains(unicode_lower(k), seq![116u8, 105u8, 109u8, 101u8])
        || text_contains(unicode_lower(k), seq![116u8, 115u8]);
    assert(k_time() =~= seq![116u8, 105u8, 109u8, 101u8]);
    assert(k_ts() =~= seq![116u8, 115u8]);
    assert(forall|k: Seq<char>| #[trigger] key_time(unicode_lower(k)) == timed(k)) by {
        assert forall|k: Seq<char>| #[trigger] key_time(unicode_lower(k)) == timed(k) by {
            assert(k_timestamp().len() > 0);
            if text_contains(unicode_lower(k), k_timestamp()) {
                lemma_timestamp_has_time(unicode_lower(k));
            }
        }
    }
    if attrs.len() > 0 {
        let pre = attrs.drop_last();
        lemma_opening_tag_keeps_time(parent, cur, pre);
        let n = attrs.len() - 1;
        assert(attrs.last() == attrs[n]);
        assert forall|i: int| 0 <= i < pre.len() implies #[trigger] pre[i] == attrs[i] by {}
        if !timed(attrs[n].0) {
            assert forall|i: int|
                0 <= i < attrs.len() && timed(attrs[i].0) && (forall|j: int|
                    i < j < attrs.len() ==> !timed(#[trigger] attrs[j].0)) implies start_attrs(parent, cur, attrs).0
                == Some(#[trigger] attrs[i].1) by {
                assert(i != n);
                assert(pre[i] == attrs[i]);
                assert forall|j: int| i < j < pre.len() implies !timed(#[trigger] pre[j].0) by {
                    assert(pre[j] == attrs[j]);
                }
            }
            assert((forall|i: int| 0 <= i < attrs.len() ==> !timed(#[trigger] attrs[i].0)) ==> (forall|i: int|
                0 <= i < pre.len() ==> !timed(#[trigger] pre[i].0))) by {
                assert forall|i: int| 0 <= i < pre.len() implies pre[i] == attrs[i] by {}
            }
        } else {
            assert forall|i: int|
                0 <= i < attrs.len() && timed(attrs[i].0) && (forall|j: int|
                    i < j < attrs.len() ==> !timed(#[trigger] attrs[j].0)) implies start_attrs(parent, cur, attrs).0
                == Some(#[trigger] attrs[i].1) by {
                if i < n {
                    assert(!timed(attrs[n].0));
                }
            }
        }
    }
}

// ---------------------------------------------------------------------------
// Laws of the XML collector
// ---------------------------------------------------------------------------

/// The record an XML event completes, where it completes one: a
/// self-closing record tag, or the closing tag of an open record.
pub open spec fn step_record(v: CollectorView, item: XmlItemView) -> Option<EventView> {
    match item {
        XmlItemView::Empty { name, attributes } => if is_oht_tag(name) {
            data_event(self_closed_data(v.parent_timestamp, attributes))
        } else {
            None
        },
        XmlItemView::End { name } => if v.in_oht_event && is_oht_tag(name) {
            match v.current {
                Some(ed) => data_event(ed),
                None => None,
            }
        } else {
            None
        },
        _ => None,
    }
}

/// The events an action hands on.
pub open spec fn handed_on(a: XmlActionView) -> Seq<EventView> {
    match a {
        XmlActionView::Send(b) => b,
        XmlActionView::Finish(Some(b)) => b,
        _ => seq![],
    }
}

pub open spec fn record_seq(r: Option<EventView>) -> Seq<EventView> {
    match r {
        Some(e) => seq![e],
        None => seq![],
    }
}

/// Feeding the collector the XML events in order: its final state, what
/// it handed on, and the records the events completed.
pub open spec fn xml_run(v: CollectorView, items: Seq<XmlItemView>, oht_src: Seq<char>, ts_src: Seq<char>) -> (
    CollectorView,
    Seq<EventView>,
    Seq<EventView>,
)
    decreases items.len(),
{
    if items.len() == 0 {
        (v, seq![], seq![])
    } else {
        let (v1, handed, records) = xml_run(v, items.drop_last(), oht_src, ts_src);
        let (v2, a) = xml_step(v1, items.last(), oht_src, ts_src);
        (v2, handed + handed_on(a), records + record_seq(step_record(v1, items.last())))
    }
}

/// One event of the XML stream loses no record and repeats none: what the
/// collector hands on, followed by what it keeps, is what it kept before
/// followed by the record the event completes.
pub proof fn lemma_step_keeps_records(v: CollectorView, item: XmlItemView, oht_src: Seq<char>, ts_src: Seq<char>)
    ensures
        ({
            let (v2, a) = xml_step(v, item, oht_src, ts_src);
            handed_on(a) + v2.batch == v.batch + record_seq(step_record(v, item))
        }),
{
    let (v2, a) = xml_step(v, item, oht_src, ts_src);
    match item {
        XmlItemView::Empty { name, attributes } => {
            if is_oht_tag(name) {
                let r = data_event(self_closed_data(v.parent_timestamp, attributes));
                assert(with_event(v.batch, r) =~= v.batch + record_seq(r));
            }
            assert(handed_on(a) + v2.batch =~= v.batch + record_seq(step_record(v, item)));
        },
        XmlItemView::End { name } => {
            if v.in_oht_event && is_oht_tag(name) {
                match v.current {
                    Some(ed) => {
                        assert(with_event(v.batch, data_event(ed)) =~= v.batch + record_seq(data_event(ed)));
                    },
                    None => {},
                }
            }
            assert(handed_on(a) + v2.batch =~= v.batch + record_seq(step_record(v, item)));
        },
        _ => {
            assert(handed_on(a) + v2.batch =~= v.batch + record_seq(step_record(v, item)));
        },
    }
}

/// A batch is handed on only when it holds exactly the limit, and the
/// batch kept stays below the limit.
pub proof fn lemma_step_batch_size(v: CollectorView, item: XmlItemView, oht_src: Seq<char>, ts_src: Seq<char>)
    requires
        v.batch.len() < batch_limit(),
    ensures
        ({
            let (v2, a) = xml_step(v, item, oht_src, ts_src);
            &&& v2.batch.len() < batch_limit()
            &&& (a matches XmlActionView::Send(b) ==> b.len() == batch_limit())
        }),
{
}

proof fn lemma_no_time_attrs(ed: EventDataView, attrs: Seq<(Seq<char>, Seq<char>)>)
    requires
        forall|k: int| 0 <= k < attrs.len() ==> !key_time(unicode_lower(#[trigger] attrs[k].0)),
    ensures
        empty_attrs(ed, attrs).timestamp == ed.timestamp,
    decreases attrs.len(),
{
    if attrs.len() > 0 {
        let pre = attrs.drop_last();
        assert forall|k: int| 0 <= k < pre.len() implies !key_time(unicode_lower(#[trigger] pre[k].0)) by {
            assert(pre[k] == attrs[k]);
        }
        lemma_no_time_attrs(ed, pre);
        assert(attrs.last() == attrs[attrs.len() - 1]);
    }
}

/// A self-closing record tag whose attributes name no time takes the time
/// kept from the enclosing opening tags: the event it completes carries the
/// instant of that kept time text (of the empty text where none was kept).
pub proof fn lemma_self_closed_takes_parent_time(
    v: CollectorView,
    name: Seq<char>,
    attributes: Seq<(Seq<char>, Seq<char>)>,
    oht_src: Seq<char>,
    ts_src: Seq<char>,
)
    requires
        forall|k: int| 0 <= k < attributes.len() ==> !key_time(unicode_lower(#[trigger] attributes[k].0)),
    ensures
        ({
            let (v2, a) = xml_step(v, XmlItemView::Empty { name, attributes }, oht_src, ts_src);
            let out = handed_on(a) + v2.batch;
            out.len() == v.batch.len() + 1 ==> out.last().timestamp == timestamp_value(
                match v.parent_timestamp {
                    Some(p) => p,
                    None => seq![],
                },
            )
        }),
{
    let item = XmlItemView::Empty { name, attributes };
    lemma_step_keeps_records(v, item, oht_src, ts_src);
    lemma_no_time_attrs(empty_data(), attributes);
    let (v2, a) = xml_step(v, item, oht_src, ts_src);
    let out = handed_on(a) + v2.batch;
    if out.len() == v.batch.len() + 1 {
        let r = record_seq(step_record(v, item));
        assert(out == v.batch + r);
        assert(out.last() == r[0]);
    }
}

/// Over a whole stream the collector loses no record and repeats none:
/// everything handed on, followed by the batch still kept, is the batch it
/// started with followed by the records of the stream, in order.
pub proof fn lemma_run_keeps_records(
    v: CollectorView,
    items: Seq<XmlItemView>,
    oht_src: Seq<char>,
    ts_src: Seq<char>,
)
    ensures
        ({
            let (vf, handed, records) = xml_run(v, items, oht_src, ts_src);
            handed + vf.batch == v.batch + records
        }),
    decreases items.len(),
{
    if items.len() > 0 {
        lemma_run_keeps_records(v, items.drop_last(), oht_src, ts_src);
        let (v1, h1, r1) = xml_run(v, items.drop_last(), oht_src, ts_src);
        lemma_step_keeps_records(v1, items.last(), oht_src, ts_src);
        let (v2, a) = xml_step(v1, items.last(), oht_src, ts_src);
        assert(h1 + handed_on(a) + v2.batch =~= h1 + (handed_on(a) + v2.batch));
        assert(v.batch + (r1 + record_seq(step_record(v1, items.last()))) =~= (v.batch + r1) + record_seq(
            step_record(v1, items.last()),
        ));
    }
}

// ---------------------------------------------------------------------------
// The stream parser's settings
// ---------------------------------------------------------------------------

/// Where the dump is read from and how the reading is divided.
pub struct StreamParser {
    file_path: std::path::PathBuf,
    num_threads: usize,
    chunk_size: usize,
}

impl StreamParser {
    pub closed spec fn spec_file_path(&self) -> std::path::PathBuf {
        self.file_path
    }

    pub closed spec fn spec_num_threads(&self) -> usize {
        self.num_threads
    }

    pub closed spec fn spec_chunk_size(&self) -> usize {
        self.chunk_size
    }

    /// A parser of the given file, with `num_threads` readers and chunks of
    /// `chunk_mb` MiB.
    pub fn new(file_path: std::path::PathBuf, num_threads: usize, chunk_mb: usize) -> (p: Self)
        requires
            chunk_mb * 1048576 <= usize::MAX,
        ensures
            p.spec_file_path() == file_path,
            p.spec_num_threads() == num_threads,
            p.spec_chunk_size() == chunk_mb * 1048576,
    {
        let chunk_size = chunk_mb * 1024 * 1024;
        Self { file_path, num_threads, chunk_size }
    }

    pub fn file_path(&self) -> (r: &std::path::PathBuf)
        ensures
            *r == self.spec_file_path(),
    {
        &self.file_path
    }

    pub fn num_threads(&self) -> (r: usize)
        ensures
            r == self.spec_num_threads(),
    {
        self.num_threads
    }

    pub fn chunk_size(&self) -> (r: usize)
        ensures
            r == self.spec_chunk_size(),
    {
        self.chunk_size
    }

    /// The byte ranges the readers of a text dump of `file_size` bytes take:
    /// one per reader, of equal length, the last one running to the end.
    pub fn text_chunk_ranges(&self, file_size: usize) -> (r: Vec<(usize, usize)>)
        requires
            self.spec_chunk_size() > 0,
            file_size / self.spec_chunk_size() + 1 <= usize::MAX,
        ensures
            r@.len() == self.spec_num_threads(),
            forall|i: int|
                0 <= i < r@.len() ==> #[trigger] r@[i] == chunk_range(
                    file_size as nat,
                    self.spec_chunk_size() as nat,
                    self.spec_num_threads() as nat,
                    i as nat,
                ),
    {
        let chunk_size = self.chunk_size;
        let num_threads = self.num_threads;
        let base = file_size / chunk_size + 1;
        let num_chunks = if base > num_threads {
            base
        } else {
            num_threads
        };
        let len = file_size / num_chunks;
        assert(len * num_chunks <= file_size) by (nonlinear_arith)
            requires
                num_chunks > 0,
                len == file_size / num_chunks,
        ;
        let mut ranges: Vec<(usize, usize)> = Vec::new();
        let mut i: usize = 0;
        while i < num_threads
            invariant
                i <= num_threads,
                num_threads == self.spec_num_threads(),
                chunk_size == self.spec_chunk_size(),
                chunk_size > 0,
                num_chunks >= num_threads,
                len == chunk_len(file_size as nat, chunk_size as nat, num_threads as nat),
                len * num_chunks <= file_size,
                ranges@.len() == i,
                forall|k: int|
                    0 <= k < i ==> #[trigger] ranges@[k] == chunk_range(
                        file_size as nat,
                        chunk_size as nat,
                        num_threads as nat,
                        k as nat,
                    ),
            decreases num_threads - i,
        {
            assert(i * len <= (i + 1) * len <= num_chunks * len) by (nonlinear_arith)
                requires
                    i + 1 <= num_threads,
                    num_threads <= num_chunks,
            ;
            let start = i * len;
            let end = if i == num_threads - 1 {
                file_size
            } else {
                (i + 1) * len
            };
            ranges.push((start, end));
            i = i + 1;
        }
        ranges
    }
}

/// The number of chunks a text dump is divided into, as the readers see it:
/// one more than whole chunks fit, or the number of readers if that is more.
pub open spec fn chunk_count(file_size: nat, chunk_size: nat, num_threads: nat) -> nat {
    let base = file_size / chunk_size + 1;
    if base > num_threads {
        base
    } else {
        num_threads
    }
}

/// The length of each reader's range.
pub open spec fn chunk_len(file_size: nat, chunk_size: nat, num_threads: nat) -> nat {
    let n = chunk_count(file_size, chunk_size, num_threads);
    if n > 0 {
        file_size / n
    } else {
        0
    }
}

/// The byte range of reader `i`.
pub open spec fn chunk_range(file_size: nat, chunk_size: nat, num_threads: nat, i: nat) -> (usize, usize) {
    let len = chunk_len(file_size, chunk_size, num_threads);
    (
        (i * len) as usize,
        if i + 1 == num_threads {
            file_size as usize
        } else {
            ((i + 1) * len) as usize
        },
    )
}

/// The readers' ranges tile the dump: the first starts at its beginning,
/// each one ends where the next starts, none runs backwards, and the last
/// ends at the dump's end.
pub proof fn lemma_chunk_ranges_tile(file_size: usize, chunk_size: nat, num_threads: nat)
    requires
        chunk_size > 0,
        num_threads > 0,
    ensures
        chunk_range(file_size as nat, chunk_size, num_threads, 0).0 == 0,
        chunk_range(file_size as nat, chunk_size, num_threads, (num_threads - 1) as nat).1 == file_size,
        forall|i: nat|
            i < num_threads ==> #[trigger] chunk_range(file_size as nat, chunk_size, num_threads, i).0
                <= chunk_range(file_size as nat, chunk_size, num_threads, i).1,
        forall|i: nat|
            i + 1 < num_threads ==> #[trigger] chunk_range(file_size as nat, chunk_size, num_threads, i).1
                == chunk_range(file_size as nat, chunk_size, num_threads, i + 1).0,
{
    let fs = file_size as nat;
    let n = chunk_count(fs, chunk_size, num_threads);
    let len = chunk_len(fs, chunk_size, num_threads);
    assert(n >= num_threads && n > 0);
    assert(len * n <= fs) by (nonlinear_arith)
        requires
            n > 0,
            len == fs / n,
    ;
    assert forall|i: nat| i < num_threads implies #[trigger] chunk_range(fs, chunk_size, num_threads, i).0
        <= chunk_range(fs, chunk_size, num_threads, i).1 by {
        assert(i * len <= (i + 1) * len <= n * len) by (nonlinear_arith)
            requires
                i + 1 <= num_threads,
                num_threads <= n,
        ;
    }
    assert forall|i: nat| i + 1 < num_threads implies #[trigger] chunk_range(fs, chunk_size, num_threads, i).1
        == chunk_range(fs, chunk_size, num_threads, i + 1).0 by {
        assert((i + 1) * len <= n * len) by (nonlinear_arith)
            requires
                i + 1 <= num_threads,
                num_threads <= n,
        ;
    }
    assert(0 * len == 0);
}

/// The events of all batches, in order.
pub open spec fn joined(batches: Seq<Vec<OhtMoveEvent>>) -> Seq<OhtMoveEvent>
    decreases batches.len(),
{
    if batches.len() == 0 {
        seq![]
    } else {
        joined(batches.drop_last()) + batches.last()@
    }
}

/// Joins the batches in order and sorts the events by timestamp, events of
/// equal timestamp keeping their order.
pub fn sorted_events(batches: Vec<Vec<OhtMoveEvent>>) -> (r: Vec<OhtMoveEvent>)
    ensures
        stably_sorted_by(joined(batches@), r@, |e: OhtMoveEvent| event_time(e)),
{
    let mut all: Vec<OhtMoveEvent> = Vec::new();
    let mut batches = batches;
    let ghost bs = batches@;
    let mut i: usize = 0;
    let n = batches.len();
    while i < n
        invariant
            i <= n,
            n == batches@.len(),
            batches@.len() == bs.len(),
            forall|k: int| i <= k < n ==> #[trigger] batches@[k] == bs[k],
            all@ == joined(bs.take(i as int)),
        decreases n - i,
    {
        let mut b: Vec<OhtMoveEvent> = Vec::new();
        std::mem::swap(&mut b, &mut batches[i]);
        proof {
            assert(bs.take(i + 1).drop_last() =~= bs.take(i as int));
            assert(b@ == bs[i as int]@);
        }
        all.append(&mut b);
        i = i + 1;
    }
    assert(bs.take(n as int) =~= bs);
    sort_events_by_time(&mut all);
    all
}

// ---------------------------------------------------------------------------
// Whole text dumps
// ---------------------------------------------------------------------------

/// The events the lines of a text dump contribute, in line order.
pub open spec fn text_events(p: MovePatterns, lines: Seq<Seq<char>>) -> Seq<EventView>
    decreases lines.len(),
{
    if lines.len() == 0 {
        seq![]
    } else {
        text_events(p, lines.drop_last()) + record_seq(text_line_event(p, lines.last()))
    }
}

/// The events of a dump split in two are those of its first part followed
/// by those of its second part.
pub proof fn lemma_text_events_split(p: MovePatterns, a: Seq<Seq<char>>, b: Seq<Seq<char>>)
    ensures
        text_events(p, a + b) == text_events(p, a) + text_events(p, b),
    decreases b.len(),
{
    if b.len() == 0 {
        assert(a + b =~= a);
        assert(text_events(p, a) + text_events(p, b) =~= text_events(p, a));
    } else {
        lemma_text_events_split(p, a, b.drop_last());
        assert((a + b).drop_last() =~= a + b.drop_last());
        assert((a + b).last() == b.last());
        let r = record_seq(text_line_event(p, b.last()));
        assert(text_events(p, a) + text_events(p, b.drop_last()) + r =~= text_events(p, a) + (text_events(
            p,
            b.drop_last(),
        ) + r));
    }
}

pub open spec fn event_instant(e: EventView) -> int {
    e.timestamp as int
}

proof fn lemma_sorted_events_view(before: Seq<OhtMoveEvent>, after: Seq<OhtMoveEvent>)
    requires
        stably_sorted_by(before, after, |e: OhtMoveEvent| event_time(e)),
    ensures
        stably_sorted_by(events_view(before), events_view(after), |e: EventView| event_instant(e)),
{
    let p = choose|p: Seq<int>|
        {
            &&& is_permutation(p, before.len())
            &&& forall|k: int| 0 <= k < after.len() ==> after[k] == before[#[trigger] p[k]]
            &&& forall|k1: int, k2: int|
                0 <= k1 < k2 < after.len() && event_time(after[k1]) == event_time(after[k2])
                    ==> #[trigger] p[k1] < #[trigger] p[k2]
        };
    let bv = events_view(before);
    let av = events_view(after);
    assert(forall|k: int| 0 <= k < av.len() ==> av[k] == bv[#[trigger] p[k]]);
    assert forall|i: int, j: int| 0 <= i < j < av.len() implies event_instant(av[i]) <= event_instant(av[j]) by {
        assert(event_time(after[i]) <= event_time(after[j]));
    }
    assert forall|k1: int, k2: int|
        0 <= k1 < k2 < av.len() && event_instant(av[k1]) == event_instant(av[k2]) implies #[trigger] p[k1]
        < #[trigger] p[k2] by {
        assert(event_time(after[k1]) == event_time(after[k2]));
    }
}

/// The events of a text dump gathered line by line.
pub struct TextDumpEvents {
    found: Vec<OhtMoveEvent>,
}

impl View for TextDumpEvents {
    type V = Seq<EventView>;

    closed spec fn view(&self) -> Seq<EventView> {
        events_view(self.found@)
    }
}

impl TextDumpEvents {
    /// Nothing gathered yet.
    pub fn new() -> (t: Self)
        ensures
            t@ == Seq::<EventView>::empty(),
    {
        let t = TextDumpEvents { found: Vec::new() };
        assert(events_view(t.found@) =~= seq![]);
        t
    }

    /// Takes the next line of the dump.
    pub fn take_line(&mut self, line: &str, patterns: &MovePatterns)
        ensures
            final(self)@ == old(self)@ + record_seq(text_line_event(*patterns, line@)),
    {
        let ghost before = self.found@;
        match scan_text_line(line, patterns) {
            Some(e) => {
                self.found.push(e);
                assert(events_view(self.found@) =~= events_view(before) + record_seq(
                    text_line_event(*patterns, line@),
                ));
            },
            None => {
                assert(events_view(before) + record_seq(text_line_event(*patterns, line@)) =~= events_view(
                    before,
                ));
            },
        }
    }

    /// The gathered events sorted by timestamp, events of equal timestamp
    /// in the order of their lines.
    pub fn finish(self) -> (r: Vec<OhtMoveEvent>)
        ensures
            stably_sorted_by(self@, events_view(r@), |e: EventView| event_instant(e)),
    {
        let ghost found = self.found@;
        let mut batches: Vec<Vec<OhtMoveEvent>> = Vec::new();
        batches.push(self.found);
        proof {
            let e = Seq::<Vec<OhtMoveEvent>>::empty();
            assert(batches@.drop_last() =~= e);
            assert(joined(e) == Seq::<OhtMoveEvent>::empty());
            assert(batches@.last()@ == found);
            assert(joined(batches@) =~= found);
        }
        let r = sorted_events(batches);
        proof {
            lemma_sorted_events_view(found, r@);
        }
        r
    }
}

/// The events of a whole text dump, given as its lines: each line's event,
/// sorted by timestamp, events of equal timestamp in line order.
pub fn events_from_lines(lines: &[String], patterns: &MovePatterns) -> (r: Vec<OhtMoveEvent>)
    ensures
        stably_sorted_by(text_events(*patterns, names_of(lines@)), events_view(r@), |e: EventView| event_instant(e)),
{
    let mut t = TextDumpEvents::new();
    let n = lines.len();
    let mut i: usize = 0;
    while i < n
        invariant
            n == lines@.len(),
            i <= n,
            t@ == text_events(*patterns, names_of(lines@).take(i as int)),
        decreases n - i,
    {
        proof {
            let ls = names_of(lines@);
            assert(ls.take(i + 1).drop_last() =~= ls.take(i as int));
            assert(ls.take(i + 1).last() == lines@[i as int]@);
        }
        t.take_line(lines[i].as_str(), patterns);
        i = i + 1;
    }
    assert(names_of(lines@).take(n as int) =~= names_of(lines@));
    t.finish()
}

} // verus!

//! A single-pass, byte-driven state machine that recognises OHT movement
//! lines of the form `[date time] SxxFyy ... OHT-id VERB from:A to:B STATUS`.
use vstd::prelude::*;
use vstd::string::StringSliceAdditionalSpecFns;

use crate::clock::{civil_utc_millis, utc_millis_from_civil};
use crate::event::{opt_event_view, EventView, MoveEventType, OhtMoveEvent};
use crate::text::{
    all_ascii, ascii_string, bytes_as_chars, bytes_contain, bytes_contain_from, bytes_eq_ignore_case,
    digit_byte, eq_ignore_case, is_alpha, is_digit, is_space, is_whitespace, is_word, is_word_char,
    lower_byte, occurs_at, seq_contains, to_lower_ascii, alpha_byte, utf8_of,
};

verus! {

#[derive(Debug, Clone, Copy, PartialEq, Eq, Structural)]
pub enum ScanState {
    Idle,
    SawBracket,
    InTimestamp,
    SawS,
    InStreamId,
    SawF,
    InFuncId,
    SecsHeaderFound,
    LookForOht,
    SawO,
    SawOh,
    InOhtId,
    PostOhtId,
    RecognizeVerb,
    InVerb,
    VerbRecognized,
    LookForFrom,
    SawFr,
    SawFro,
    LookForColonFrom,
    InFromNode,
    LookForTo,
    SawT,
    SawTo,
    LookForColonTo,
    InToNode,
    LookForStatus,
    Done,
}

// ---------------------------------------------------------------------------
// The model
// ---------------------------------------------------------------------------

/// The date and time digits a scanner keeps from one line to the next.
pub struct ScanDates {
    pub year: Seq<u8>,
    pub month: Seq<u8>,
    pub day: Seq<u8>,
    pub hour: Seq<u8>,
    pub minute: Seq<u8>,
    pub second: Seq<u8>,
    pub millis: Seq<u8>,
}

/// Everything the scanner has collected from the current line.
pub struct Tokens {
    pub year: Seq<u8>,
    pub month: Seq<u8>,
    pub day: Seq<u8>,
    pub hour: Seq<u8>,
    pub minute: Seq<u8>,
    pub second: Seq<u8>,
    pub millis: Seq<u8>,
    pub ts_has_millis: bool,
    pub stream_id: u32,
    pub func_id: u32,
    pub oht_id: Seq<u8>,
    pub verb: Seq<u8>,
    pub from_node: Seq<u8>,
    pub to_node: Seq<u8>,
    pub status: Seq<u8>,
}

/// The scanner's configuration between two bytes. `lower` holds the UTF-8
/// text of the characters seen so far, ASCII letters folded to lower case,
/// each byte taken as one character. `halted` is set where the scan stops
/// early; `fault` where the byte at hand cannot be processed (a counter
/// would overflow, or a tail of `lower` would split a character).
pub struct ScanConfig {
    pub state: ScanState,
    pub ts_idx: usize,
    pub ts_part: u8,
    pub digit_acc: u32,
    pub oht_prefix_skipped: bool,
    pub lower: Seq<u8>,
    pub tok: Tokens,
    pub halted: bool,
    pub fault: bool,
}

pub open spec fn dates_of(t: Tokens) -> ScanDates {
    ScanDates {
        year: t.year,
        month: t.month,
        day: t.day,
        hour: t.hour,
        minute: t.minute,
        second: t.second,
        millis: t.millis,
    }
}

/// Zeroed digits, as a fresh scanner has them.
pub open spec fn zero_dates() -> ScanDates {
    ScanDates {
        year: seq![0u8, 0u8, 0u8, 0u8],
        month: seq![0u8, 0u8],
        day: seq![0u8, 0u8],
        hour: seq![0u8, 0u8],
        minute: seq![0u8, 0u8],
        second: seq![0u8, 0u8],
        millis: seq![0u8, 0u8, 0u8],
    }
}

/// The tokens at the start of a line: the kept digits, all else empty.
pub open spec fn start_tokens(d: ScanDates) -> Tokens {
    Tokens {
        year: d.year,
        month: d.month,
        day: d.day,
        hour: d.hour,
        minute: d.minute,
        second: d.second,
        millis: d.millis,
        ts_has_millis: false,
        stream_id: 0,
        func_id: 0,
        oht_id: seq![],
        verb: seq![],
        from_node: seq![],
        to_node: seq![],
        status: seq![],
    }
}

pub open spec fn start_config(d: ScanDates) -> ScanConfig {
    ScanConfig {
        state: ScanState::Idle,
        ts_idx: 0,
        ts_part: 0,
        digit_acc: 0,
        oht_prefix_skipped: false,
        lower: seq![],
        tok: start_tokens(d),
        halted: false,
        fault: false,
    }
}

/// The UTF-8 bytes of the character with code point `b`, ASCII upper case
/// folded to lower case.
pub open spec fn lowered_utf8(b: u8) -> Seq<u8> {
    if b < 128 {
        seq![lower_byte(b)]
    } else {
        seq![(192 + b / 64) as u8, (128 + b % 64) as u8]
    }
}

pub open spec fn tail_start(len: int, k: int) -> int {
    if len >= k {
        len - k
    } else {
        0
    }
}

/// The last `k` bytes of `s` (all of it when shorter).
pub open spec fn tail(s: Seq<u8>, k: int) -> Seq<u8> {
    s.subrange(tail_start(s.len() as int, k), s.len() as int)
}

/// The last `k` bytes of `s` start on a character boundary.
pub open spec fn tail_on_boundary(s: Seq<u8>, k: int) -> bool {
    let i = tail_start(s.len() as int, k);
    !(i < s.len() && 128 <= s[i] < 192)
}

/// "oht"
pub open spec fn kw_oht() -> Seq<u8> {
    seq![111u8, 104u8, 116u8]
}

/// "from"
pub open spec fn kw_from() -> Seq<u8> {
    seq![102u8, 114u8, 111u8, 109u8]
}

/// "to"
pub open spec fn kw_to() -> Seq<u8> {
    seq![116u8, 111u8]
}

/// "blocked"
pub open spec fn kw_blocked() -> Seq<u8> {
    seq![98u8, 108u8, 111u8, 99u8, 107u8, 101u8, 100u8]
}

/// "waiting"
pub open spec fn kw_waiting() -> Seq<u8> {
    seq![119u8, 97u8, 105u8, 116u8, 105u8, 110u8, 103u8]
}

/// "wait"
pub open spec fn kw_wait() -> Seq<u8> {
    seq![119u8, 97u8, 105u8, 116u8]
}

/// "depart"
pub open spec fn kw_depart() -> Seq<u8> {
    seq![100u8, 101u8, 112u8, 97u8, 114u8, 116u8]
}

/// "arrive"
pub open spec fn kw_arrive() -> Seq<u8> {
    seq![97u8, 114u8, 114u8, 105u8, 118u8, 101u8]
}

/// "estop"
pub open spec fn kw_estop() -> Seq<u8> {
    seq![101u8, 115u8, 116u8, 111u8, 112u8]
}

/// "emergency"
pub open spec fn kw_emergency() -> Seq<u8> {
    seq![101u8, 109u8, 101u8, 114u8, 103u8, 101u8, 110u8, 99u8, 121u8]
}

pub open spec fn goto(c: ScanConfig, s: ScanState) -> ScanConfig {
    ScanConfig { state: s, ..c }
}

pub open spec fn with_tok(c: ScanConfig, t: Tokens) -> ScanConfig {
    ScanConfig { tok: t, ..c }
}

pub open spec fn faulted(c: ScanConfig) -> ScanConfig {
    ScanConfig { fault: true, ..c }
}

/// One more decimal digit into the counter; a fault where it overflows.
pub open spec fn accumulate(c: ScanConfig, b: u8, next: ScanState) -> ScanConfig {
    let v = c.digit_acc * 10 + (b - 48);
    if v > u32::MAX {
        faulted(c)
    } else {
        ScanConfig { state: next, digit_acc: v as u32, ..c }
    }
}

pub open spec fn step_idle(c: ScanConfig, b: u8) -> ScanConfig {
    if b == 91 {
        ScanConfig { state: ScanState::SawBracket, ts_idx: 0, ts_part: 0, ..c }
    } else if b == 83 || b == 115 {
        ScanConfig { state: ScanState::SawS, digit_acc: 0, ..c }
    } else if is_space(b) {
        c
    } else if !tail_on_boundary(c.lower, 4) {
        faulted(c)
    } else if seq_contains(tail(c.lower, 4), kw_oht()) && b != 45 && b != 95 {
        ScanConfig {
            state: ScanState::InOhtId,
            oht_prefix_skipped: true,
            tok: Tokens {
                oht_id: if is_word(b) {
                    seq![b]
                } else {
                    seq![]
                },
                ..c.tok
            },
            ..c
        }
    } else {
        c
    }
}

pub open spec fn step_bracket(c: ScanConfig, b: u8) -> ScanConfig {
    if is_digit(b) && c.ts_idx < 4 {
        let t = Tokens { year: c.tok.year.update(c.ts_idx as int, b), ..c.tok };
        if c.ts_idx + 1 == 4 {
            ScanConfig { state: ScanState::InTimestamp, ts_part: 1, ts_idx: 0, tok: t, ..c }
        } else {
            ScanConfig { ts_idx: (c.ts_idx + 1) as usize, tok: t, ..c }
        }
    } else {
        goto(c, ScanState::Idle)
    }
}

/// The next part of the timestamp begins.
pub open spec fn next_part(c: ScanConfig, p: u8) -> ScanConfig {
    ScanConfig { ts_part: p, ts_idx: 0, ..c }
}

pub open spec fn step_timestamp(c: ScanConfig, b: u8) -> ScanConfig {
    let t = c.tok;
    let i = c.ts_idx as int;
    let more = (c.ts_idx + 1) as usize;
    if c.ts_part == 1 {
        if b == 45 || b == 47 {
            next_part(c, 2)
        } else if is_digit(b) && c.ts_idx < 2 {
            ScanConfig { ts_idx: more, tok: Tokens { month: t.month.update(i, b), ..t }, ..c }
        } else {
            c
        }
    } else if c.ts_part == 2 {
        if b == 45 || b == 47 {
            next_part(c, 3)
        } else if is_digit(b) && c.ts_idx < 2 {
            ScanConfig { ts_idx: more, tok: Tokens { day: t.day.update(i, b), ..t }, ..c }
        } else {
            c
        }
    } else if c.ts_part == 3 {
        if is_space(b) || b == 84 || b == 116 {
            next_part(c, 4)
        } else if is_digit(b) && c.ts_idx < 2 {
            ScanConfig { ts_idx: more, tok: Tokens { hour: t.hour.update(i, b), ..t }, ..c }
        } else {
            c
        }
    } else if c.ts_part == 4 {
        if b == 58 {
            next_part(c, 5)
        } else if is_digit(b) && c.ts_idx < 2 {
            ScanConfig { ts_idx: more, tok: Tokens { hour: t.hour.update(i, b), ..t }, ..c }
        } else {
            c
        }
    } else if c.ts_part == 5 {
        if b == 58 {
            next_part(c, 6)
        } else if is_digit(b) && c.ts_idx < 2 {
            ScanConfig { ts_idx: more, tok: Tokens { minute: t.minute.update(i, b), ..t }, ..c }
        } else {
            c
        }
    } else if c.ts_part == 6 {
        if b == 46 {
            ScanConfig {
                ts_part: 7,
                ts_idx: 0,
                tok: Tokens { ts_has_millis: true, ..t },
                ..c
            }
        } else if is_space(b) || b == 93 {
            goto(c, ScanState::Idle)
        } else if is_digit(b) && c.ts_idx < 2 {
            ScanConfig { ts_idx: more, tok: Tokens { second: t.second.update(i, b), ..t }, ..c }
        } else {
            c
        }
    } else if c.ts_part == 7 {
        if is_space(b) || b == 93 {
            goto(c, ScanState::Idle)
        } else if is_digit(b) && c.ts_idx < 3 {
            ScanConfig { ts_idx: more, tok: Tokens { millis: t.millis.update(i, b), ..t }, ..c }
        } else {
            c
        }
    } else {
        goto(c, ScanState::Idle)
    }
}

pub open spec fn step_header(c: ScanConfig, b: u8) -> ScanConfig {
    match c.state {
        ScanState::SawS => if is_digit(b) {
            accumulate(c, b, ScanState::InStreamId)
        } else {
            goto(c, ScanState::Idle)
        },
        ScanState::InStreamId => if is_digit(b) {
            accumulate(c, b, ScanState::InStreamId)
        } else if b == 70 || b == 102 {
            ScanConfig {
                state: ScanState::SawF,
                digit_acc: 0,
                tok: Tokens { stream_id: c.digit_acc, ..c.tok },
                ..c
            }
        } else {
            goto(c, ScanState::Idle)
        },
        ScanState::SawF => if is_digit(b) {
            accumulate(c, b, ScanState::InFuncId)
        } else {
            goto(c, ScanState::Idle)
        },
        _ => if is_digit(b) {
            accumulate(c, b, ScanState::InFuncId)
        } else {
            ScanConfig {
                state: ScanState::SecsHeaderFound,
                tok: Tokens { func_id: c.digit_acc, ..c.tok },
                ..c
            }
        },
    }
}

pub open spec fn step_oht(c: ScanConfig, b: u8) -> ScanConfig {
    let t = c.tok;
    match c.state {
        ScanState::SawO => if b == 72 || b == 104 {
            goto(c, ScanState::SawOh)
        } else {
            goto(c, ScanState::LookForOht)
        },
        ScanState::SawOh => if b == 84 || b == 116 {
            ScanConfig {
                state: ScanState::InOhtId,
                oht_prefix_skipped: false,
                tok: Tokens { oht_id: seq![], ..t },
                ..c
            }
        } else {
            goto(c, ScanState::LookForOht)
        },
        ScanState::InOhtId => if !c.oht_prefix_skipped && (b == 45 || b == 95) {
            ScanConfig { oht_prefix_skipped: true, ..c }
        } else if is_word(b) {
            with_tok(c, Tokens { oht_id: t.oht_id.push(b), ..t })
        } else if t.oht_id.len() > 0 {
            goto(c, ScanState::PostOhtId)
        } else {
            c
        },
        ScanState::PostOhtId => if is_space(b) {
            c
        } else if is_word(b) {
            ScanConfig { state: ScanState::RecognizeVerb, tok: Tokens { verb: seq![b], ..t }, ..c }
        } else {
            c
        },
        ScanState::RecognizeVerb => if is_word(b) {
            with_tok(c, Tokens { verb: t.verb.push(b), ..t })
        } else {
            goto(c, ScanState::VerbRecognized)
        },
        // looking for the OHT prefix after the message header
        _ => if b == 79 || b == 111 {
            goto(c, ScanState::SawO)
        } else if is_space(b) {
            goto(c, ScanState::SecsHeaderFound)
        } else {
            c
        },
    }
}

pub open spec fn step_from(c: ScanConfig, b: u8) -> ScanConfig {
    let t = c.tok;
    match c.state {
        ScanState::VerbRecognized => if is_space(b) {
            c
        } else if b == 70 || b == 102 {
            goto(c, ScanState::SawFr)
        } else if b == 84 || b == 116 {
            goto(c, ScanState::SawT)
        } else if is_word(b) {
            if !tail_on_boundary(c.lower, 4) {
                faulted(c)
            } else if seq_contains(tail(c.lower, 4), kw_from()) {
                goto(c, ScanState::LookForColonFrom)
            } else {
                c
            }
        } else {
            c
        },
        ScanState::SawFr => if b == 82 || b == 114 {
            goto(c, ScanState::SawFro)
        } else {
            goto(c, ScanState::VerbRecognized)
        },
        ScanState::SawFro => if b == 79 || b == 111 {
            goto(c, ScanState::LookForColonFrom)
        } else if b == 77 || b == 109 {
            c
        } else {
            goto(c, ScanState::VerbRecognized)
        },
        ScanState::LookForColonFrom => if is_space(b) || is_alpha(b) {
            c
        } else if b == 58 || b == 61 {
            ScanConfig {
                state: ScanState::InFromNode,
                tok: Tokens { from_node: seq![], ..t },
                ..c
            }
        } else if is_word(b) {
            ScanConfig {
                state: ScanState::InFromNode,
                tok: Tokens { from_node: seq![b], ..t },
                ..c
            }
        } else {
            c
        },
        // InFromNode
        _ => if is_word(b) {
            with_tok(c, Tokens { from_node: t.from_node.push(b), ..t })
        } else if t.from_node.len() > 0 {
            goto(c, ScanState::LookForTo)
        } else {
            c
        },
    }
}

pub open spec fn step_to(c: ScanConfig, b: u8) -> ScanConfig {
    let t = c.tok;
    match c.state {
        ScanState::LookForTo => if is_space(b) {
            c
        } else if b == 84 || b == 116 {
            goto(c, ScanState::SawTo)
        } else if is_word(b) {
            if !tail_on_boundary(c.lower, 2) {
                faulted(c)
            } else if tail(c.lower, 2) == kw_to() {
                goto(c, ScanState::LookForColonTo)
            } else {
                c
            }
        } else {
            c
        },
        ScanState::SawT => if b == 79 || b == 111 {
            goto(c, ScanState::SawTo)
        } else {
            goto(c, ScanState::LookForTo)
        },
        ScanState::SawTo => if is_space(b) {
            goto(c, ScanState::LookForColonTo)
        } else if is_word(b) {
            if eq_ignore_case(t.verb, kw_to()) {
                ScanConfig {
                    state: ScanState::InToNode,
                    tok: Tokens { to_node: seq![b], ..t },
                    ..c
                }
            } else {
                goto(c, ScanState::LookForColonTo)
            }
        } else {
            c
        },
        ScanState::LookForColonTo => if is_space(b) || is_alpha(b) {
            c
        } else if b == 58 || b == 61 {
            ScanConfig { state: ScanState::InToNode, tok: Tokens { to_node: seq![], ..t }, ..c }
        } else if is_word(b) {
            ScanConfig { state: ScanState::InToNode, tok: Tokens { to_node: seq![b], ..t }, ..c }
        } else {
            c
        },
        ScanState::InToNode => if is_word(b) {
            with_tok(c, Tokens { to_node: t.to_node.push(b), ..t })
        } else if t.to_node.len() > 0 {
            goto(c, ScanState::LookForStatus)
        } else {
            c
        },
        // LookForStatus
        _ => if is_word(b) {
            with_tok(c, Tokens { status: t.status.push(b), ..t })
        } else if t.status.len() > 0 {
            ScanConfig { halted: true, ..c }
        } else {
            c
        },
    }
}

/// What the scanner does with one byte of the line.
pub open spec fn scan_step(c: ScanConfig, b: u8) -> ScanConfig {
    if c.halted || c.fault {
        c
    } else {
        let c1 = ScanConfig { lower: c.lower + lowered_utf8(b), ..c };
        match c1.state {
            ScanState::Idle => step_idle(c1, b),
            ScanState::SawBracket => step_bracket(c1, b),
            ScanState::InTimestamp => step_timestamp(c1, b),
            ScanState::SawS | ScanState::InStreamId | ScanState::SawF | ScanState::InFuncId =>
                step_header(c1, b),
            ScanState::SecsHeaderFound | ScanState::LookForOht | ScanState::SawO
            | ScanState::SawOh | ScanState::InOhtId | ScanState::PostOhtId
            | ScanState::RecognizeVerb => step_oht(c1, b),
            ScanState::VerbRecognized | ScanState::SawFr | ScanState::SawFro
            | ScanState::LookForColonFrom | ScanState::InFromNode => step_from(c1, b),
            ScanState::LookForTo | ScanState::SawT | ScanState::SawTo
            | ScanState::LookForColonTo | ScanState::InToNode | ScanState::LookForStatus =>
                step_to(c1, b),
            ScanState::Done => ScanConfig { halted: true, ..c1 },
            ScanState::InVerb => goto(c1, ScanState::VerbRecognized),
            ScanState::LookForFrom => goto(c1, ScanState::SawFr),
        }
    }
}

/// The configuration after the scanner has read the bytes `s`.
pub open spec fn scan_run(c: ScanConfig, s: Seq<u8>) -> ScanConfig
    decreases s.len(),
{
    if s.len() == 0 {
        c
    } else {
        scan_step(scan_run(c, s.drop_last()), s.last())
    }
}

/// The number the decimal digits of `s` spell, other bytes skipped.
pub open spec fn bcd_value(s: Seq<u8>) -> nat
    decreases s.len(),
{
    if s.len() == 0 {
        0
    } else if is_digit(s.last()) {
        bcd_value(s.drop_last()) * 10 + (s.last() - 48) as nat
    } else {
        bcd_value(s.drop_last())
    }
}

/// The instant the timestamp digits name, 0 where they name no date.
pub open spec fn tokens_timestamp(t: Tokens) -> i64 {
    let millis: u32 = if t.ts_has_millis {
        bcd_value(t.millis) as u32
    } else {
        0
    };
    match civil_utc_millis(
        bcd_value(t.year) as i32,
        bcd_value(t.month) as u32,
        bcd_value(t.day) as u32,
        bcd_value(t.hour) as u32,
        bcd_value(t.minute) as u32,
        bcd_value(t.second) as u32,
        millis,
    ) {
        Some(v) => v,
        None => 0,
    }
}

/// The kind of movement a scanned line reports, by its verb, its status
/// word and the words anywhere in the (lower-cased) line.
pub open spec fn verb_event_type(t: Tokens, lower: Seq<u8>) -> MoveEventType {
    if eq_ignore_case(t.status, kw_blocked()) || eq_ignore_case(t.status, kw_waiting())
        || eq_ignore_case(t.status, kw_wait()) || seq_contains(lower, kw_blocked())
        || seq_contains(lower, kw_waiting()) || eq_ignore_case(t.verb, kw_blocked()) {
        MoveEventType::Blocked
    } else if eq_ignore_case(t.verb, kw_depart()) || seq_contains(lower, kw_depart()) {
        MoveEventType::Depart
    } else if eq_ignore_case(t.verb, kw_arrive()) || seq_contains(lower, kw_arrive()) {
        MoveEventType::Arrive
    } else if eq_ignore_case(t.status, kw_estop()) || eq_ignore_case(t.status, kw_emergency())
        || seq_contains(lower, kw_estop()) || seq_contains(lower, kw_emergency()) {
        MoveEventType::EmergencyStop
    } else {
        MoveEventType::PassThrough
    }
}

/// The event a finished scan yields: one where an OHT and both nodes were
/// found.
pub open spec fn scan_event(c: ScanConfig) -> Option<EventView> {
    if c.tok.oht_id.len() > 0 && c.tok.from_node.len() > 0 && c.tok.to_node.len() > 0 {
        Some(
            EventView {
                timestamp: tokens_timestamp(c.tok),
                oht_id: bytes_as_chars(c.tok.oht_id),
                from_node: bytes_as_chars(c.tok.from_node),
                to_node: bytes_as_chars(c.tok.to_node),
                event_type: verb_event_type(c.tok, c.lower),
                duration_ms: 0,
            },
        )
    } else {
        None
    }
}

/// The scan of `line` by a scanner that keeps the digits `d`.
pub open spec fn scan_of(d: ScanDates, line: Seq<u8>) -> ScanConfig {
    scan_run(start_config(d), line)
}

// ---------------------------------------------------------------------------
// Keywords
// ---------------------------------------------------------------------------

fn kw_oht_bytes() -> (a: [u8; 3])
    ensures
        a@ == kw_oht(),
{
    [111, 104, 116]
}

fn kw_from_bytes() -> (a: [u8; 4])
    ensures
        a@ == kw_from(),
{
    [102, 114, 111, 109]
}

fn kw_to_bytes() -> (a: [u8; 2])
    ensures
        a@ == kw_to(),
{
    [116, 111]
}

fn kw_blocked_bytes() -> (a: [u8; 7])
    ensures
        a@ == kw_blocked(),
{
    [98, 108, 111, 99, 107, 101, 100]
}

fn kw_waiting_bytes() -> (a: [u8; 7])
    ensures
        a@ == kw_waiting(),
{
    [119, 97, 105, 116, 105, 110, 103]
}

fn kw_wait_bytes() -> (a: [u8; 4])
    ensures
        a@ == kw_wait(),
{
    [119, 97, 105, 116]
}

fn kw_depart_bytes() -> (a: [u8; 6])
    ensures
        a@ == kw_depart(),
{
    [100, 101, 112, 97, 114, 116]
}

fn kw_arrive_bytes() -> (a: [u8; 6])
    ensures
        a@ == kw_arrive(),
{
    [97, 114, 114, 105, 118, 101]
}

fn kw_estop_bytes() -> (a: [u8; 5])
    ensures
        a@ == kw_estop(),
{
    [101, 115, 116, 111, 112]
}

fn kw_emergency_bytes() -> (a: [u8; 9])
    ensures
        a@ == kw_emergency(),
{
    [101, 109, 101, 114, 103, 101, 110, 99, 121]
}

// ---------------------------------------------------------------------------
// Digits
// ---------------------------------------------------------------------------

pub open spec fn pow10(n: nat) -> nat
    decreases n,
{
    if n == 0 {
        1
    } else {
        10 * pow10((n - 1) as nat)
    }
}

proof fn lemma_bcd_bound(s: Seq<u8>)
    ensures
        bcd_value(s) < pow10(s.len()),
    decreases s.len(),
{
    if s.len() > 0 {
        lemma_bcd_bound(s.drop_last());
    }
}

proof fn lemma_bcd_prefix(s: Seq<u8>, i: int)
    requires
        0 <= i <= s.len(),
    ensures
        bcd_value(s.take(i)) <= bcd_value(s),
    decreases s.len(),
{
    if i < s.len() {
        assert(s.drop_last().take(i) =~= s.take(i));
        lemma_bcd_prefix(s.drop_last(), i);
    } else {
        assert(s.take(i) =~= s);
    }
}

/// The number spelled by the decimal digits of `buf`, other bytes skipped.
fn bcd_to_num(buf: &[u8]) -> (r: u32)
    requires
        bcd_value(buf@) <= u32::MAX,
    ensures
        r == bcd_value(buf@),
{
    let mut result: u32 = 0;
    let mut i: usize = 0;
    while i < buf.len()
        invariant
            i <= buf@.len(),
            result == bcd_value(buf@.take(i as int)),
            bcd_value(buf@) <= u32::MAX,
        decreases buf@.len() - i,
    {
        let b = buf[i];
        proof {
            assert(buf@.take(i + 1).drop_last() =~= buf@.take(i as int));
            lemma_bcd_prefix(buf@, i + 1);
        }
        if b >= 48 && b <= 57 {
            result = result * 10 + (b - 48) as u32;
        }
        i = i + 1;
    }
    assert(buf@.take(buf@.len() as int) =~= buf@);
    result
}

// ---------------------------------------------------------------------------
// The token buffer
// ---------------------------------------------------------------------------

/// The bytes collected from the current line.
struct TokenBuffer {
    year: [u8; 4],
    month: [u8; 2],
    day: [u8; 2],
    hour: [u8; 2],
    minute: [u8; 2],
    second: [u8; 2],
    millis: [u8; 3],
    ts_has_millis: bool,
    stream_id: u32,
    func_id: u32,
    oht_id: Vec<u8>,
    verb: Vec<u8>,
    from_node: Vec<u8>,
    to_node: Vec<u8>,
    status: Vec<u8>,
}

impl View for TokenBuffer {
    type V = Tokens;

    closed spec fn view(&self) -> Tokens {
        Tokens {
            year: self.year@,
            month: self.month@,
            day: self.day@,
            hour: self.hour@,
            minute: self.minute@,
            second: self.second@,
            millis: self.millis@,
            ts_has_millis: self.ts_has_millis,
            stream_id: self.stream_id,
            func_id: self.func_id,
            oht_id: self.oht_id@,
            verb: self.verb@,
            from_node: self.from_node@,
            to_node: self.to_node@,
            status: self.status@,
        }
    }
}

impl TokenBuffer {
    fn new() -> (b: TokenBuffer)
        ensures
            b@ == start_tokens(zero_dates()),
    {
        let b = TokenBuffer {
            year: [0, 0, 0, 0],
            month: [0, 0],
            day: [0, 0],
            hour: [0, 0],
            minute: [0, 0],
            second: [0, 0],
            millis: [0, 0, 0],
            ts_has_millis: false,
            stream_id: 0,
            func_id: 0,
            oht_id: Vec::new(),
            verb: Vec::new(),
            from_node: Vec::new(),
            to_node: Vec::new(),
            status: Vec::new(),
        };
        assert(b.year@ =~= seq![0u8, 0u8, 0u8, 0u8]);
        assert(b.month@ =~= seq![0u8, 0u8]);
        assert(b.day@ =~= seq![0u8, 0u8]);
        assert(b.hour@ =~= seq![0u8, 0u8]);
        assert(b.minute@ =~= seq![0u8, 0u8]);
        assert(b.second@ =~= seq![0u8, 0u8]);
        assert(b.millis@ =~= seq![0u8, 0u8, 0u8]);
        b
    }

    /// Empties everything but the date and time digits.
    fn reset(&mut self)
        ensures
            final(self)@ == start_tokens(dates_of(old(self)@)),
    {
        self.stream_id = 0;
        self.func_id = 0;
        self.ts_has_millis = false;
        self.oht_id.clear();
        self.verb.clear();
        self.from_node.clear();
        self.to_node.clear();
        self.status.clear();
    }

    fn build_timestamp(&self) -> (t: i64)
        ensures
            t == tokens_timestamp(self@),
    {
        proof {
            lemma_bcd_bound(self.year@);
            lemma_bcd_bound(self.month@);
            lemma_bcd_bound(self.day@);
            lemma_bcd_bound(self.hour@);
            lemma_bcd_bound(self.minute@);
            lemma_bcd_bound(self.second@);
            lemma_bcd_bound(self.millis@);
            reveal_with_fuel(pow10, 5);
        }
        let year = bcd_to_num(self.year.as_slice()) as i32;
        let month = bcd_to_num(self.month.as_slice());
        let day = bcd_to_num(self.day.as_slice());
        let hour = bcd_to_num(self.hour.as_slice());
        let minute = bcd_to_num(self.minute.as_slice());
        let second = bcd_to_num(self.second.as_slice());
        let millis = if self.ts_has_millis {
            bcd_to_num(self.millis.as_slice())
        } else {
            0
        };
        match utc_millis_from_civil(year, month, day, hour, minute, second, millis) {
            Some(v) => v,
            None => 0,
        }
    }

    fn detect_verb_type(&self, line_lower: &[u8]) -> (t: MoveEventType)
        ensures
            t == verb_event_type(self@, line_lower@),
    {
        let status = self.status.as_slice();
        let verb = self.verb.as_slice();
        if bytes_eq_ignore_case(status, kw_blocked_bytes().as_slice())
            || bytes_eq_ignore_case(status, kw_waiting_bytes().as_slice())
            || bytes_eq_ignore_case(status, kw_wait_bytes().as_slice())
            || bytes_contain(line_lower, kw_blocked_bytes().as_slice())
            || bytes_contain(line_lower, kw_waiting_bytes().as_slice())
            || bytes_eq_ignore_case(verb, kw_blocked_bytes().as_slice()) {
            MoveEventType::Blocked
        } else if bytes_eq_ignore_case(verb, kw_depart_bytes().as_slice())
            || bytes_contain(line_lower, kw_depart_bytes().as_slice()) {
            MoveEventType::Depart
        } else if bytes_eq_ignore_case(verb, kw_arrive_bytes().as_slice())
            || bytes_contain(line_lower, kw_arrive_bytes().as_slice()) {
            MoveEventType::Arrive
        } else if bytes_eq_ignore_case(status, kw_estop_bytes().as_slice())
            || bytes_eq_ignore_case(status, kw_emergency_bytes().as_slice())
            || bytes_contain(line_lower, kw_estop_bytes().as_slice())
            || bytes_contain(line_lower, kw_emergency_bytes().as_slice()) {
            MoveEventType::EmergencyStop
        } else {
            MoveEventType::PassThrough
        }
    }
}

// ---------------------------------------------------------------------------
// One step of the machine
// ---------------------------------------------------------------------------

/// The machine's control state apart from the tokens.
struct Control {
    state: ScanState,
    ts_idx: usize,
    ts_part: u8,
    digit_acc: u32,
    oht_prefix_skipped: bool,
    lower: Vec<u8>,
}

/// How a step ended.
enum Step {
    Go,
    Halt,
    Fault,
}

spec fn config(ctl: Control, tok: Tokens, o: Step) -> ScanConfig {
    ScanConfig {
        state: ctl.state,
        ts_idx: ctl.ts_idx,
        ts_part: ctl.ts_part,
        digit_acc: ctl.digit_acc,
        oht_prefix_skipped: ctl.oht_prefix_skipped,
        lower: ctl.lower@,
        tok: tok,
        halted: o is Halt,
        fault: o is Fault,
    }
}

fn tail_begin(len: usize, k: usize) -> (r: usize)
    ensures
        r == tail_start(len as int, k as int),
{
    if len >= k {
        len - k
    } else {
        0
    }
}

/// Whether the last `k` bytes of `lower` start on a character boundary;
/// where they do, the index they start at.
fn tail_at_boundary(lower: &Vec<u8>, k: usize) -> (r: Option<usize>)
    ensures
        match r {
            Some(i) => tail_on_boundary(lower@, k as int) && i == tail_start(lower@.len() as int, k as int),
            None => !tail_on_boundary(lower@, k as int),
        },
{
    let start = tail_begin(lower.len(), k);
    if start < lower.len() && lower[start] >= 128 && lower[start] < 192 {
        None
    } else {
        Some(start)
    }
}

fn exec_idle(ctl: &mut Control, buf: &mut TokenBuffer, b: u8) -> (o: Step)
    ensures
        config(*final(ctl), final(buf)@, o) == step_idle(config(*old(ctl), old(buf)@, Step::Go), b),
{
    if b == 91 {
        ctl.state = ScanState::SawBracket;
        ctl.ts_idx = 0;
        ctl.ts_part = 0;
    } else if b == 83 || b == 115 {
        ctl.state = ScanState::SawS;
        ctl.digit_acc = 0;
    } else if is_whitespace(b) {
    } else {
        match tail_at_boundary(&ctl.lower, 4) {
            None => {
                return Step::Fault;
            },
            Some(start) => {
                if bytes_contain_from(ctl.lower.as_slice(), start, kw_oht_bytes().as_slice()) && b
                    != 45 && b != 95 {
                    ctl.state = ScanState::InOhtId;
                    ctl.oht_prefix_skipped = true;
                    buf.oht_id.clear();
                    if is_word_char(b) {
                        buf.oht_id.push(b);
                    }
                    assert(buf.oht_id@ =~= (if is_word(b) { seq![b] } else { seq![] }));
                }
            },
        }
    }
    Step::Go
}

fn exec_bracket(ctl: &mut Control, buf: &mut TokenBuffer, b: u8) -> (o: Step)
    ensures
        config(*final(ctl), final(buf)@, o) == step_bracket(config(*old(ctl), old(buf)@, Step::Go), b),
{
    if digit_byte(b) && ctl.ts_idx < 4 {
        buf.year[ctl.ts_idx] = b;
        ctl.ts_idx = ctl.ts_idx + 1;
        if ctl.ts_idx == 4 {
            ctl.state = ScanState::InTimestamp;
            ctl.ts_part = 1;
            ctl.ts_idx = 0;
        }
    } else {
        ctl.state = ScanState::Idle;
    }
    Step::Go
}

fn exec_timestamp(ctl: &mut Control, buf: &mut TokenBuffer, b: u8) -> (o: Step)
    ensures
        config(*final(ctl), final(buf)@, o) == step_timestamp(config(*old(ctl), old(buf)@, Step::Go), b),
{
    let i = ctl.ts_idx;
    if ctl.ts_part == 1 {
        if b == 45 || b == 47 {
            ctl.ts_part = 2;
            ctl.ts_idx = 0;
        } else if digit_byte(b) && i < 2 {
            buf.month[i] = b;
            ctl.ts_idx = i + 1;
        }
    } else if ctl.ts_part == 2 {
        if b == 45 || b == 47 {
            ctl.ts_part = 3;
            ctl.ts_idx = 0;
        } else if digit_byte(b) && i < 2 {
            buf.day[i] = b;
            ctl.ts_idx = i + 1;
        }
    } else if ctl.ts_part == 3 {
        if is_whitespace(b) || b == 84 || b == 116 {
            ctl.ts_part = 4;
            ctl.ts_idx = 0;
        } else if digit_byte(b) && i < 2 {
            buf.hour[i] = b;
            ctl.ts_idx = i + 1;
        }
    } else if ctl.ts_part == 4 {
        if b == 58 {
            ctl.ts_part = 5;
            ctl.ts_idx = 0;
        } else if digit_byte(b) && i < 2 {
            buf.hour[i] = b;
            ctl.ts_idx = i + 1;
        }
    } else if ctl.ts_part == 5 {
        if b == 58 {
            ctl.ts_part = 6;
            ctl.ts_idx = 0;
        } else if digit_byte(b) && i < 2 {
            buf.minute[i] = b;
            ctl.ts_idx = i + 1;
        }
    } else if ctl.ts_part == 6 {
        if b == 46 {
            ctl.ts_part = 7;
            ctl.ts_idx = 0;
            buf.ts_has_millis = true;
        } else if is_whitespace(b) || b == 93 {
            ctl.state = ScanState::Idle;
        } else if digit_byte(b) && i < 2 {
            buf.second[i] = b;
            ctl.ts_idx = i + 1;
        }
    } else if ctl.ts_part == 7 {
        if is_whitespace(b) || b == 93 {
            ctl.state = ScanState::Idle;
        } else if digit_byte(b) && i < 3 {
            buf.millis[i] = b;
            ctl.ts_idx = i + 1;
        }
    } else {
        ctl.state = ScanState::Idle;
    }
    Step::Go
}

fn exec_accumulate(ctl: &mut Control, b: u8, next: ScanState) -> (o: Step)
    requires
        is_digit(b),
    ensures
        o is Go ==> old(ctl).digit_acc * 10 + (b - 48) <= u32::MAX && final(ctl).digit_acc
            == old(ctl).digit_acc * 10 + (b - 48) && *final(ctl) == (Control {
            state: next,
            digit_acc: final(ctl).digit_acc,
            ..*old(ctl)
        }),
        o is Fault ==> old(ctl).digit_acc * 10 + (b - 48) > u32::MAX && *final(ctl) == *old(ctl),
        !(o is Halt),
{
    let d = (b - 48) as u32;
    match ctl.digit_acc.checked_mul(10) {
        Some(m) => match m.checked_add(d) {
            Some(v) => {
                ctl.digit_acc = v;
                ctl.state = next;
                Step::Go
            },
            None => Step::Fault,
        },
        None => Step::Fault,
    }
}

fn exec_header(ctl: &mut Control, buf: &mut TokenBuffer, b: u8) -> (o: Step)
    requires
        old(ctl).state is SawS || old(ctl).state is InStreamId || old(ctl).state is SawF
            || old(ctl).state is InFuncId,
    ensures
        config(*final(ctl), final(buf)@, o) == step_header(config(*old(ctl), old(buf)@, Step::Go), b),
{
    let d = digit_byte(b);
    match ctl.state {
        ScanState::SawS => {
            if d {
                exec_accumulate(ctl, b, ScanState::InStreamId)
            } else {
                ctl.state = ScanState::Idle;
                Step::Go
            }
        },
        ScanState::InStreamId => {
            if d {
                exec_accumulate(ctl, b, ScanState::InStreamId)
            } else if b == 70 || b == 102 {
                buf.stream_id = ctl.digit_acc;
                ctl.digit_acc = 0;
                ctl.state = ScanState::SawF;
                Step::Go
            } else {
                ctl.state = ScanState::Idle;
                Step::Go
            }
        },
        ScanState::SawF => {
            if d {
                exec_accumulate(ctl, b, ScanState::InFuncId)
            } else {
                ctl.state = ScanState::Idle;
                Step::Go
            }
        },
        _ => {
            if d {
                exec_accumulate(ctl, b, ScanState::InFuncId)
            } else {
                buf.func_id = ctl.digit_acc;
                ctl.state = ScanState::SecsHeaderFound;
                Step::Go
            }
        },
    }
}

fn exec_oht(ctl: &mut Control, buf: &mut TokenBuffer, b: u8) -> (o: Step)
    requires
        old(ctl).state is SecsHeaderFound || old(ctl).state is LookForOht || old(ctl).state is SawO
            || old(ctl).state is SawOh || old(ctl).state is InOhtId || old(ctl).state is PostOhtId
            || old(ctl).state is RecognizeVerb,
    ensures
        config(*final(ctl), final(buf)@, o) == step_oht(config(*old(ctl), old(buf)@, Step::Go), b),
{
    match ctl.state {
        ScanState::SawO => {
            if b == 72 || b == 104 {
                ctl.state = ScanState::SawOh;
            } else {
                ctl.state = ScanState::LookForOht;
            }
        },
        ScanState::SawOh => {
            if b == 84 || b == 116 {
                ctl.state = ScanState::InOhtId;
                ctl.oht_prefix_skipped = false;
                buf.oht_id.clear();
            } else {
                ctl.state = ScanState::LookForOht;
            }
        },
        ScanState::InOhtId => {
            if !ctl.oht_prefix_skipped && (b == 45 || b == 95) {
                ctl.oht_prefix_skipped = true;
            } else if is_word_char(b) {
                buf.oht_id.push(b);
            } else if buf.oht_id.len() > 0 {
                ctl.state = ScanState::PostOhtId;
            }
        },
        ScanState::PostOhtId => {
            if is_whitespace(b) {
            } else if is_word_char(b) {
                ctl.state = ScanState::RecognizeVerb;
                buf.verb.clear();
                buf.verb.push(b);
                assert(buf.verb@ =~= seq![b]);
            }
        },
        ScanState::RecognizeVerb => {
            if is_word_char(b) {
                buf.verb.push(b);
            } else {
                ctl.state = ScanState::VerbRecognized;
            }
        },
        _ => {
            if b == 79 || b == 111 {
                ctl.state = ScanState::SawO;
            } else if is_whitespace(b) {
                ctl.state = ScanState::SecsHeaderFound;
            }
        },
    }
    Step::Go
}

fn exec_from(ctl: &mut Control, buf: &mut TokenBuffer, b: u8) -> (o: Step)
    requires
        old(ctl).state is VerbRecognized || old(ctl).state is SawFr || old(ctl).state is SawFro
            || old(ctl).state is LookForColonFrom || old(ctl).state is InFromNode,
    ensures
        config(*final(ctl), final(buf)@, o) == step_from(config(*old(ctl), old(buf)@, Step::Go), b),
{
    match ctl.state {
        ScanState::VerbRecognized => {
            if is_whitespace(b) {
            } else if b == 70 || b == 102 {
                ctl.state = ScanState::SawFr;
            } else if b == 84 || b == 116 {
                ctl.state = ScanState::SawT;
            } else if is_word_char(b) {
                match tail_at_boundary(&ctl.lower, 4) {
                    None => {
                        return Step::Fault;
                    },
                    Some(start) => {
                        if bytes_contain_from(
                            ctl.lower.as_slice(),
                            start,
                            kw_from_bytes().as_slice(),
                        ) {
                            ctl.state = ScanState::LookForColonFrom;
                        }
                    },
                }
            }
        },
        ScanState::SawFr => {
            if b == 82 || b == 114 {
                ctl.state = ScanState::SawFro;
            } else {
                ctl.state = ScanState::VerbRecognized;
            }
        },
        ScanState::SawFro => {
            if b == 79 || b == 111 {
                ctl.state = ScanState::LookForColonFrom;
            } else if b == 77 || b == 109 {
            } else {
                ctl.state = ScanState::VerbRecognized;
            }
        },
        ScanState::LookForColonFrom => {
            if is_whitespace(b) || alpha_byte(b) {
            } else if b == 58 || b == 61 {
                ctl.state = ScanState::InFromNode;
                buf.from_node.clear();
            } else if is_word_char(b) {
                ctl.state = ScanState::InFromNode;
                buf.from_node.clear();
                buf.from_node.push(b);
                assert(buf.from_node@ =~= seq![b]);
            }
        },
        _ => {
            if is_word_char(b) {
                buf.from_node.push(b);
            } else if buf.from_node.len() > 0 {
                ctl.state = ScanState::LookForTo;
            }
        },
    }
    Step::Go
}

fn exec_to(ctl: &mut Control, buf: &mut TokenBuffer, b: u8) -> (o: Step)
    requires
        old(ctl).state is LookForTo || old(ctl).state is SawT || old(ctl).state is SawTo
            || old(ctl).state is LookForColonTo || old(ctl).state is InToNode
            || old(ctl).state is LookForStatus,
    ensures
        config(*final(ctl), final(buf)@, o) == step_to(config(*old(ctl), old(buf)@, Step::Go), b),
{
    match ctl.state {
        ScanState::LookForTo => {
            if is_whitespace(b) {
            } else if b == 84 || b == 116 {
                ctl.state = ScanState::SawTo;
            } else if is_word_char(b) {
                match tail_at_boundary(&ctl.lower, 2) {
                    None => {
                        return Step::Fault;
                    },
                    Some(start) => {
                        let len = ctl.lower.len();
                        let is_to = len >= 2 && ctl.lower[len - 2] == 116 && ctl.lower[len - 1]
                            == 111;
                        assert(is_to == (tail(ctl.lower@, 2) == kw_to())) by {
                            if len >= 2 {
                                assert(tail(ctl.lower@, 2).len() == 2);
                                if is_to {
                                    assert(tail(ctl.lower@, 2) =~= kw_to());
                                } else if tail(ctl.lower@, 2) == kw_to() {
                                    assert(tail(ctl.lower@, 2)[0] == ctl.lower@[len - 2]);
                                    assert(tail(ctl.lower@, 2)[1] == ctl.lower@[len - 1]);
                                }
                            } else {
                                assert(tail(ctl.lower@, 2).len() < 2);
                            }
                        }
                        if is_to {
                            ctl.state = ScanState::LookForColonTo;
                        }
                    },
                }
            }
        },
        ScanState::SawT => {
            if b == 79 || b == 111 {
                ctl.state = ScanState::SawTo;
            } else {
                ctl.state = ScanState::LookForTo;
            }
        },
        ScanState::SawTo => {
            if is_whitespace(b) {
                ctl.state = ScanState::LookForColonTo;
            } else if is_word_char(b) {
                if bytes_eq_ignore_case(buf.verb.as_slice(), kw_to_bytes().as_slice()) {
                    ctl.state = ScanState::InToNode;
                    buf.to_node.clear();
                    buf.to_node.push(b);
                    assert(buf.to_node@ =~= seq![b]);
                } else {
                    ctl.state = ScanState::LookForColonTo;
                }
            }
        },
        ScanState::LookForColonTo => {
            if is_whitespace(b) || alpha_byte(b) {
            } else if b == 58 || b == 61 {
                ctl.state = ScanState::InToNode;
                buf.to_node.clear();
            } else if is_word_char(b) {
                ctl.state = ScanState::InToNode;
                buf.to_node.clear();
                buf.to_node.push(b);
                assert(buf.to_node@ =~= seq![b]);
            }
        },
        ScanState::InToNode => {
            if is_word_char(b) {
                buf.to_node.push(b);
            } else if buf.to_node.len() > 0 {
                ctl.state = ScanState::LookForStatus;
            }
        },
        _ => {
            if is_word_char(b) {
                buf.status.push(b);
            } else if buf.status.len() > 0 {
                return Step::Halt;
            }
        },
    }
    Step::Go
}

/// Feeds one byte of the line to the machine.
fn scan_byte(ctl: &mut Control, buf: &mut TokenBuffer, b: u8) -> (o: Step)
    ensures
        config(*final(ctl), final(buf)@, o) == scan_step(config(*old(ctl), old(buf)@, Step::Go), b),
{
    if b < 128 {
        ctl.lower.push(to_lower_ascii(b));
    } else {
        ctl.lower.push(192 + b / 64);
        ctl.lower.push(128 + b % 64);
    }
    assert(ctl.lower@ =~= old(ctl).lower@ + lowered_utf8(b));
    match ctl.state {
        ScanState::Idle => exec_idle(ctl, buf, b),
        ScanState::SawBracket => exec_bracket(ctl, buf, b),
        ScanState::InTimestamp => exec_timestamp(ctl, buf, b),
        ScanState::SawS | ScanState::InStreamId | ScanState::SawF | ScanState::InFuncId =>
            exec_header(ctl, buf, b),
        ScanState::SecsHeaderFound | ScanState::LookForOht | ScanState::SawO | ScanState::SawOh
        | ScanState::InOhtId | ScanState::PostOhtId | ScanState::RecognizeVerb => exec_oht(
            ctl,
            buf,
            b,
        ),
        ScanState::VerbRecognized | ScanState::SawFr | ScanState::SawFro
        | ScanState::LookForColonFrom | ScanState::InFromNode => exec_from(ctl, buf, b),
        ScanState::LookForTo | ScanState::SawT | ScanState::SawTo | ScanState::LookForColonTo
        | ScanState::InToNode | ScanState::LookForStatus => exec_to(ctl, buf, b),
        ScanState::Done => Step::Halt,
        ScanState::InVerb => {
            ctl.state = ScanState::VerbRecognized;
            Step::Go
        },
        ScanState::LookForFrom => {
            ctl.state = ScanState::SawFr;
            Step::Go
        },
    }
}

// ---------------------------------------------------------------------------
// Whole lines
// ---------------------------------------------------------------------------

pub open spec fn all_word(s: Seq<u8>) -> bool {
    forall|i: int| 0 <= i < s.len() ==> is_word(#[trigger] s[i])
}

/// Every collected token consists of word bytes.
pub open spec fn tokens_wordy(t: Tokens) -> bool {
    all_word(t.oht_id) && all_word(t.verb) && all_word(t.from_node) && all_word(t.to_node)
        && all_word(t.status)
}

proof fn lemma_word_push(s: Seq<u8>, b: u8)
    requires
        all_word(s),
        is_word(b),
    ensures
        all_word(s.push(b)),
{
    assert forall|i: int| 0 <= i < s.push(b).len() implies is_word(#[trigger] s.push(b)[i]) by {
        if i < s.len() {
            assert(s.push(b)[i] == s[i]);
        }
    }
}

proof fn lemma_step_wordy(c: ScanConfig, b: u8)
    requires
        tokens_wordy(c.tok),
    ensures
        tokens_wordy(scan_step(c, b).tok),
{
    let t = c.tok;
    if is_word(b) {
        lemma_word_push(t.oht_id, b);
        lemma_word_push(t.verb, b);
        lemma_word_push(t.from_node, b);
        lemma_word_push(t.to_node, b);
        lemma_word_push(t.status, b);
        assert(all_word(seq![b]));
    }
    assert(all_word(seq![]));
}

proof fn lemma_run_wordy(c: ScanConfig, s: Seq<u8>)
    requires
        tokens_wordy(c.tok),
    ensures
        tokens_wordy(scan_run(c, s).tok),
    decreases s.len(),
{
    if s.len() > 0 {
        lemma_run_wordy(c, s.drop_last());
        lemma_step_wordy(scan_run(c, s.drop_last()), s.last());
    }
}

/// Once the scan has stopped, the rest of the line changes nothing.
proof fn lemma_run_stops(c: ScanConfig, s: Seq<u8>, i: int)
    requires
        0 <= i <= s.len(),
        scan_run(c, s.take(i)).halted || scan_run(c, s.take(i)).fault,
    ensures
        scan_run(c, s) == scan_run(c, s.take(i)),
    decreases s.len(),
{
    if i == s.len() {
        assert(s.take(i) =~= s);
    } else {
        assert(s.drop_last().take(i) =~= s.take(i));
        lemma_run_stops(c, s.drop_last(), i);
    }
}

proof fn lemma_wordy_ascii(s: Seq<u8>)
    requires
        all_word(s),
    ensures
        all_ascii(s),
{
    assert forall|i: int| 0 <= i < s.len() implies s[i] < 128 by {
        assert(is_word(s[i]));
    }
}

/// A line on which the scanner cannot proceed: a number overflowed its
/// counter, or a look back over the line split a character.
#[derive(Debug, Clone, Copy, PartialEq, Eq)]
pub struct ScanFault;

pub struct SecsScanner {
    buf: TokenBuffer,
}

impl View for SecsScanner {
    type V = ScanDates;

    closed spec fn view(&self) -> ScanDates {
        dates_of(self.buf@)
    }
}

impl SecsScanner {
    /// Everything the scanner's buffer holds: the kept digits and the
    /// tokens of the line scanned last.
    pub closed spec fn tokens(&self) -> Tokens {
        self.buf@
    }

    /// A scanner whose date and time digits are all zero bytes and whose
    /// buffer is otherwise empty: no ids, no millisecond flag, no text.
    pub fn new() -> (s: Self)
        ensures
            s@ == zero_dates(),
            s.tokens() == start_tokens(zero_dates()),
    {
        SecsScanner { buf: TokenBuffer::new() }
    }

    /// Scans one line, reporting the lines on which the scan cannot proceed.
    pub fn try_scan_line(&mut self, line: &str) -> (r: Result<Option<OhtMoveEvent>, ScanFault>)
        ensures
            ({
                let c = scan_of(old(self)@, utf8_of(line));
                &&& final(self)@ == dates_of(c.tok)
                &&& match r {
                    Ok(e) => !c.fault && opt_event_view(e) == scan_event(c),
                    Err(_) => c.fault,
                }
            }),
    {
        self.buf.reset();
        let bytes = line.as_bytes();
        let mut ctl = Control {
            state: ScanState::Idle,
            ts_idx: 0,
            ts_part: 0,
            digit_acc: 0,
            oht_prefix_skipped: false,
            lower: Vec::new(),
        };
        let ghost start = start_config(old(self)@);
        assert(config(ctl, self.buf@, Step::Go) == start) by {
            assert(ctl.lower@ =~= seq![]);
        }
        assert(bytes@.take(0) =~= seq![]);
        assert(bytes@.take(bytes@.len() as int) =~= bytes@);
        proof {
            assert(all_word(seq![]));
        }
        let mut o = Step::Go;
        let mut i: usize = 0;
        while i < bytes.len()
            invariant_except_break
                i <= bytes@.len(),
                config(ctl, self.buf@, Step::Go) == scan_run(start, bytes@.take(i as int)),
                o is Go,
            invariant
                bytes@ == utf8_of(line),
                bytes@.take(bytes@.len() as int) == bytes@,
                tokens_wordy(self.buf@),
                start == start_config(old(self)@),
                tokens_wordy(start.tok),
            ensures
                config(ctl, self.buf@, o) == scan_run(start, bytes@),
            decreases bytes@.len() - i,
        {
            let b = bytes[i];
            let ghost before = config(ctl, self.buf@, Step::Go);
            let r = scan_byte(&mut ctl, &mut self.buf, b);
            proof {
                assert(bytes@.take(i + 1).drop_last() =~= bytes@.take(i as int));
                assert(bytes@.take(i + 1).last() == b);
                lemma_step_wordy(before, b);
            }
            match r {
                Step::Go => {},
                Step::Halt => {
                    proof {
                        lemma_run_stops(start, bytes@, i + 1);
                    }
                    o = Step::Halt;
                    break ;
                },
                Step::Fault => {
                    proof {
                        lemma_run_stops(start, bytes@, i + 1);
                    }
                    o = Step::Fault;
                    break ;
                },
            }
            i = i + 1;
        }
        if let Step::Fault = o {
            return Err(ScanFault);
        }
        if self.buf.oht_id.len() > 0 && self.buf.from_node.len() > 0 && self.buf.to_node.len() > 0 {
            let timestamp = self.buf.build_timestamp();
            let event_type = self.buf.detect_verb_type(ctl.lower.as_slice());
            proof {
                lemma_wordy_ascii(self.buf.oht_id@);
                lemma_wordy_ascii(self.buf.from_node@);
                lemma_wordy_ascii(self.buf.to_node@);
            }
            let oht_id = ascii_string(self.buf.oht_id.as_slice());
            let from_node = ascii_string(self.buf.from_node.as_slice());
            let to_node = ascii_string(self.buf.to_node.as_slice());
            Ok(
                Some(
                    OhtMoveEvent {
                        timestamp,
                        oht_id,
                        from_node,
                        to_node,
                        event_type,
                        duration_ms: 0,
                    },
                ),
            )
        } else {
            Ok(None)
        }
    }

    /// Scans one line: the movement event it reports, if any.
    pub fn scan_line(&mut self, line: &str) -> (r: Option<OhtMoveEvent>)
        requires
            !scan_of(old(self)@, utf8_of(line)).fault,
        ensures
            ({
                let c = scan_of(old(self)@, utf8_of(line));
                &&& final(self)@ == dates_of(c.tok)
                &&& opt_event_view(r) == scan_event(c)
            }),
    {
        match self.try_scan_line(line) {
            Ok(e) => e,
            Err(_) => None,
        }
    }
}

impl Default for SecsScanner {
    fn default() -> (s: Self)
        ensures
            s@ == zero_dates(),
            s.tokens() == start_tokens(zero_dates()),
    {
        Self::new()
    }
}

// ---------------------------------------------------------------------------
// Laws of the scanner
// ---------------------------------------------------------------------------

/// The number of decimal digits the bytes end with.
pub open spec fn trailing_digits(s: Seq<u8>) -> nat
    decreases s.len(),
{
    if s.len() == 0 {
        0
    } else if is_digit(s.last()) {
        trailing_digits(s.drop_last()) + 1
    } else {
        0
    }
}

/// No run of decimal digits in the bytes is longer than nine.
pub open spec fn short_digit_runs(s: Seq<u8>) -> bool {
    forall|i: int| 0 <= i <= s.len() ==> trailing_digits(#[trigger] s.take(i)) <= 9
}

/// What holds of the scanner's configuration after an ASCII prefix whose
/// digit runs are short: no fault, an ASCII lower-cased text, and a digit
/// counter below the power of ten of the digits just read.
pub open spec fn clean_scan(c: ScanConfig, read: Seq<u8>) -> bool {
    &&& !c.fault
    &&& all_ascii(c.lower)
    &&& !c.halted ==> ((c.state == ScanState::SawS || c.state == ScanState::SawF) ==> c.digit_acc == 0)
    &&& !c.halted ==> ((c.state == ScanState::InStreamId || c.state == ScanState::InFuncId) ==> c.digit_acc
        < pow10(trailing_digits(read)))
}

proof fn lemma_pow10_positive(k: nat)
    ensures
        pow10(k) >= 1,
    decreases k,
{
    if k > 0 {
        lemma_pow10_positive((k - 1) as nat);
    }
}

proof fn lemma_pow10_nine(k: nat)
    requires
        k <= 9,
    ensures
        pow10(k) <= 1_000_000_000,
    decreases 9 - k,
{
    if k == 9 {
        reveal_with_fuel(pow10, 10);
    } else {
        lemma_pow10_nine(k + 1);
    }
}

#[verifier::spinoff_prover]
#[verifier::rlimit(60)]
proof fn lemma_clean_step(c: ScanConfig, read: Seq<u8>, b: u8)
    requires
        clean_scan(c, read),
        b < 128,
        trailing_digits(read.push(b)) <= 9,
    ensures
        clean_scan(scan_step(c, b), read.push(b)),
{
    assert(read.push(b).drop_last() =~= read);
    if !c.halted {
        let c1 = ScanConfig { lower: c.lower + lowered_utf8(b), ..c };
        assert(all_ascii(c1.lower)) by {
            assert forall|i: int| 0 <= i < c1.lower.len() implies c1.lower[i] < 128 by {
                if i >= c.lower.len() {
                    assert(c1.lower[i] == lower_byte(b));
                }
            }
        }
        assert(tail_on_boundary(c1.lower, 4));
        assert(tail_on_boundary(c1.lower, 2));
        let t = trailing_digits(read);
        assert(trailing_digits(read.push(b)) == if is_digit(b) {
            t + 1
        } else {
            0
        });
        assert(pow10(t + 1) == 10 * pow10(t));
        lemma_pow10_positive(t);
        lemma_pow10_nine(trailing_digits(read.push(b)));
    }
}

/// An ASCII line whose runs of decimal digits are at most nine long never
/// makes the scanner fault, whatever digits it kept from earlier lines.
pub proof fn lemma_ascii_lines_scan_cleanly(d: ScanDates, line: Seq<u8>)
    requires
        all_ascii(line),
        short_digit_runs(line),
    ensures
        !scan_of(d, line).fault,
{
    let start = start_config(d);
    assert(all_ascii(start.lower));
    assert forall|i: int| 0 <= i <= line.len() implies clean_scan(
        #[trigger] scan_run(start, line.take(i)),
        line.take(i),
    ) by {
        lemma_clean_prefix(start, line, i);
    }
    assert(line.take(line.len() as int) =~= line);
}

proof fn lemma_clean_prefix(start: ScanConfig, line: Seq<u8>, i: int)
    requires
        clean_scan(start, seq![]),
        start.state == ScanState::Idle,
        all_ascii(line),
        short_digit_runs(line),
        0 <= i <= line.len(),
    ensures
        clean_scan(scan_run(start, line.take(i)), line.take(i)),
    decreases i,
{
    if i == 0 {
        assert(line.take(0) =~= seq![]);
    } else {
        lemma_clean_prefix(start, line, i - 1);
        let pre = line.take(i - 1);
        assert(line.take(i).drop_last() =~= pre);
        assert(line.take(i) =~= pre.push(line[i - 1]));
        assert(trailing_digits(line.take(i)) <= 9);
        lemma_clean_step(scan_run(start, pre), pre, line[i - 1]);
    }
}

/// A non-empty text of ASCII letters, digits, `_` and `-`.
pub open spec fn word_text(s: Seq<char>) -> bool {
    &&& s.len() > 0
    &&& forall|k: int|
        0 <= k < s.len() ==> {
            let x = #[trigger] s[k] as int;
            (97 <= x <= 122) || (65 <= x <= 90) || (48 <= x <= 57) || x == 95 || x == 45
        }
}

proof fn lemma_word_bytes_text(b: Seq<u8>)
    requires
        all_word(b),
        b.len() > 0,
    ensures
        word_text(bytes_as_chars(b)),
{
    assert forall|k: int| 0 <= k < bytes_as_chars(b).len() implies {
        let x = #[trigger] bytes_as_chars(b)[k] as int;
        (97 <= x <= 122) || (65 <= x <= 90) || (48 <= x <= 57) || x == 95 || x == 45
    } by {
        assert(is_word(b[k]));
        assert(bytes_as_chars(b)[k] == b[k] as char);
    }
}

/// The vehicle and the two nodes of a scanned event are words: non-empty
/// runs of ASCII letters, digits, `_` and `-`.
pub proof fn lemma_scanned_names_are_words(d: ScanDates, line: Seq<u8>)
    ensures
        scan_event(scan_of(d, line)) matches Some(e) ==> word_text(e.oht_id) && word_text(e.from_node)
            && word_text(e.to_node),
{
    let start = start_config(d);
    assert(tokens_wordy(start.tok)) by {
        assert(all_word(seq![]));
    }
    lemma_run_wordy(start, line);
    let t = scan_of(d, line).tok;
    if t.oht_id.len() > 0 && t.from_node.len() > 0 && t.to_node.len() > 0 {
        lemma_word_bytes_text(t.oht_id);
        lemma_word_bytes_text(t.from_node);
        lemma_word_bytes_text(t.to_node);
    }
}

/// Two configurations that differ at most in the kept date digits.
pub open spec fn same_but_dates(c1: ScanConfig, c2: ScanConfig) -> bool {
    ScanConfig {
        tok: Tokens {
            year: c2.tok.year,
            month: c2.tok.month,
            day: c2.tok.day,
            hour: c2.tok.hour,
            minute: c2.tok.minute,
            second: c2.tok.second,
            millis: c2.tok.millis,
            ..c1.tok
        },
        ..c1
    } == c2
}

proof fn lemma_dates_step(c1: ScanConfig, c2: ScanConfig, b: u8)
    requires
        same_but_dates(c1, c2),
    ensures
        same_but_dates(scan_step(c1, b), scan_step(c2, b)),
{
}

proof fn lemma_dates_run(d1: ScanDates, d2: ScanDates, s: Seq<u8>)
    ensures
        same_but_dates(scan_of(d1, s), scan_of(d2, s)),
    decreases s.len(),
{
    if s.len() > 0 {
        lemma_dates_run(d1, d2, s.drop_last());
        lemma_dates_step(scan_of(d1, s.drop_last()), scan_of(d2, s.drop_last()), s.last());
    }
}

/// What a line yields depends on the earlier lines only through the date
/// digits they left behind, and those reach only the timestamp: two
/// scanners that kept different digits fault alike on a line, and find an
/// event on it alike, equal but for its timestamp.
pub proof fn lemma_scan_ignores_kept_dates(d1: ScanDates, d2: ScanDates, line: Seq<u8>)
    ensures
        scan_of(d1, line).fault == scan_of(d2, line).fault,
        (scan_event(scan_of(d1, line)) is Some) == (scan_event(scan_of(d2, line)) is Some),
        scan_event(scan_of(d1, line)) is Some ==> (EventView {
            timestamp: 0,
            ..scan_event(scan_of(d1, line))->Some_0
        }) == (EventView { timestamp: 0, ..scan_event(scan_of(d2, line))->Some_0 }),
{
    lemma_dates_run(d1, d2, line);
}

/// The bytes of `blocked ` (with its trailing space).
pub open spec fn blocked_prefix() -> Seq<u8> {
    seq![98u8, 108u8, 111u8, 99u8, 107u8, 101u8, 100u8, 32u8]
}

/// The least number of lower-cased bytes the scanner has read when it is
/// in a state.
pub open spec fn min_lower(s: ScanState) -> nat {
    match s {
        ScanState::Idle | ScanState::SawBracket | ScanState::InTimestamp => 0,
        ScanState::SawS => 1,
        ScanState::InStreamId => 2,
        ScanState::SawF => 3,
        ScanState::InFuncId => 4,
        _ => 3,
    }
}

/// `cp` is the scan of `blocked ` followed by what `c` scanned.
pub open spec fn behind_prefix(cp: ScanConfig, c: ScanConfig) -> bool {
    &&& cp == ScanConfig { lower: blocked_prefix() + c.lower, ..c }
    &&& c.lower.len() >= min_lower(c.state)
    &&& all_ascii(c.lower)
}

proof fn lemma_ascii_boundary(s: Seq<u8>, k: int)
    requires
        all_ascii(s),
    ensures
        tail_on_boundary(s, k),
{
    let i = tail_start(s.len() as int, k);
    if 0 <= i < s.len() {
        assert(s[i] < 128);
    }
}

proof fn lemma_contains_len<T>(hay: Seq<T>, needle: Seq<T>)
    requires
        seq_contains(hay, needle),
    ensures
        hay.len() >= needle.len(),
{
    let i = choose|i: int| occurs_at(hay, needle, i);
}

/// Bytes without an `o` in front of a text do not make `oht` appear.
proof fn lemma_oht_behind(a: Seq<u8>, l: Seq<u8>)
    requires
        forall|i: int| 0 <= i < a.len() ==> a[i] != 111,
    ensures
        seq_contains(a + l, kw_oht()) == seq_contains(l, kw_oht()),
{
    let w = a + l;
    let n = kw_oht();
    if seq_contains(w, n) {
        let i = choose|i: int| occurs_at(w, n, i);
        assert(w.subrange(i, i + 3)[0] == n[0]);
        assert(w[i] == 111);
        assert(i >= a.len());
        assert(l.subrange(i - a.len(), i - a.len() + 3) =~= w.subrange(i, i + 3));
        assert(occurs_at(l, n, i - a.len()));
    }
    if seq_contains(l, n) {
        let j = choose|j: int| occurs_at(l, n, j);
        assert(w.subrange(j + a.len(), j + a.len() + 3) =~= l.subrange(j, j + 3));
        assert(occurs_at(w, n, j + a.len()));
    }
}

/// The last bytes of the longer text are those of the text itself, but
/// for bytes of `blocked ` that hold no `o`.
proof fn lemma_tail_behind(l: Seq<u8>, k: int)
    requires
        l.len() >= 1,
        1 <= k <= 4,
    ensures
        l.len() >= k ==> tail(blocked_prefix() + l, k) == tail(l, k),
        l.len() < k ==> tail(blocked_prefix() + l, k) == blocked_prefix().subrange(8 + l.len() - k, 8) + l,
        l.len() < k ==> tail(l, k) == l,
        l.len() < k ==> forall|i: int|
            0 <= i < 8 - (8 + l.len() - k) ==> #[trigger] blocked_prefix().subrange(8 + l.len() - k, 8)[i]
                != 111,
{
    let x = blocked_prefix();
    if l.len() >= k {
        assert(tail(x + l, k) =~= tail(l, k));
    } else {
        assert(tail(x + l, k) =~= x.subrange(8 + l.len() - k, 8) + l);
        assert(tail(l, k) =~= l);
        assert forall|i: int| 0 <= i < 8 - (8 + l.len() - k) implies #[trigger] x.subrange(
            8 + l.len() - k,
            8,
        )[i] != 111 by {
            assert(x.subrange(8 + l.len() - k, 8)[i] == x[8 + l.len() - k + i]);
        }
    }
}

#[verifier::spinoff_prover]
#[verifier::rlimit(60)]
proof fn lemma_behind_step(cp: ScanConfig, c: ScanConfig, b: u8)
    requires
        behind_prefix(cp, c),
        b < 128,
    ensures
        behind_prefix(scan_step(cp, b), scan_step(c, b)),
{
    if !c.halted && !c.fault {
        let x = blocked_prefix();
        let l1 = c.lower + lowered_utf8(b);
        assert(lowered_utf8(b) == seq![lower_byte(b)]);
        assert(all_ascii(l1)) by {
            assert forall|i: int| 0 <= i < l1.len() implies l1[i] < 128 by {
                if i >= c.lower.len() {
                    assert(l1[i] == lower_byte(b));
                }
            }
        }
        assert(x + l1 =~= (x + c.lower) + lowered_utf8(b));
        assert(all_ascii(x + l1)) by {
            assert forall|i: int| 0 <= i < (x + l1).len() implies (x + l1)[i] < 128 by {
                if i >= 8 {
                    assert((x + l1)[i] == l1[i - 8]);
                }
            }
        }
        lemma_ascii_boundary(l1, 4);
        lemma_ascii_boundary(l1, 2);
        lemma_ascii_boundary(x + l1, 4);
        lemma_ascii_boundary(x + l1, 2);
        lemma_tail_behind(l1, 4);
        lemma_tail_behind(l1, 2);
        if l1.len() < 4 {
            lemma_oht_behind(x.subrange(8 + l1.len() - 4, 8), l1);
        }
        if seq_contains(tail(l1, 4), kw_oht()) {
            lemma_contains_len(tail(l1, 4), kw_oht());
        }
    }
}

proof fn lemma_behind_run(cp: ScanConfig, c: ScanConfig, s: Seq<u8>)
    requires
        behind_prefix(cp, c),
        all_ascii(s),
    ensures
        behind_prefix(scan_run(cp, s), scan_run(c, s)),
    decreases s.len(),
{
    if s.len() > 0 {
        assert(all_ascii(s.drop_last())) by {
            assert forall|i: int| 0 <= i < s.drop_last().len() implies s.drop_last()[i] < 128 by {
                assert(s.drop_last()[i] == s[i]);
            }
        }
        lemma_behind_run(cp, c, s.drop_last());
        assert(s.last() == s[s.len() - 1]);
        lemma_behind_step(scan_run(cp, s.drop_last()), scan_run(c, s.drop_last()), s.last());
    }
}

proof fn lemma_run_append(c: ScanConfig, s: Seq<u8>, t: Seq<u8>)
    ensures
        scan_run(c, s + t) == scan_run(scan_run(c, s), t),
    decreases t.len(),
{
    if t.len() == 0 {
        assert(s + t =~= s);
    } else {
        lemma_run_append(c, s, t.drop_last());
        assert((s + t).drop_last() =~= s + t.drop_last());
        assert((s + t).last() == t.last());
    }
}

proof fn lemma_prefix_run(d: ScanDates, k: int)
    requires
        0 <= k <= 8,
    ensures
        scan_run(start_config(d), blocked_prefix().take(k)) == (ScanConfig {
            lower: blocked_prefix().take(k),
            ..start_config(d)
        }),
    decreases k,
{
    let x = blocked_prefix();
    let start = start_config(d);
    if k == 0 {
        assert(x.take(0) =~= seq![]);
    } else {
        lemma_prefix_run(d, k - 1);
        let c = ScanConfig { lower: x.take(k - 1), ..start };
        let b = x[k - 1];
        assert(x.take(k).drop_last() =~= x.take(k - 1));
        assert(x.take(k).last() == b);
        assert(lowered_utf8(b) =~= seq![b]);
        let l1 = c.lower + lowered_utf8(b);
        assert(l1 =~= x.take(k));
        assert(all_ascii(l1));
        lemma_ascii_boundary(l1, 4);
        if seq_contains(tail(l1, 4), kw_oht()) {
            let i = choose|i: int| occurs_at(tail(l1, 4), kw_oht(), i);
            assert(tail(l1, 4).subrange(i, i + 3)[2] == 116u8);
            assert(tail(l1, 4)[i + 2] == x[tail_start(l1.len() as int, 4) + i + 2]);
        }
    }
}

/// Putting `blocked ` in front of an ASCII line changes nothing of its scan
/// but the kind of movement it reports, which becomes blocked.
pub proof fn lemma_blocked_prefix(d: ScanDates, line: Seq<u8>)
    requires
        all_ascii(line),
    ensures
        scan_of(d, blocked_prefix() + line).fault == scan_of(d, line).fault,
        dates_of(scan_of(d, blocked_prefix() + line).tok) == dates_of(scan_of(d, line).tok),
        scan_event(scan_of(d, line)) is Some ==> scan_event(scan_of(d, blocked_prefix() + line)) == Some(
            EventView { event_type: MoveEventType::Blocked, ..scan_event(scan_of(d, line))->Some_0 },
        ),
{
    let x = blocked_prefix();
    let start = start_config(d);
    lemma_prefix_run(d, 8);
    assert(x.take(8) =~= x);
    lemma_run_append(start, x, line);
    let cp = ScanConfig { lower: x, ..start };
    assert(cp.lower =~= x + start.lower);
    lemma_behind_run(cp, start, line);
    let c = scan_of(d, line);
    let lw = x + c.lower;
    assert(occurs_at(lw, kw_blocked(), 0)) by {
        assert(lw.subrange(0, 7) =~= kw_blocked());
    }
}

/// The bytes with ASCII upper case folded to lower case.
pub open spec fn lowered_word(s: Seq<u8>) -> Seq<u8> {
    s.map_values(|b: u8| lower_byte(b))
}

pub open spec fn ends_with(a: Seq<u8>, w: Seq<u8>) -> bool {
    w.len() <= a.len() && a.subrange(a.len() - w.len(), a.len() as int) == w
}

/// The verb and the status word the scan collected stand, lower-cased, in
/// the text it read; while one of them is being collected the text ends
/// with it.
pub open spec fn words_in_text(c: ScanConfig) -> bool {
    &&& seq_contains(c.lower, lowered_word(c.tok.verb))
    &&& seq_contains(c.lower, lowered_word(c.tok.status))
    &&& (c.state == ScanState::RecognizeVerb && !c.halted) ==> ends_with(c.lower, lowered_word(c.tok.verb))
    &&& (c.state == ScanState::LookForStatus && !c.halted) ==> ends_with(c.lower, lowered_word(c.tok.status))
    &&& c.state != ScanState::LookForStatus ==> c.tok.status.len() == 0
}

proof fn lemma_contains_grow(a: Seq<u8>, x: Seq<u8>, w: Seq<u8>)
    requires
        seq_contains(a, w),
    ensures
        seq_contains(a + x, w),
{
    let i = choose|i: int| occurs_at(a, w, i);
    assert((a + x).subrange(i, i + w.len()) =~= a.subrange(i, i + w.len()));
    assert(occurs_at(a + x, w, i));
}

proof fn lemma_ends_contains(a: Seq<u8>, w: Seq<u8>)
    requires
        ends_with(a, w),
    ensures
        seq_contains(a, w),
{
    assert(occurs_at(a, w, a.len() - w.len()));
}

proof fn lemma_ends_push(a: Seq<u8>, w: Seq<u8>, b: u8)
    requires
        ends_with(a, lowered_word(w)),
    ensures
        ends_with(a.push(lower_byte(b)), lowered_word(w.push(b))),
{
    let lw = lowered_word(w.push(b));
    assert(lw =~= lowered_word(w).push(lower_byte(b)));
    assert(a.push(lower_byte(b)).subrange(a.len() + 1 - lw.len(), (a.len() + 1) as int) =~= a.subrange(
        a.len() - lowered_word(w).len(),
        a.len() as int,
    ).push(lower_byte(b)));
}

#[verifier::spinoff_prover]
#[verifier::rlimit(60)]
proof fn lemma_words_step(c: ScanConfig, b: u8)
    requires
        words_in_text(c),
    ensures
        words_in_text(scan_step(c, b)),
{
    if !c.halted && !c.fault {
        let x = lowered_utf8(b);
        let l1 = c.lower + x;
        let n = scan_step(c, b);
        lemma_contains_grow(c.lower, x, lowered_word(c.tok.verb));
        lemma_contains_grow(c.lower, x, lowered_word(c.tok.status));
        if is_word(b) {
            assert(x =~= seq![lower_byte(b)]);
            assert(l1 =~= c.lower.push(lower_byte(b)));
            if c.state == ScanState::RecognizeVerb {
                lemma_ends_push(c.lower, c.tok.verb, b);
                lemma_ends_contains(l1, lowered_word(c.tok.verb.push(b)));
            }
            if c.state == ScanState::LookForStatus {
                lemma_ends_push(c.lower, c.tok.status, b);
                lemma_ends_contains(l1, lowered_word(c.tok.status.push(b)));
            }
            if c.state == ScanState::PostOhtId {
                assert(lowered_word(seq![b]) =~= seq![lower_byte(b)]);
                assert(l1.subrange(l1.len() - 1, l1.len() as int) =~= seq![lower_byte(b)]);
                lemma_ends_contains(l1, lowered_word(seq![b]));
            }
        }
        if c.tok.status.len() == 0 {
            assert(lowered_word(c.tok.status) =~= seq![]);
            assert(l1.subrange(l1.len() as int, l1.len() as int) =~= seq![]);
        }
    }
}

proof fn lemma_words_run(c: ScanConfig, s: Seq<u8>)
    requires
        words_in_text(c),
    ensures
        words_in_text(scan_run(c, s)),
    decreases s.len(),
{
    if s.len() > 0 {
        lemma_words_run(c, s.drop_last());
        lemma_words_step(scan_run(c, s.drop_last()), s.last());
    }
}

proof fn lemma_word_match(w: Seq<u8>, kw: Seq<u8>, l: Seq<u8>)
    requires
        forall|i: int| 0 <= i < kw.len() ==> lower_byte(#[trigger] kw[i]) == kw[i],
        seq_contains(l, lowered_word(w)),
        eq_ignore_case(w, kw),
    ensures
        seq_contains(l, kw),
{
    assert(lowered_word(w) =~= kw);
}

/// The kind of movement a scanned line reports follows from the words of
/// the lower-cased text the scan read: `blocked` or `waiting` makes it
/// blocked; without `blocked` and `wait`, `depart` makes it a departure;
/// without those, `arrive` an arrival; without those, `estop` or
/// `emergency` an emergency stop; and with none of them it is a pass.
pub proof fn lemma_scan_kind_by_words(d: ScanDates, line: Seq<u8>)
    ensures
        scan_event(scan_of(d, line)) matches Some(e) ==> {
            let l = scan_of(d, line).lower;
            let blocked = seq_contains(l, seq![98u8, 108u8, 111u8, 99u8, 107u8, 101u8, 100u8]);
            let waiting = seq_contains(l, seq![119u8, 97u8, 105u8, 116u8, 105u8, 110u8, 103u8]);
            let wait = seq_contains(l, seq![119u8, 97u8, 105u8, 116u8]);
            let depart = seq_contains(l, seq![100u8, 101u8, 112u8, 97u8, 114u8, 116u8]);
            let arrive = seq_contains(l, seq![97u8, 114u8, 114u8, 105u8, 118u8, 101u8]);
            let stop = seq_contains(l, seq![101u8, 115u8, 116u8, 111u8, 112u8]) || seq_contains(
                l,
                seq![101u8, 109u8, 101u8, 114u8, 103u8, 101u8, 110u8, 99u8, 121u8],
            );
            &&& (blocked || waiting) ==> e.event_type == MoveEventType::Blocked
            &&& !blocked && !wait && depart ==> e.event_type == MoveEventType::Depart
            &&& !blocked && !wait && !depart && arrive ==> e.event_type == MoveEventType::Arrive
            &&& !blocked && !wait && !depart && !arrive && stop ==> e.event_type
                == MoveEventType::EmergencyStop
            &&& !blocked && !wait && !depart && !arrive && !stop ==> e.event_type
                == MoveEventType::PassThrough
        },
{
    let start = start_config(d);
    assert(words_in_text(start)) by {
        assert(lowered_word(start.tok.verb) =~= seq![]);
        assert(lowered_word(start.tok.status) =~= seq![]);
        assert(start.lower.subrange(0, 0) =~= seq![]);
        assert(occurs_at(start.lower, lowered_word(start.tok.verb), 0));
        assert(occurs_at(start.lower, lowered_word(start.tok.status), 0));
    }
    lemma_words_run(start, line);
    let c = scan_of(d, line);
    let t = c.tok;
    let l = c.lower;
    assert(kw_blocked() =~= seq![98u8, 108u8, 111u8, 99u8, 107u8, 101u8, 100u8]);
    assert(kw_waiting() =~= seq![119u8, 97u8, 105u8, 116u8, 105u8, 110u8, 103u8]);
    assert(kw_wait() =~= seq![119u8, 97u8, 105u8, 116u8]);
    assert(kw_depart() =~= seq![100u8, 101u8, 112u8, 97u8, 114u8, 116u8]);
    assert(kw_arrive() =~= seq![97u8, 114u8, 114u8, 105u8, 118u8, 101u8]);
    assert(kw_estop() =~= seq![101u8, 115u8, 116u8, 111u8, 112u8]);
    assert(kw_emergency() =~= seq![101u8, 109u8, 101u8, 114u8, 103u8, 101u8, 110u8, 99u8, 121u8]);
    if eq_ignore_case(t.status, kw_blocked()) {
        lemma_word_match(t.status, kw_blocked(), l);
    }
    if eq_ignore_case(t.status, kw_waiting()) {
        lemma_word_match(t.status, kw_waiting(), l);
    }
    if eq_ignore_case(t.status, kw_wait()) {
        lemma_word_match(t.status, kw_wait(), l);
    }
    if eq_ignore_case(t.verb, kw_blocked()) {
        lemma_word_match(t.verb, kw_blocked(), l);
    }
    if eq_ignore_case(t.verb, kw_depart()) {
        lemma_word_match(t.verb, kw_depart(), l);
    }
    if eq_ignore_case(t.verb, kw_arrive()) {
        lemma_word_match(t.verb, kw_arrive(), l);
    }
    if eq_ignore_case(t.status, kw_estop()) {
        lemma_word_match(t.status, kw_estop(), l);
    }
    if eq_ignore_case(t.status, kw_emergency()) {
        lemma_word_match(t.status, kw_emergency(), l);
    }
    if seq_contains(l, kw_waiting()) {
        let i = choose|i: int| occurs_at(l, kw_waiting(), i);
        assert(l.subrange(i, i + 7) == kw_waiting());
        assert(l.subrange(i, i + 4) =~= kw_waiting().subrange(0, 4));
        assert(kw_waiting().subrange(0, 4) =~= kw_wait());
        assert(occurs_at(l, kw_wait(), i));
    }
}

// ---------------------------------------------------------------------------
// Message headers
// ---------------------------------------------------------------------------

/// The end of the run of decimal digits that starts at `k`.
pub open spec fn digit_run_end(s: Seq<u8>, k: int) -> int
    decreases s.len() - k,
{
    if 0 <= k < s.len() && is_digit(s[k]) {
        digit_run_end(s, k + 1)
    } else {
        k
    }
}

/// At position `i` stands `S` or `s`, digits, `F` or `f` and a digit.
pub open spec fn header_at(s: Seq<u8>, i: int) -> bool {
    &&& s[i] == 83 || s[i] == 115
    &&& is_digit(s[i + 1])
    &&& {
        let j = digit_run_end(s, i + 1);
        &&& j < s.len()
        &&& s[j] == 70 || s[j] == 102
        &&& j + 1 < s.len()
        &&& is_digit(s[j + 1])
    }
}

/// Some position before the last three bytes starts a message header.
pub open spec fn secs_header_in(s: Seq<u8>) -> bool {
    exists|i: int| 0 <= i < s.len() - 3 && header_at(s, i)
}

proof fn lemma_run_end_after(s: Seq<u8>, k: int)
    ensures
        digit_run_end(s, k) >= k,
    decreases s.len() - k,
{
    if 0 <= k < s.len() && is_digit(s[k]) {
        lemma_run_end_after(s, k + 1);
    }
}

proof fn lemma_run_end_shift(pre: Seq<u8>, s: Seq<u8>, post: Seq<u8>, k: int)
    requires
        0 <= k <= s.len(),
        digit_run_end(s, k) < s.len(),
    ensures
        digit_run_end(pre + s + post, k + pre.len()) == digit_run_end(s, k) + pre.len(),
    decreases s.len() - k,
{
    let t = pre + s + post;
    if k < s.len() {
        assert(t[k + pre.len()] == s[k]);
        if is_digit(s[k]) {
            lemma_run_end_shift(pre, s, post, k + 1);
        }
    }
}

/// A message header stays found when text is added before or after it.
pub proof fn lemma_header_kept_in_longer_text(pre: Seq<u8>, s: Seq<u8>, post: Seq<u8>)
    requires
        secs_header_in(s),
    ensures
        secs_header_in(pre + s + post),
{
    let i = choose|i: int| 0 <= i < s.len() - 3 && header_at(s, i);
    let t = pre + s + post;
    let k = i + pre.len();
    lemma_run_end_shift(pre, s, post, i + 1);
    let j = digit_run_end(s, i + 1);
    lemma_run_end_after(s, i + 1);
    assert(t[k] == s[i]);
    assert(t[k + 1] == s[i + 1]);
    assert(t[j + pre.len()] == s[j]);
    assert(t[j + pre.len() + 1] == s[j + 1]);
    assert(header_at(t, k));
}

/// Whether the line carries a message header such as `S6F11`, starting
/// before its last three bytes.
pub fn has_secs_header(line: &str) -> (r: bool)
    ensures
        r == secs_header_in(utf8_of(line)),
{
    let bytes = line.as_bytes();
    let n = bytes.len();
    let limit = if n >= 3 {
        n - 3
    } else {
        0
    };
    let mut i: usize = 0;
    while i < limit
        invariant
            n == bytes@.len(),
            limit == (if n >= 3 { n - 3 } else { 0 }),
            i <= limit,
            bytes@ == utf8_of(line),
            forall|k: int| 0 <= k < i ==> !header_at(bytes@, k),
        decreases limit - i,
    {
        if (bytes[i] == 83 || bytes[i] == 115) && digit_byte(bytes[i + 1]) {
            let mut j = i + 1;
            while j < n && digit_byte(bytes[j])
                invariant
                    n == bytes@.len(),
                    i + 1 <= j <= n,
                    digit_run_end(bytes@, i + 1) == digit_run_end(bytes@, j as int),
                decreases n - j,
            {
                j = j + 1;
            }
            if j < n && (bytes[j] == 70 || bytes[j] == 102) && j + 1 < n && digit_byte(bytes[j + 1]) {
                assert(header_at(bytes@, i as int));
                return true;
            }
            assert(!header_at(bytes@, i as int));
        }
        i = i + 1;
    }
    false
}

// ---------------------------------------------------------------------------
// Free-standing timestamps
// ---------------------------------------------------------------------------

/// The reader's configuration between two bytes of a timestamp text.
pub struct TsConfig {
    pub reading_date: bool,
    pub idx: usize,
    pub part: u8,
    pub tok: Tokens,
    pub halted: bool,
}

pub open spec fn ts_start() -> TsConfig {
    TsConfig { reading_date: false, idx: 0, part: 0, tok: start_tokens(zero_dates()), halted: false }
}

pub open spec fn ts_stop(c: TsConfig) -> TsConfig {
    TsConfig { halted: true, ..c }
}

pub open spec fn ts_next_part(c: TsConfig, p: u8) -> TsConfig {
    TsConfig { part: p, idx: 0, ..c }
}

/// What the timestamp reader does with one byte.
pub open spec fn ts_step(c: TsConfig, b: u8) -> TsConfig {
    let t = c.tok;
    let i = c.idx as int;
    let more = (c.idx + 1) as usize;
    let sep = b == 45 || b == 47 || b == 84 || b == 116;
    if c.halted {
        c
    } else if !c.reading_date {
        if is_digit(b) && c.idx < 4 {
            let t2 = Tokens { year: t.year.update(i, b), ..t };
            if c.idx + 1 == 4 {
                TsConfig { reading_date: true, idx: 0, part: 1, tok: t2, ..c }
            } else {
                TsConfig { idx: more, tok: t2, ..c }
            }
        } else {
            c
        }
    } else if c.part == 1 {
        if sep {
            ts_next_part(c, 2)
        } else if is_digit(b) && c.idx < 2 {
            TsConfig { idx: more, tok: Tokens { month: t.month.update(i, b), ..t }, ..c }
        } else {
            c
        }
    } else if c.part == 2 {
        if sep {
            ts_next_part(c, 3)
        } else if is_digit(b) && c.idx < 2 {
            TsConfig { idx: more, tok: Tokens { day: t.day.update(i, b), ..t }, ..c }
        } else {
            c
        }
    } else if c.part == 3 {
        if is_space(b) || b == 84 || b == 116 {
            ts_next_part(c, 4)
        } else if is_digit(b) && c.idx < 2 {
            TsConfig { idx: more, tok: Tokens { hour: t.hour.update(i, b), ..t }, ..c }
        } else {
            c
        }
    } else if c.part == 4 {
        if b == 58 {
            ts_next_part(c, 5)
        } else if is_digit(b) && c.idx < 2 {
            TsConfig { idx: more, tok: Tokens { hour: t.hour.update(i, b), ..t }, ..c }
        } else {
            c
        }
    } else if c.part == 5 {
        if b == 58 {
            ts_next_part(c, 6)
        } else if is_digit(b) && c.idx < 2 {
            TsConfig { idx: more, tok: Tokens { minute: t.minute.update(i, b), ..t }, ..c }
        } else {
            c
        }
    } else if c.part == 6 {
        if b == 46 {
            TsConfig { part: 7, idx: 0, tok: Tokens { ts_has_millis: true, ..t }, ..c }
        } else if is_digit(b) && c.idx < 2 {
            TsConfig { idx: more, tok: Tokens { second: t.second.update(i, b), ..t }, ..c }
        } else {
            ts_stop(c)
        }
    } else if c.part == 7 {
        if is_digit(b) && c.idx < 3 {
            TsConfig { idx: more, tok: Tokens { millis: t.millis.update(i, b), ..t }, ..c }
        } else {
            ts_stop(c)
        }
    } else {
        ts_stop(c)
    }
}

pub open spec fn ts_run(c: TsConfig, s: Seq<u8>) -> TsConfig
    decreases s.len(),
{
    if s.len() == 0 {
        c
    } else {
        ts_step(ts_run(c, s.drop_last()), s.last())
    }
}

proof fn lemma_ts_run_stops(c: TsConfig, s: Seq<u8>, i: int)
    requires
        0 <= i <= s.len(),
        ts_run(c, s.take(i)).halted,
    ensures
        ts_run(c, s) == ts_run(c, s.take(i)),
    decreases s.len(),
{
    if i == s.len() {
        assert(s.take(i) =~= s);
    } else {
        assert(s.drop_last().take(i) =~= s.take(i));
        lemma_ts_run_stops(c, s.drop_last(), i);
    }
}

/// The instant a `YYYY-MM-DD HH:MM:SS.fff`-like text names, read digit by
/// digit, or 0 where the digits name no date.
pub fn parse_timestamp_from_str(ts: &str) -> (r: i64)
    ensures
        r == tokens_timestamp(ts_run(ts_start(), utf8_of(ts)).tok),
{
    let bytes = ts.as_bytes();
    let mut buf = TokenBuffer::new();
    let mut reading_date = false;
    let mut idx: usize = 0;
    let mut part: u8 = 0;
    let mut halted = false;
    assert(bytes@.take(0) =~= seq![]);
    assert(bytes@.take(bytes@.len() as int) =~= bytes@);
    let mut i: usize = 0;
    while i < bytes.len()
        invariant_except_break
            i <= bytes@.len(),
            !halted,
            (TsConfig { reading_date, idx, part, tok: buf@, halted }) == ts_run(
                ts_start(),
                bytes@.take(i as int),
            ),
        invariant
            bytes@.take(bytes@.len() as int) == bytes@,
        ensures
            (TsConfig { reading_date, idx, part, tok: buf@, halted }) == ts_run(ts_start(), bytes@),
        decreases bytes@.len() - i,
    {
        let b = bytes[i];
        proof {
            assert(bytes@.take(i + 1).drop_last() =~= bytes@.take(i as int));
            assert(bytes@.take(i + 1).last() == b);
        }
        let sep = b == 45 || b == 47 || b == 84 || b == 116;
        if !reading_date {
            if digit_byte(b) && idx < 4 {
                buf.year[idx] = b;
                idx = idx + 1;
                if idx == 4 {
                    reading_date = true;
                    idx = 0;
                    part = 1;
                }
            }
        } else if part == 1 {
            if sep {
                part = 2;
                idx = 0;
            } else if digit_byte(b) && idx < 2 {
                buf.month[idx] = b;
                idx = idx + 1;
            }
        } else if part == 2 {
            if sep {
                part = 3;
                idx = 0;
            } else if digit_byte(b) && idx < 2 {
                buf.day[idx] = b;
                idx = idx + 1;
            }
        } else if part == 3 {
            if is_whitespace(b) || b == 84 || b == 116 {
                part = 4;
                idx = 0;
            } else if digit_byte(b) && idx < 2 {
                buf.hour[idx] = b;
                idx = idx + 1;
            }
        } else if part == 4 {
            if b == 58 {
                part = 5;
                idx = 0;
            } else if digit_byte(b) && idx < 2 {
                buf.hour[idx] = b;
                idx = idx + 1;
            }
        } else if part == 5 {
            if b == 58 {
                part = 6;
                idx = 0;
            } else if digit_byte(b) && idx < 2 {
                buf.minute[idx] = b;
                idx = idx + 1;
            }
        } else if part == 6 {
            if b == 46 {
                part = 7;
                idx = 0;
                buf.ts_has_millis = true;
            } else if digit_byte(b) && idx < 2 {
                buf.second[idx] = b;
                idx = idx + 1;
            } else {
                halted = true;
            }
        } else if part == 7 {
            if digit_byte(b) && idx < 3 {
                buf.millis[idx] = b;
                idx = idx + 1;
            } else {
                halted = true;
            }
        } else {
            halted = true;
        }
        if halted {
            proof {
                lemma_ts_run_stops(ts_start(), bytes@, i + 1);
            }
            break ;
        }
        i = i + 1;
    }
    buf.build_timestamp()
}

} // verus!

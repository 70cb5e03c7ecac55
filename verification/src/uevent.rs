//! Kernel uevents and their parsing from `NETLINK_KOBJECT_UEVENT` packets.
//!
//! A packet is UTF-8 text of fields separated by NUL characters. The first
//! field is a header such as `add@/devices/...`; the others have the form
//! `KEY=value`. Every `KEY=value` field goes into the environment, a later one
//! for a key replacing an earlier one; the fields `ACTION`, `DEVPATH`,
//! `SUBSYSTEM` and `SEQNUM` also give the event its action, device path,
//! subsystem and sequence number, and each of them must be present.
use vstd::prelude::*;
use vstd::utf8::*;

use crate::action::{action_in_span, action_named, ActionType};
use crate::env::{env_insert, env_map, env_within, keys_unique, pairs_within};
use crate::error::{Refusal, UEventError};
use crate::number::{parse_u64, parse_u64_span};
use crate::path::{same_path, same_path_text};
use crate::validity::{lemma_utf8_scan, utf8_check, utf8_scan};
use crate::text::{chars_to_string, decode_chars, find_char, lemma_first_index, span_is, split_on, split_once};

verus! {

/// Linux kernel userspace event.
#[derive(Debug, Clone)]
pub struct UEvent {
    /// Action happening
    pub action: ActionType,
    /// Complete kernel object path
    pub devpath: String,
    /// Subsystem originating the event
    pub subsystem: String,
    /// Arguments: each key once, with its value
    pub env: Vec<(String, String)>,
    /// Sequence number
    pub seq: u64,
}

/// What a uevent states.
pub struct UEventView {
    pub action: ActionType,
    pub devpath: Seq<char>,
    pub subsystem: Seq<char>,
    pub env: Map<Seq<char>, Seq<char>>,
    pub seq: u64,
}

impl View for UEvent {
    type V = UEventView;

    open spec fn view(&self) -> UEventView {
        UEventView {
            action: self.action,
            devpath: self.devpath@,
            subsystem: self.subsystem@,
            env: env_map(self.env@),
            seq: self.seq,
        }
    }
}

impl UEvent {
    /// The environment holds no key twice.
    pub open spec fn wf(&self) -> bool {
        keys_unique(self.env@)
    }
}

impl PartialEq for UEvent {
    /// Two events are equal when their device paths name the same path (by
    /// components, as `std::path::Path` compares), their other parts are
    /// equal, and their environments hold the same pairs, in whatever order.
    fn eq(&self, other: &Self) -> (r: bool) {
        self.action == other.action && same_path_text(&self.devpath, &other.devpath) && self.subsystem
            == other.subsystem && self.seq == other.seq && env_within(&self.env, &other.env)
            && env_within(&other.env, &self.env)
    }
}

impl vstd::std_specs::cmp::PartialEqSpecImpl for UEvent {
    open spec fn obeys_eq_spec() -> bool {
        true
    }

    open spec fn eq_spec(&self, other: &Self) -> bool {
        &&& self.action == other.action
        &&& same_path(self.devpath@, other.devpath@)
        &&& self.subsystem@ == other.subsystem@
        &&& self.seq == other.seq
        &&& pairs_within(self.env@, other.env@)
        &&& pairs_within(other.env@, self.env@)
    }
}

impl Eq for UEvent {

}

/// The key `ACTION`.
pub open spec fn key_action() -> Seq<char> {
    seq!['A', 'C', 'T', 'I', 'O', 'N']
}

/// The key `DEVPATH`.
pub open spec fn key_devpath() -> Seq<char> {
    seq!['D', 'E', 'V', 'P', 'A', 'T', 'H']
}

/// The key `SUBSYSTEM`.
pub open spec fn key_subsystem() -> Seq<char> {
    seq!['S', 'U', 'B', 'S', 'Y', 'S', 'T', 'E', 'M']
}

/// The key `SEQNUM`.
pub open spec fn key_seqnum() -> Seq<char> {
    seq!['S', 'E', 'Q', 'N', 'U', 'M']
}

/// What the fields read so far have given.
pub struct Scanned {
    pub action: Option<ActionType>,
    pub devpath: Option<Seq<char>>,
    pub subsystem: Option<Seq<char>>,
    pub seq: Option<u64>,
    pub env: Map<Seq<char>, Seq<char>>,
}

/// Nothing read yet.
pub open spec fn scan_start() -> Scanned {
    Scanned { action: None, devpath: None, subsystem: None, seq: None, env: Map::empty() }
}

/// Reads one field: a field without `=` is passed over; a `KEY=value` field
/// goes into the environment and, for the four keys of the event, sets what it
/// names, where an `ACTION` that names no action and a `SEQNUM` that is no
/// `u64` are refused.
pub open spec fn scan_field(st: Scanned, field: Seq<char>) -> Result<Scanned, Refusal> {
    match split_once(field, '=') {
        None => Ok(st),
        Some((key, value)) => {
            let env = st.env.insert(key, value);
            if key == key_action() {
                match action_named(value) {
                    Some(a) => Ok(Scanned { action: Some(a), env, ..st }),
                    None => Err(Refusal::UnexpectedAction(value)),
                }
            } else if key == key_devpath() {
                Ok(Scanned { devpath: Some(value), env, ..st })
            } else if key == key_subsystem() {
                Ok(Scanned { subsystem: Some(value), env, ..st })
            } else if key == key_seqnum() {
                match parse_u64(value) {
                    Ok(n) => Ok(Scanned { seq: Some(n), env, ..st }),
                    Err(k) => Err(Refusal::InvalidSeqnum(k)),
                }
            } else {
                Ok(Scanned { env, ..st })
            }
        },
    }
}

/// Reads the fields in order, stopping at the first one that is refused.
pub open spec fn scan_fields(st: Scanned, fields: Seq<Seq<char>>) -> Result<Scanned, Refusal>
    decreases fields.len(),
{
    if fields.len() == 0 {
        Ok(st)
    } else {
        match scan_field(st, fields[0]) {
            Ok(next) => scan_fields(next, fields.drop_first()),
            Err(e) => Err(e),
        }
    }
}

/// The event that the fields read have given, where each of its four parts was given.
pub open spec fn scanned_event(st: Scanned) -> Result<UEventView, Refusal> {
    if st.action is None {
        Err(Refusal::MissingAction)
    } else if st.devpath is None {
        Err(Refusal::MissingDevpath)
    } else if st.subsystem is None {
        Err(Refusal::MissingSubsystem)
    } else if st.seq is None {
        Err(Refusal::MissingSeqnum)
    } else {
        Ok(
            UEventView {
                action: st.action->0,
                devpath: st.devpath->0,
                subsystem: st.subsystem->0,
                env: st.env,
                seq: st.seq->0,
            },
        )
    }
}

/// The event that the text of a packet describes.
pub open spec fn uevent_of_text(text: Seq<char>) -> Result<UEventView, Refusal> {
    match scan_fields(scan_start(), split_on(text, '\0')) {
        Ok(st) => scanned_event(st),
        Err(e) => Err(e),
    }
}

/// The event that a netlink packet describes.
pub open spec fn uevent_of_packet(pkt: Seq<u8>) -> Result<UEventView, Refusal> {
    if valid_utf8(pkt) {
        uevent_of_text(decode_utf8(pkt))
    } else {
        Err(
            Refusal::InvalidUtf8 {
                valid_up_to: utf8_scan(pkt).0,
                error_len: utf8_scan(pkt).1->0,
            },
        )
    }
}

/// The parts of an event read so far.
struct ScanState {
    action: Option<ActionType>,
    devpath: Option<String>,
    subsystem: Option<String>,
    seq: Option<u64>,
    env: Vec<(String, String)>,
}

impl ScanState {
    spec fn scanned(&self) -> Scanned {
        Scanned {
            action: self.action,
            devpath: match self.devpath {
                Some(s) => Some(s@),
                None => None,
            },
            subsystem: match self.subsystem {
                Some(s) => Some(s@),
                None => None,
            },
            seq: self.seq,
            env: env_map(self.env@),
        }
    }
}

/// The `String` of `cs[lo..hi]`.
fn span_string(cs: &[char], lo: usize, hi: usize) -> (r: String)
    requires
        lo <= hi <= cs@.len(),
    ensures
        r@ == cs@.subrange(lo as int, hi as int),
{
    chars_to_string(vstd::slice::slice_subrange(cs, lo, hi))
}

/// Reads the field `cs[lo..hi]` into `st`.
fn scan_one(st: &mut ScanState, cs: &[char], lo: usize, hi: usize) -> (r: Result<(), UEventError>)
    requires
        lo <= hi <= cs@.len(),
        keys_unique(old(st).env@),
    ensures
        keys_unique(final(st).env@),
        match scan_field(old(st).scanned(), cs@.subrange(lo as int, hi as int)) {
            Ok(next) => r is Ok && final(st).scanned() == next,
            Err(e) => r matches Err(f) && f@ == e,
        },
{
    let ghost field = cs@.subrange(lo as int, hi as int);
    let eq = find_char(cs, lo, hi, '=');
    proof {
        lemma_first_index(field, '=', eq - lo);
    }
    if eq == hi {
        return Ok(());
    }
    let ghost key = cs@.subrange(lo as int, eq as int);
    let ghost value = cs@.subrange(eq + 1, hi as int);
    assert(field.take(eq - lo) =~= key);
    assert(field.skip(eq - lo + 1) =~= value);
    let w_action = ['A', 'C', 'T', 'I', 'O', 'N'];
    let w_devpath = ['D', 'E', 'V', 'P', 'A', 'T', 'H'];
    let w_subsystem = ['S', 'U', 'B', 'S', 'Y', 'S', 'T', 'E', 'M'];
    let w_seqnum = ['S', 'E', 'Q', 'N', 'U', 'M'];
    assert(w_action@ =~= key_action());
    assert(w_devpath@ =~= key_devpath());
    assert(w_subsystem@ =~= key_subsystem());
    assert(w_seqnum@ =~= key_seqnum());
    if span_is(cs, lo, eq, &w_action) {
        match action_in_span(cs, eq + 1, hi) {
            Some(a) => {
                st.action = Some(a);
            },
            None => {
                return Err(UEventError::UnexpectedAction(span_string(cs, eq + 1, hi)));
            },
        }
    } else if span_is(cs, lo, eq, &w_devpath) {
        st.devpath = Some(span_string(cs, eq + 1, hi));
    } else if span_is(cs, lo, eq, &w_subsystem) {
        st.subsystem = Some(span_string(cs, eq + 1, hi));
    } else if span_is(cs, lo, eq, &w_seqnum) {
        match parse_u64_span(cs, eq + 1, hi) {
            Ok(n) => {
                st.seq = Some(n);
            },
            Err(k) => {
                return Err(UEventError::InvalidSeqnum(k));
            },
        }
    }
    let k = span_string(cs, lo, eq);
    let v = span_string(cs, eq + 1, hi);
    env_insert(&mut st.env, k, v);
    Ok(())
}

impl UEvent {
    /// Parses a netlink packet as received from the `NETLINK_KOBJECT_UEVENT`
    /// broadcast.
    pub fn from_netlink_packet(pkt: &[u8]) -> (r: Result<UEvent, UEventError>)
        ensures
            match uevent_of_packet(pkt@) {
                Ok(ev) => r matches Ok(u) && u@ == ev && u.wf(),
                Err(e) => r matches Err(f) && f@ == e,
            },
    {
        let (valid_up_to, stop) = utf8_check(pkt);
        proof {
            lemma_utf8_scan(pkt@);
        }
        if let Some(error_len) = stop {
            return Err(UEventError::InvalidUtf8 { valid_up_to, error_len });
        }
        let cs = match decode_chars(pkt) {
            None => {
                return Err(UEventError::InvalidUtf8 { valid_up_to, error_len: None });
            },
            Some(cs) => cs,
        };
        let ghost text = cs@;
        let ghost all = split_on(text, '\0');
        let n = cs.len();
        let mut st = ScanState {
            action: None,
            devpath: None,
            subsystem: None,
            seq: None,
            env: Vec::new(),
        };
        assert(st.scanned().env =~= Map::empty());
        assert(text.skip(0) =~= text);
        let mut start: usize = 0;
        loop
            invariant_except_break
                start <= n,
                scan_fields(scan_start(), all) == scan_fields(
                    st.scanned(),
                    split_on(text.skip(start as int), '\0'),
                ),
            invariant
                n == cs@.len(),
                text == cs@,
                valid_utf8(pkt@),
                text == decode_utf8(pkt@),
                all == split_on(text, '\0'),
                keys_unique(st.env@),
            ensures
                scan_fields(scan_start(), all) == Ok::<Scanned, Refusal>(st.scanned()),
            decreases n - start,
        {
            let ghost rest = text.skip(start as int);
            let end = find_char(cs.as_slice(), start, n, '\0');
            proof {
                lemma_first_index(rest, '\0', end - start);
            }
            let ghost field = cs@.subrange(start as int, end as int);
            let ghost before = st.scanned();
            let ghost more = if end < n {
                split_on(text.skip(end + 1), '\0')
            } else {
                Seq::<Seq<char>>::empty()
            };
            proof {
                assert(rest.take(end - start) =~= field);
                if end < n {
                    assert(rest.skip(end - start + 1) =~= text.skip(end + 1));
                } else {
                    assert(rest =~= field);
                }
                assert(split_on(rest, '\0') =~= seq![field] + more);
                assert((seq![field] + more)[0] == field);
                assert((seq![field] + more).drop_first() =~= more);
            }
            let step = scan_one(&mut st, cs.as_slice(), start, end);
            match step {
                Err(e) => {
                    return Err(e);
                },
                Ok(()) => {},
            }
            if end == n {
                assert(scan_fields(st.scanned(), more) == Ok::<Scanned, Refusal>(st.scanned()));
                break;
            }
            start = end + 1;
        }
        let ghost fin = st.scanned();
        let action = match st.action {
            None => {
                return Err(UEventError::MissingAction);
            },
            Some(a) => a,
        };
        let devpath = match st.devpath {
            None => {
                return Err(UEventError::MissingDevpath);
            },
            Some(d) => d,
        };
        let subsystem = match st.subsystem {
            None => {
                return Err(UEventError::MissingSubsystem);
            },
            Some(s) => s,
        };
        let seq = match st.seq {
            None => {
                return Err(UEventError::MissingSeqnum);
            },
            Some(q) => q,
        };
        let ev = UEvent { action, devpath, subsystem, env: st.env, seq };
        assert(ev@ =~= scanned_event(fin)->Ok_0);
        Ok(ev)
    }
}

} // verus!

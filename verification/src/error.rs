//! The ways in which a packet is refused.
use vstd::prelude::*;

use crate::number::{decimal, push_decimal, IntErrorKind};
use crate::text::str_chars;

verus! {

/// Why a netlink packet is not a kernel uevent.
#[derive(Debug, Clone, PartialEq, Eq)]
pub enum UEventError {
    /// The packet is not UTF-8 text: its first `valid_up_to` bytes are, and
    /// after them stands an invalid sequence of `error_len` bytes, or, where
    /// `error_len` is `None`, a sequence that the packet ends in the middle of.
    InvalidUtf8 { valid_up_to: usize, error_len: Option<u8> },
    /// An `ACTION` field names no known kernel object action; this is its text.
    UnexpectedAction(String),
    /// A `SEQNUM` field is not a decimal `u64`.
    InvalidSeqnum(IntErrorKind),
    /// No `ACTION` field.
    MissingAction,
    /// No `DEVPATH` field.
    MissingDevpath,
    /// No `SUBSYSTEM` field.
    MissingSubsystem,
    /// No `SEQNUM` field.
    MissingSeqnum,
}

/// What a refusal states.
pub enum Refusal {
    InvalidUtf8 { valid_up_to: nat, error_len: Option<u8> },
    UnexpectedAction(Seq<char>),
    InvalidSeqnum(IntErrorKind),
    MissingAction,
    MissingDevpath,
    MissingSubsystem,
    MissingSeqnum,
}

impl View for UEventError {
    type V = Refusal;

    open spec fn view(&self) -> Refusal {
        match self {
            UEventError::InvalidUtf8 { valid_up_to, error_len } => Refusal::InvalidUtf8 {
                valid_up_to: *valid_up_to as nat,
                error_len: *error_len,
            },
            UEventError::UnexpectedAction(s) => Refusal::UnexpectedAction(s@),
            UEventError::InvalidSeqnum(k) => Refusal::InvalidSeqnum(*k),
            UEventError::MissingAction => Refusal::MissingAction,
            UEventError::MissingDevpath => Refusal::MissingDevpath,
            UEventError::MissingSubsystem => Refusal::MissingSubsystem,
            UEventError::MissingSeqnum => Refusal::MissingSeqnum,
        }
    }
}

/// The text that describes a refusal: for an unknown action, `Unexpected
/// action: ` and the action's text; for a sequence number, the words that
/// `u64::from_str`'s error gives for its kind; for a missing part, which part
/// was not found; for a packet that is not UTF-8, the words of
/// `std::str::Utf8Error`, with the length of the invalid sequence and where it
/// starts.
pub open spec fn refusal_message(r: Refusal) -> Seq<char> {
    match r {
        Refusal::InvalidUtf8 { valid_up_to, error_len: Some(n) } => "invalid utf-8 sequence of "@
            + decimal(n as nat) + " bytes from index "@ + decimal(valid_up_to),
        Refusal::InvalidUtf8 { valid_up_to, error_len: None } =>
            "incomplete utf-8 byte sequence from index "@ + decimal(valid_up_to),
        Refusal::UnexpectedAction(s) => "Unexpected action: "@ + s,
        Refusal::InvalidSeqnum(IntErrorKind::Empty) => "cannot parse integer from empty string"@,
        Refusal::InvalidSeqnum(IntErrorKind::InvalidDigit) => "invalid digit found in string"@,
        Refusal::InvalidSeqnum(IntErrorKind::PosOverflow) => "number too large to fit in target type"@,
        Refusal::MissingAction => "action not found"@,
        Refusal::MissingDevpath => "devpath not found"@,
        Refusal::MissingSubsystem => "subsystem not found"@,
        Refusal::MissingSeqnum => "seq missing"@,
    }
}

/// Appends the characters of `s` to `out`.
fn push_str(out: &mut Vec<char>, s: &str)
    ensures
        final(out)@ == old(out)@ + s@,
{
    let tail = str_chars(s);
    let mut i: usize = 0;
    while i < tail.len()
        invariant
            i <= tail@.len(),
            out@ == old(out)@ + tail@.subrange(0, i as int),
        decreases tail@.len() - i,
    {
        out.push(tail[i]);
        i = i + 1;
        assert(out@ =~= old(out)@ + tail@.subrange(0, i as int));
    }
    assert(tail@.subrange(0, tail@.len() as int) =~= tail@);
}

impl UEventError {
    /// The text that describes this refusal.
    pub fn message(&self) -> (m: String)
        ensures
            m@ == refusal_message(self@),
    {
        let mut out: Vec<char> = Vec::new();
        match self {
            UEventError::InvalidUtf8 { valid_up_to, error_len: Some(n) } => {
                push_str(&mut out, "invalid utf-8 sequence of ");
                push_decimal(&mut out, *n as usize);
                push_str(&mut out, " bytes from index ");
                push_decimal(&mut out, *valid_up_to);
            },
            UEventError::InvalidUtf8 { valid_up_to, error_len: None } => {
                push_str(&mut out, "incomplete utf-8 byte sequence from index ");
                push_decimal(&mut out, *valid_up_to);
            },
            UEventError::UnexpectedAction(s) => {
                push_str(&mut out, "Unexpected action: ");
                push_str(&mut out, s.as_str());
            },
            UEventError::InvalidSeqnum(IntErrorKind::Empty) => {
                push_str(&mut out, "cannot parse integer from empty string");
            },
            UEventError::InvalidSeqnum(IntErrorKind::InvalidDigit) => {
                push_str(&mut out, "invalid digit found in string");
            },
            UEventError::InvalidSeqnum(IntErrorKind::PosOverflow) => {
                push_str(&mut out, "number too large to fit in target type");
            },
            UEventError::MissingAction => {
                push_str(&mut out, "action not found");
            },
            UEventError::MissingDevpath => {
                push_str(&mut out, "devpath not found");
            },
            UEventError::MissingSubsystem => {
                push_str(&mut out, "subsystem not found");
            },
            UEventError::MissingSeqnum => {
                push_str(&mut out, "seq missing");
            },
        }
        proof {
            assert(out@ =~= refusal_message(self@));
        }
        crate::text::chars_to_string(out.as_slice())
    }
}

} // verus!

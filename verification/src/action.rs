//! Kernel object actions and their names.
use vstd::prelude::*;

use crate::error::{Refusal, UEventError};
use crate::text::{chars_to_string, span_is, str_chars};

verus! {

/// Kernel object action types, as in `kobject_action` of the kernel's
/// `include/linux/kobject.h`.
#[derive(Debug, Clone, Copy, PartialEq, Eq, Hash, Structural)]
pub enum ActionType {
    Add,
    Remove,
    Change,
    Move,
    Online,
    Offline,
    Bind,
    Unbind,
}

/// The action that the kernel names `s` in a uevent, if any.
pub open spec fn action_named(s: Seq<char>) -> Option<ActionType> {
    if s == seq!['a', 'd', 'd'] {
        Some(ActionType::Add)
    } else if s == seq!['r', 'e', 'm', 'o', 'v', 'e'] {
        Some(ActionType::Remove)
    } else if s == seq!['c', 'h', 'a', 'n', 'g', 'e'] {
        Some(ActionType::Change)
    } else if s == seq!['m', 'o', 'v', 'e'] {
        Some(ActionType::Move)
    } else if s == seq!['o', 'n', 'l', 'i', 'n', 'e'] {
        Some(ActionType::Online)
    } else if s == seq!['o', 'f', 'f', 'l', 'i', 'n', 'e'] {
        Some(ActionType::Offline)
    } else if s == seq!['b', 'i', 'n', 'd'] {
        Some(ActionType::Bind)
    } else if s == seq!['u', 'n', 'b', 'i', 'n', 'd'] {
        Some(ActionType::Unbind)
    } else {
        None
    }
}

/// The action named by `cs[lo..hi]`, if any.
pub fn action_in_span(cs: &[char], lo: usize, hi: usize) -> (r: Option<ActionType>)
    requires
        lo <= hi <= cs@.len(),
    ensures
        r == action_named(cs@.subrange(lo as int, hi as int)),
{
    let ghost s = cs@.subrange(lo as int, hi as int);
    let add = ['a', 'd', 'd'];
    let remove = ['r', 'e', 'm', 'o', 'v', 'e'];
    let change = ['c', 'h', 'a', 'n', 'g', 'e'];
    let move_ = ['m', 'o', 'v', 'e'];
    let online = ['o', 'n', 'l', 'i', 'n', 'e'];
    let offline = ['o', 'f', 'f', 'l', 'i', 'n', 'e'];
    let bind = ['b', 'i', 'n', 'd'];
    let unbind = ['u', 'n', 'b', 'i', 'n', 'd'];
    assert(add@ =~= seq!['a', 'd', 'd']);
    assert(remove@ =~= seq!['r', 'e', 'm', 'o', 'v', 'e']);
    assert(change@ =~= seq!['c', 'h', 'a', 'n', 'g', 'e']);
    assert(move_@ =~= seq!['m', 'o', 'v', 'e']);
    assert(online@ =~= seq!['o', 'n', 'l', 'i', 'n', 'e']);
    assert(offline@ =~= seq!['o', 'f', 'f', 'l', 'i', 'n', 'e']);
    assert(bind@ =~= seq!['b', 'i', 'n', 'd']);
    assert(unbind@ =~= seq!['u', 'n', 'b', 'i', 'n', 'd']);
    if span_is(cs, lo, hi, &add) {
        Some(ActionType::Add)
    } else if span_is(cs, lo, hi, &remove) {
        Some(ActionType::Remove)
    } else if span_is(cs, lo, hi, &change) {
        Some(ActionType::Change)
    } else if span_is(cs, lo, hi, &move_) {
        Some(ActionType::Move)
    } else if span_is(cs, lo, hi, &online) {
        Some(ActionType::Online)
    } else if span_is(cs, lo, hi, &offline) {
        Some(ActionType::Offline)
    } else if span_is(cs, lo, hi, &bind) {
        Some(ActionType::Bind)
    } else if span_is(cs, lo, hi, &unbind) {
        Some(ActionType::Unbind)
    } else {
        None
    }
}

impl ActionType {
    /// The action that the kernel names `s`; any other text is refused as an
    /// `UnexpectedAction` that holds the text.
    pub fn from_str(s: &str) -> (r: Result<ActionType, UEventError>)
        ensures
            match action_named(s@) {
                Some(a) => r == Ok::<ActionType, UEventError>(a),
                None => r matches Err(e) && e@ == Refusal::UnexpectedAction(s@),
            },
    {
        let cs = str_chars(s);
        assert(cs@.subrange(0, cs@.len() as int) =~= s@);
        match action_in_span(cs.as_slice(), 0, cs.len()) {
            Some(a) => Ok(a),
            None => Err(UEventError::UnexpectedAction(chars_to_string(cs.as_slice()))),
        }
    }
}

impl core::str::FromStr for ActionType {
    type Err = UEventError;

    fn from_str(s: &str) -> (r: Result<ActionType, UEventError>)
        ensures
            match action_named(s@) {
                Some(a) => r == Ok::<ActionType, UEventError>(a),
                None => r matches Err(e) && e@ == Refusal::UnexpectedAction(s@),
            },
    {
        ActionType::from_str(s)
    }
}

} // verus!

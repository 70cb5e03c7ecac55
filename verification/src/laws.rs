//! What holds of every packet: when one is accepted, and what the event that
//! it gives holds.
use vstd::prelude::*;
use vstd::utf8::*;

use crate::action::action_named;
use crate::number::parse_u64;
use crate::path::same_path;
use crate::text::{split_on, split_once};
use vstd::std_specs::cmp::PartialEqSpec;

use crate::env::lemma_same_pairs_same_map;
use crate::uevent::{UEvent, key_action, key_devpath, key_seqnum, key_subsystem, scan_field, scan_fields, scan_start, uevent_of_packet, uevent_of_text, Scanned};

verus! {

/// The fields of the text of a packet.
pub open spec fn packet_fields(pkt: Seq<u8>) -> Seq<Seq<char>> {
    split_on(decode_utf8(pkt), '\0')
}

/// A field that the packet is refused for: an `ACTION` that names no action,
/// or a `SEQNUM` that is no `u64`.
pub open spec fn field_refused(f: Seq<char>) -> bool {
    match split_once(f, '=') {
        Some((k, v)) => (k == key_action() && action_named(v) is None) || (k == key_seqnum()
            && parse_u64(v) is Err),
        None => false,
    }
}

/// The field `f` is a `KEY=value` field with the key `key`.
pub open spec fn field_has_key(f: Seq<char>, key: Seq<char>) -> bool {
    match split_once(f, '=') {
        Some((k, _)) => k == key,
        None => false,
    }
}

/// The value of the last field among `fields` whose key is `key`.
pub open spec fn last_value(fields: Seq<Seq<char>>, key: Seq<char>) -> Option<Seq<char>>
    decreases fields.len(),
{
    if fields.len() == 0 {
        None
    } else {
        match last_value(fields.drop_first(), key) {
            Some(v) => Some(v),
            None => match split_once(fields[0], '=') {
                Some((k, v)) => if k == key {
                    Some(v)
                } else {
                    None
                },
                None => None,
            },
        }
    }
}

/// The map from each key of the fields to the value of its last field.
pub open spec fn fields_env(fields: Seq<Seq<char>>) -> Map<Seq<char>, Seq<char>> {
    Map::new(|k: Seq<char>| last_value(fields, k) is Some, |k: Seq<char>| last_value(fields, k)->0)
}

/// Some field among `fields` has the key `key`.
pub open spec fn has_key(fields: Seq<Seq<char>>, key: Seq<char>) -> bool {
    exists|i: int| 0 <= i < fields.len() && #[trigger] field_has_key(fields[i], key)
}

/// Some field has the key `key` exactly when a last one does.
pub proof fn lemma_last_value_exists(fields: Seq<Seq<char>>, key: Seq<char>)
    ensures
        last_value(fields, key) is Some <==> has_key(fields, key),
    decreases fields.len(),
{
    if fields.len() > 0 {
        let rest = fields.drop_first();
        lemma_last_value_exists(rest, key);
        if exists|i: int|
            0 <= i < fields.len() && #[trigger] field_has_key(fields[i], key) {
            let i = choose|i: int|
                0 <= i < fields.len() && #[trigger] field_has_key(fields[i], key);
            if i > 0 {
                assert(rest[i - 1] == fields[i]);
            }
        }
        if last_value(fields, key) is Some && last_value(rest, key) is None {
            assert(field_has_key(fields[0], key));
        }
        if last_value(rest, key) is Some {
            let j = choose|j: int|
                0 <= j < rest.len() && #[trigger] field_has_key(rest[j], key);
            assert(rest[j] == fields[j + 1]);
        }
    }
}

/// How reading the fields from a state ends: it succeeds exactly when no
/// field is refused, and then each part is given by the last field of its key,
/// where there is one, and the environment gains each key's last value.
proof fn lemma_scan_fields(st: Scanned, fields: Seq<Seq<char>>)
    ensures
        scan_fields(st, fields) is Ok <==> forall|i: int|
            0 <= i < fields.len() ==> !field_refused(#[trigger] fields[i]),
        scan_fields(st, fields) matches Ok(fin) ==> {
            &&& fin.action == match last_value(fields, key_action()) {
                Some(v) => action_named(v),
                None => st.action,
            }
            &&& fin.devpath == match last_value(fields, key_devpath()) {
                Some(v) => Some(v),
                None => st.devpath,
            }
            &&& fin.subsystem == match last_value(fields, key_subsystem()) {
                Some(v) => Some(v),
                None => st.subsystem,
            }
            &&& fin.seq == match last_value(fields, key_seqnum()) {
                Some(v) => Some(parse_u64(v)->Ok_0),
                None => st.seq,
            }
            &&& fin.env == st.env.union_prefer_right(fields_env(fields))
        },
    decreases fields.len(),
{
    if fields.len() == 0 {
        assert(st.env.union_prefer_right(fields_env(fields)) =~= st.env);
    } else {
        let f = fields[0];
        let rest = fields.drop_first();
        match scan_field(st, f) {
            Err(e) => {
                assert(field_refused(fields[0]));
            },
            Ok(next) => {
                lemma_scan_fields(next, rest);
                assert(!field_refused(f));
                assert((forall|i: int| 0 <= i < fields.len() ==> !field_refused(#[trigger] fields[i]))
                    <==> (forall|i: int| 0 <= i < rest.len() ==> !field_refused(#[trigger] rest[i])))
                    by {
                    if forall|i: int| 0 <= i < rest.len() ==> !field_refused(#[trigger] rest[i]) {
                        assert forall|i: int| 0 <= i < fields.len() implies !field_refused(
                            #[trigger] fields[i],
                        ) by {
                            if i > 0 {
                                assert(fields[i] == rest[i - 1]);
                            }
                        }
                    }
                    if forall|i: int| 0 <= i < fields.len() ==> !field_refused(#[trigger] fields[i]) {
                        assert forall|i: int| 0 <= i < rest.len() implies !field_refused(
                            #[trigger] rest[i],
                        ) by {
                            assert(fields[i + 1] == rest[i]);
                        }
                    }
                }
                if let Ok(fin) = scan_fields(next, rest) {
                    assert(fin.env =~= st.env.union_prefer_right(fields_env(fields)));
                }
            },
        }
    }
}

/// A packet is accepted exactly when it is UTF-8 text, none of its fields is
/// refused, and each of `ACTION`, `DEVPATH`, `SUBSYSTEM` and `SEQNUM` is the
/// key of some field.
pub proof fn law_accepted_iff(pkt: Seq<u8>)
    ensures
        uevent_of_packet(pkt) is Ok <==> {
            &&& valid_utf8(pkt)
            &&& forall|i: int|
                0 <= i < packet_fields(pkt).len() ==> !field_refused(
                    #[trigger] packet_fields(pkt)[i],
                )
            &&& has_key(packet_fields(pkt), key_action())
            &&& has_key(packet_fields(pkt), key_devpath())
            &&& has_key(packet_fields(pkt), key_subsystem())
            &&& has_key(packet_fields(pkt), key_seqnum())
        },
{
    if valid_utf8(pkt) {
        let fields = packet_fields(pkt);
        lemma_last_value_exists(fields, key_action());
        lemma_last_value_exists(fields, key_devpath());
        lemma_last_value_exists(fields, key_subsystem());
        lemma_last_value_exists(fields, key_seqnum());
        lemma_scan_fields(scan_start(), fields);
        if scan_fields(scan_start(), fields) is Ok {
            if let Some(v) = last_value(fields, key_action()) {
                lemma_last_value_refused(fields, key_action());
            }
        }
    }
}

/// The last field of a key is one of the fields; so where none is refused, the
/// last `ACTION` names an action.
proof fn lemma_last_value_refused(fields: Seq<Seq<char>>, key: Seq<char>)
    requires
        forall|i: int| 0 <= i < fields.len() ==> !field_refused(#[trigger] fields[i]),
        key == key_action(),
    ensures
        last_value(fields, key) matches Some(v) ==> action_named(v) is Some,
    decreases fields.len(),
{
    if fields.len() > 0 {
        let rest = fields.drop_first();
        assert forall|i: int| 0 <= i < rest.len() implies !field_refused(#[trigger] rest[i]) by {
            assert(fields[i + 1] == rest[i]);
        }
        lemma_last_value_refused(rest, key);
        assert(!field_refused(fields[0]));
    }
}

/// In the event of an accepted packet, the action, device path, subsystem and
/// sequence number are those of the last field of their key, and the
/// environment maps each key of a field to the value of its last field, and
/// holds nothing else.
pub proof fn law_accepted_event(pkt: Seq<u8>)
    requires
        uevent_of_packet(pkt) is Ok,
    ensures
        ({
            let ev = uevent_of_packet(pkt)->Ok_0;
            let fields = packet_fields(pkt);
            &&& action_named(last_value(fields, key_action())->0) == Some(ev.action)
            &&& last_value(fields, key_devpath()) == Some(ev.devpath)
            &&& last_value(fields, key_subsystem()) == Some(ev.subsystem)
            &&& parse_u64(last_value(fields, key_seqnum())->0) == Ok::<u64, crate::number::IntErrorKind>(
                ev.seq,
            )
            &&& ev.env == fields_env(fields)
        }),
{
    let fields = packet_fields(pkt);
    lemma_scan_fields(scan_start(), fields);
    let fin = scan_fields(scan_start(), fields)->Ok_0;
    assert(Map::<Seq<char>, Seq<char>>::empty().union_prefer_right(fields_env(fields))
        =~= fields_env(fields));
    lemma_last_value_seqnum(fields);
}

/// Where no field is refused, the last `SEQNUM` is a `u64`.
proof fn lemma_last_value_seqnum(fields: Seq<Seq<char>>)
    requires
        forall|i: int| 0 <= i < fields.len() ==> !field_refused(#[trigger] fields[i]),
    ensures
        last_value(fields, key_seqnum()) matches Some(v) ==> parse_u64(v) is Ok,
    decreases fields.len(),
{
    if fields.len() > 0 {
        let rest = fields.drop_first();
        assert forall|i: int| 0 <= i < rest.len() implies !field_refused(#[trigger] rest[i]) by {
            assert(fields[i + 1] == rest[i]);
        }
        lemma_last_value_seqnum(rest);
        assert(!field_refused(fields[0]));
    }
}

/// The environment of an accepted event agrees with its parts: it holds the
/// device path and subsystem under their keys, the name of the action, and
/// the text of the sequence number.
pub proof fn law_env_agrees(pkt: Seq<u8>)
    requires
        uevent_of_packet(pkt) is Ok,
    ensures
        ({
            let ev = uevent_of_packet(pkt)->Ok_0;
            &&& ev.env.contains_key(key_action())
            &&& action_named(ev.env[key_action()]) == Some(ev.action)
            &&& ev.env.contains_key(key_devpath())
            &&& ev.env[key_devpath()] == ev.devpath
            &&& ev.env.contains_key(key_subsystem())
            &&& ev.env[key_subsystem()] == ev.subsystem
            &&& ev.env.contains_key(key_seqnum())
            &&& parse_u64(ev.env[key_seqnum()]) == Ok::<u64, crate::number::IntErrorKind>(ev.seq)
        }),
{
    law_accepted_iff(pkt);
    law_accepted_event(pkt);
    let fields = packet_fields(pkt);
    lemma_last_value_exists(fields, key_action());
    lemma_last_value_exists(fields, key_devpath());
    lemma_last_value_exists(fields, key_subsystem());
    lemma_last_value_exists(fields, key_seqnum());
}

/// A leading field without `=`, such as the `action@devpath` header that the
/// kernel puts first, changes nothing in what a text gives.
pub proof fn law_header_ignored(header: Seq<char>, text: Seq<char>)
    requires
        !header.contains('\0'),
        !header.contains('='),
    ensures
        uevent_of_text(header + seq!['\0'] + text) == uevent_of_text(text),
{
    let whole = header + seq!['\0'] + text;
    crate::text::lemma_first_index(whole, '\0', header.len() as int);
    crate::text::lemma_first_index(header, '=', header.len() as int);
    assert(whole.take(header.len() as int) =~= header);
    assert(whole.skip(header.len() + 1 as int) =~= text);
    let fields = split_on(whole, '\0');
    assert(fields[0] == header);
    assert(fields.drop_first() =~= split_on(text, '\0'));
}

/// The field `f` is a `KEY=value` field.
pub open spec fn is_keyed(f: Seq<char>) -> bool {
    split_once(f, '=') is Some
}

/// The key of a `KEY=value` field.
pub open spec fn field_key(f: Seq<char>) -> Seq<char> {
    match split_once(f, '=') {
        Some((k, _)) => k,
        None => Seq::empty(),
    }
}

/// No key is the key of two of the fields.
pub open spec fn keys_distinct(fields: Seq<Seq<char>>) -> bool {
    forall|i: int, j: int|
        0 <= i < fields.len() && 0 <= j < fields.len() && i != j && is_keyed(#[trigger] fields[i])
            && is_keyed(#[trigger] fields[j]) ==> field_key(fields[i]) != field_key(fields[j])
}

/// The two lists hold the same `KEY=value` fields, whatever their order, and
/// whatever fields without `=` stand among them.
pub open spec fn same_keyed_fields(a: Seq<Seq<char>>, b: Seq<Seq<char>>) -> bool {
    forall|f: Seq<char>| is_keyed(f) ==> (a.contains(f) <==> b.contains(f))
}

/// The value of the last field of a key is the value of some field of that key.
proof fn lemma_last_value_field(fields: Seq<Seq<char>>, key: Seq<char>)
    ensures
        last_value(fields, key) matches Some(v) ==> exists|i: int|
            0 <= i < fields.len() && split_once(#[trigger] fields[i], '=') == Some((key, v)),
    decreases fields.len(),
{
    if fields.len() > 0 {
        let rest = fields.drop_first();
        lemma_last_value_field(rest, key);
        if let Some(v) = last_value(rest, key) {
            let i = choose|i: int|
                0 <= i < rest.len() && split_once(#[trigger] rest[i], '=') == Some((key, v));
            assert(fields[i + 1] == rest[i]);
        } else if let Some(v) = last_value(fields, key) {
            assert(split_once(fields[0], '=') == Some((key, v)));
        }
    }
}

/// Where no key is the key of two fields, the last field of a key is its only one.
proof fn lemma_last_value_only(fields: Seq<Seq<char>>, key: Seq<char>, v: Seq<char>)
    requires
        keys_distinct(fields),
        exists|i: int| 0 <= i < fields.len() && split_once(#[trigger] fields[i], '=') == Some((key, v)),
    ensures
        last_value(fields, key) == Some(v),
{
    let i = choose|i: int| 0 <= i < fields.len() && split_once(#[trigger] fields[i], '=') == Some((key, v));
    assert(field_has_key(fields[i], key));
    lemma_last_value_exists(fields, key);
    lemma_last_value_field(fields, key);
    let w = last_value(fields, key)->0;
    let j = choose|j: int| 0 <= j < fields.len() && split_once(#[trigger] fields[j], '=') == Some((key, w));
    assert(is_keyed(fields[i]) && is_keyed(fields[j]));
    assert(i == j);
}

/// Where the first list has no key twice and both hold the same `KEY=value`
/// fields, each key has the same last value in both.
proof fn lemma_same_last_values(a: Seq<Seq<char>>, b: Seq<Seq<char>>, key: Seq<char>)
    requires
        keys_distinct(a),
        same_keyed_fields(a, b),
    ensures
        last_value(a, key) == last_value(b, key),
{
    lemma_last_value_field(a, key);
    lemma_last_value_field(b, key);
    if let Some(v) = last_value(b, key) {
        let j = choose|j: int| 0 <= j < b.len() && split_once(#[trigger] b[j], '=') == Some((key, v));
        assert(is_keyed(b[j]));
        assert(b.contains(b[j]));
        assert(a.contains(b[j]));
        let i = choose|i: int| 0 <= i < a.len() && a[i] == b[j];
        assert(split_once(a[i], '=') == Some((key, v)));
        lemma_last_value_only(a, key, v);
    } else if let Some(v) = last_value(a, key) {
        let i = choose|i: int| 0 <= i < a.len() && split_once(#[trigger] a[i], '=') == Some((key, v));
        assert(is_keyed(a[i]));
        assert(a.contains(a[i]));
        assert(b.contains(a[i]));
        let j = choose|j: int| 0 <= j < b.len() && b[j] == a[i];
        assert(field_has_key(b[j], key));
        lemma_last_value_exists(b, key);
    }
}

/// Either both lists hold a refused field or neither does.
proof fn lemma_same_refusals(a: Seq<Seq<char>>, b: Seq<Seq<char>>)
    requires
        same_keyed_fields(a, b),
    ensures
        (forall|i: int| 0 <= i < a.len() ==> !field_refused(#[trigger] a[i])) <==> (forall|j: int|
            0 <= j < b.len() ==> !field_refused(#[trigger] b[j])),
{
    if forall|i: int| 0 <= i < a.len() ==> !field_refused(#[trigger] a[i]) {
        assert forall|j: int| 0 <= j < b.len() implies !field_refused(#[trigger] b[j]) by {
            if field_refused(b[j]) {
                assert(is_keyed(b[j]));
                assert(b.contains(b[j]));
                let i = choose|i: int| 0 <= i < a.len() && a[i] == b[j];
                assert(field_refused(a[i]));
            }
        }
    }
    if forall|j: int| 0 <= j < b.len() ==> !field_refused(#[trigger] b[j]) {
        assert forall|i: int| 0 <= i < a.len() implies !field_refused(#[trigger] a[i]) by {
            if field_refused(a[i]) {
                assert(is_keyed(a[i]));
                assert(a.contains(a[i]));
                let j = choose|j: int| 0 <= j < b.len() && b[j] == a[i];
                assert(field_refused(b[j]));
            }
        }
    }
}

/// The order of the fields does not matter where no key is given twice, nor
/// do fields without `=`: two UTF-8 packets with the same `KEY=value` fields,
/// none of whose keys occurs twice in the first, are both accepted or both
/// refused, and when accepted they give the same event.
pub proof fn law_field_order_irrelevant(pkt1: Seq<u8>, pkt2: Seq<u8>)
    requires
        valid_utf8(pkt1),
        valid_utf8(pkt2),
        keys_distinct(packet_fields(pkt1)),
        same_keyed_fields(packet_fields(pkt1), packet_fields(pkt2)),
    ensures
        uevent_of_packet(pkt1) is Ok <==> uevent_of_packet(pkt2) is Ok,
        uevent_of_packet(pkt1) is Ok ==> uevent_of_packet(pkt1) == uevent_of_packet(pkt2),
{
    let a = packet_fields(pkt1);
    let b = packet_fields(pkt2);
    lemma_same_refusals(a, b);
    assert forall|k: Seq<char>| last_value(a, k) == last_value(b, k) by {
        lemma_same_last_values(a, b, k);
    }
    lemma_last_value_exists(a, key_action());
    lemma_last_value_exists(b, key_action());
    lemma_last_value_exists(a, key_devpath());
    lemma_last_value_exists(b, key_devpath());
    lemma_last_value_exists(a, key_subsystem());
    lemma_last_value_exists(b, key_subsystem());
    lemma_last_value_exists(a, key_seqnum());
    lemma_last_value_exists(b, key_seqnum());
    law_accepted_iff(pkt1);
    law_accepted_iff(pkt2);
    if uevent_of_packet(pkt1) is Ok {
        law_accepted_event(pkt1);
        law_accepted_event(pkt2);
        assert(fields_env(a) =~= fields_env(b));
        let e1 = uevent_of_packet(pkt1)->Ok_0;
        let e2 = uevent_of_packet(pkt2)->Ok_0;
        assert(e1.action == e2.action);
        assert(e1.seq == e2.seq);
        assert(e1 == e2);
    }
}

/// Two well-formed events are equal (by `==`) exactly when they state the
/// same, their device paths taken as paths: the same action, subsystem and
/// sequence number, device paths with the same components, and the same map
/// from keys to values, whatever the order of their environments.
pub proof fn law_eq_is_same_event(u: UEvent, v: UEvent)
    requires
        u.wf(),
        v.wf(),
    ensures
        u.eq_spec(&v) <==> {
            &&& u@.action == v@.action
            &&& same_path(u@.devpath, v@.devpath)
            &&& u@.subsystem == v@.subsystem
            &&& u@.env == v@.env
            &&& u@.seq == v@.seq
        },
{
    lemma_same_pairs_same_map(u.env@, v.env@);
}

} // verus!

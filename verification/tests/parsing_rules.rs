use std::collections::HashMap;
use std::str::FromStr;

use kobject_uevent::{ActionType, IntErrorKind, UEvent, UEventError};

fn env_map(ev: &UEvent) -> HashMap<String, String> {
    let map: HashMap<String, String> = ev.env.iter().cloned().collect();
    assert_eq!(map.len(), ev.env.len(), "a key occurs twice in the environment");
    map
}

fn parse(pkt: &[u8]) -> Result<UEvent, UEventError> {
    UEvent::from_netlink_packet(pkt)
}

const BASE: &[u8] = b"ACTION=add\0DEVPATH=/devices/x\0SUBSYSTEM=tty\0SEQNUM=7";

#[test]
fn equality_ignores_env_order() {
    let ev = parse(b"ACTION=add\0DEVPATH=/d\0SUBSYSTEM=s\0SEQNUM=1\0A=1\0B=2").unwrap();
    let mut other = ev.clone();
    other.env.reverse();
    assert_eq!(ev, other);
    let mut changed = ev.clone();
    changed.env[0].1 = "remove".to_string();
    assert_ne!(ev, changed);
    let mut shorter = ev.clone();
    shorter.env.pop();
    assert_ne!(ev, shorter);
    assert_ne!(shorter, ev);
}

#[test]
fn later_field_replaces_earlier() {
    let ev = parse(b"ACTION=add\0X=1\0ACTION=remove\0DEVPATH=/a\0SUBSYSTEM=s\0SEQNUM=1\0X=2\0SEQNUM=9")
        .unwrap();
    assert_eq!(ev.action, ActionType::Remove);
    assert_eq!(ev.seq, 9);
    let env = env_map(&ev);
    assert_eq!(env.len(), 5);
    assert_eq!(env["X"], "2");
    assert_eq!(env["ACTION"], "remove");
    assert_eq!(env["SEQNUM"], "9");
}

#[test]
fn value_keeps_later_equals_signs() {
    let ev = parse(b"ACTION=add\0DEVPATH=/a=b\0SUBSYSTEM=s\0SEQNUM=1\0FOO=x=y=").unwrap();
    assert_eq!(ev.devpath, "/a=b");
    assert_eq!(env_map(&ev)["FOO"], "x=y=");
    let ev = parse(b"ACTION=add\0DEVPATH=/a\0SUBSYSTEM=s\0SEQNUM=1\0=empty\0EMPTY=").unwrap();
    let env = env_map(&ev);
    assert_eq!(env[""], "empty");
    assert_eq!(env["EMPTY"], "");
}

#[test]
fn header_and_plain_fields_are_ignored() {
    let with_header = parse(b"add@/devices/x\0ACTION=add\0DEVPATH=/devices/x\0SUBSYSTEM=tty\0SEQNUM=7")
        .unwrap();
    let without = parse(BASE).unwrap();
    assert_eq!(with_header, without);
    let with_plain = parse(b"ACTION=add\0\0noise\0DEVPATH=/devices/x\0SUBSYSTEM=tty\0SEQNUM=7\0")
        .unwrap();
    assert_eq!(with_plain, without);
    assert_eq!(env_map(&without).len(), 4);
}

#[test]
fn env_agrees_with_parts() {
    let ev = parse(b"x@y\0SEQNUM=+0012\0SUBSYSTEM=block\0DEVPATH=/devices/sda\0ACTION=change").unwrap();
    let env = env_map(&ev);
    assert_eq!(env["DEVPATH"], ev.devpath);
    assert_eq!(env["SUBSYSTEM"], ev.subsystem);
    assert_eq!(ActionType::from_str(&env["ACTION"]), Ok(ev.action));
    assert_eq!(env["SEQNUM"], "+0012");
    assert_eq!(ev.seq, 12);
}

#[test]
fn non_ascii_text_is_kept() {
    let ev = parse("ACTION=add\0DEVPATH=/dévices/€\0SUBSYSTEM=tty\0SEQNUM=7\0NAME=𝄞x".as_bytes())
        .unwrap();
    assert_eq!(ev.devpath, "/dévices/€");
    assert_eq!(env_map(&ev)["NAME"], "𝄞x");
}

#[test]
fn invalid_utf8_is_refused_first() {
    assert_eq!(
        parse(b"ACTION=add\0DEVPATH=/a\xff\0SUBSYSTEM=s\0SEQNUM=1"),
        Err(UEventError::InvalidUtf8 { valid_up_to: 21, error_len: Some(1) })
    );
    assert_eq!(
        parse(b"ACTION=hello\0\xc0\xaf"),
        Err(UEventError::InvalidUtf8 { valid_up_to: 13, error_len: Some(1) })
    );
    assert_eq!(parse(b"\xed\xa0\x80"), Err(UEventError::InvalidUtf8 { valid_up_to: 0, error_len: Some(1) }));
    assert_eq!(parse(b"ACTION=\xe2\x82"), Err(UEventError::InvalidUtf8 { valid_up_to: 7, error_len: None }));
}

#[test]
fn error_kinds_and_their_order() {
    assert_eq!(parse(b"ACTION=hello"), Err(UEventError::UnexpectedAction("hello".to_string())));
    assert_eq!(parse(b"ACTION=Add\0DEVPATH=/a\0SUBSYSTEM=s\0SEQNUM=1"), Err(UEventError::UnexpectedAction("Add".to_string())));
    assert_eq!(parse(b"ACTION=hello\0ACTION=add\0DEVPATH=/a\0SUBSYSTEM=s\0SEQNUM=1"), Err(UEventError::UnexpectedAction("hello".to_string())));
    assert_eq!(parse(b"SEQNUM=x\0ACTION=hello"), Err(UEventError::InvalidSeqnum(IntErrorKind::InvalidDigit)));
    assert_eq!(parse(b""), Err(UEventError::MissingAction));
    assert_eq!(parse(b"add@/devices/x"), Err(UEventError::MissingAction));
    assert_eq!(parse(b"ACTION=add\0SEQNUM=1"), Err(UEventError::MissingDevpath));
    assert_eq!(parse(b"ACTION=add\0DEVPATH=/a\0SEQNUM=1"), Err(UEventError::MissingSubsystem));
    assert_eq!(parse(b"ACTION=add\0DEVPATH=/a\0SUBSYSTEM=s"), Err(UEventError::MissingSeqnum));
}

fn seqnum_of(text: &str) -> Result<u64, UEventError> {
    let pkt = format!("ACTION=add\0DEVPATH=/a\0SUBSYSTEM=s\0SEQNUM={}", text);
    parse(pkt.as_bytes()).map(|ev| ev.seq)
}

fn std_kind(kind: &std::num::IntErrorKind) -> IntErrorKind {
    match kind {
        std::num::IntErrorKind::Empty => IntErrorKind::Empty,
        std::num::IntErrorKind::InvalidDigit => IntErrorKind::InvalidDigit,
        std::num::IntErrorKind::PosOverflow => IntErrorKind::PosOverflow,
        other => panic!("unexpected kind {:?}", other),
    }
}

#[test]
fn seqnum_follows_u64_from_str() {
    let cases = [
        "0", "3469", "+7", "007", "18446744073709551615", "18446744073709551616",
        "99999999999999999999x", "", "+", "-", "-1", "++1", "12a", " 1", "1 ", "١",
    ];
    for text in cases {
        let want = match text.parse::<u64>() {
            Ok(n) => Ok(n),
            Err(e) => Err(UEventError::InvalidSeqnum(std_kind(e.kind()))),
        };
        assert_eq!(seqnum_of(text), want, "SEQNUM={:?}", text);
    }
    assert_eq!(seqnum_of("18446744073709551615"), Ok(u64::MAX));
    assert_eq!(seqnum_of("18446744073709551616"), Err(UEventError::InvalidSeqnum(IntErrorKind::PosOverflow)));
    assert_eq!(seqnum_of(""), Err(UEventError::InvalidSeqnum(IntErrorKind::Empty)));
    assert_eq!(seqnum_of("+"), Err(UEventError::InvalidSeqnum(IntErrorKind::InvalidDigit)));
}

#[test]
fn action_names() {
    let names = [
        ("add", ActionType::Add),
        ("remove", ActionType::Remove),
        ("change", ActionType::Change),
        ("move", ActionType::Move),
        ("online", ActionType::Online),
        ("offline", ActionType::Offline),
        ("bind", ActionType::Bind),
        ("unbind", ActionType::Unbind),
    ];
    for (name, action) in names {
        assert_eq!(ActionType::from_str(name), Ok(action));
        assert_eq!(name.parse::<ActionType>(), Ok(action));
    }
    for bad in ["", "Add", "ADD", "add ", "adds", "ad", "unbin", "hello"] {
        assert_eq!(ActionType::from_str(bad), Err(UEventError::UnexpectedAction(bad.to_string())));
        assert!(bad.parse::<ActionType>().is_err());
    }
}


#[test]
fn refusal_messages() {
    let e = ActionType::from_str("hello").unwrap_err();
    assert_eq!(e.message(), format!("Unexpected action: {}", "hello"));
    let e = parse("ACTION=hé=llo\0DEVPATH=/a".as_bytes()).unwrap_err();
    assert_eq!(e.message(), "Unexpected action: hé=llo");
    for text in ["", "x", "99999999999999999999"] {
        let std_message = text.parse::<u64>().unwrap_err().to_string();
        assert_eq!(seqnum_of(text).unwrap_err().message(), std_message);
    }
    assert_eq!(parse(b"").unwrap_err().message(), "action not found");
    assert_eq!(parse(b"ACTION=add").unwrap_err().message(), "devpath not found");
    assert_eq!(parse(b"ACTION=add\0DEVPATH=/a").unwrap_err().message(), "subsystem not found");
    assert_eq!(parse(b"ACTION=add\0DEVPATH=/a\0SUBSYSTEM=s").unwrap_err().message(), "seq missing");
    assert_eq!(parse(b"ab\xff").unwrap_err().message(), "invalid utf-8 sequence of 1 bytes from index 2");
    assert_eq!(
        parse(b"ACTION=\xf0\x9f\x98").unwrap_err().message(),
        "incomplete utf-8 byte sequence from index 7"
    );
}

#[test]
fn device_paths_compare_as_paths() {
    let paths = [
        "/a", "/a/", "/a//b", "/a/b", "/a/./b", "/a/b/.", "a", "./a", ".", "", "/", "//", "/.",
        "a/..", "a", "./", "./.", "a/./", "..", "../a", "/..", "/a/../b", "/a/b/..",
    ];
    for x in paths {
        for y in paths {
            let ex = parse(format!("ACTION=add\0DEVPATH={}\0SUBSYSTEM=s\0SEQNUM=1", x).as_bytes()).unwrap();
            let ey = parse(format!("ACTION=add\0DEVPATH={}\0SUBSYSTEM=s\0SEQNUM=1", y).as_bytes()).unwrap();
            // The environments differ where the texts do; compare the device paths alone.
            let mut ey_same_env = ey.clone();
            ey_same_env.env = ex.env.clone();
            assert_eq!(
                ex == ey_same_env,
                std::path::Path::new(x) == std::path::Path::new(y),
                "{:?} against {:?}",
                x,
                y
            );
        }
    }
}

#[test]
fn field_order_and_plain_fields_do_not_matter() {
    let a = parse(b"add@/x\0ACTION=add\0DEVPATH=/x\0SUBSYSTEM=tty\0SEQNUM=3\0MAJOR=4").unwrap();
    let b = parse(b"MAJOR=4\0SEQNUM=3\0noise\0SUBSYSTEM=tty\0\0ACTION=add\0DEVPATH=/x\0").unwrap();
    assert_eq!(a, b);
    assert!(parse(b"ACTION=add\0DEVPATH=/x\0SUBSYSTEM=tty").is_err());
    assert!(parse(b"SUBSYSTEM=tty\0head\0DEVPATH=/x\0ACTION=add").is_err());
}

/// What `std::str::from_utf8` reports for `bytes`, as the library's refusal.
fn std_utf8_refusal(bytes: &[u8]) -> Option<(UEventError, String)> {
    match std::str::from_utf8(bytes) {
        Ok(_) => None,
        Err(e) => Some((
            UEventError::InvalidUtf8 {
                valid_up_to: e.valid_up_to(),
                error_len: e.error_len().map(|n| n as u8),
            },
            e.to_string(),
        )),
    }
}

fn check_utf8_against_std(bytes: &[u8]) {
    if let Some((want, text)) = std_utf8_refusal(bytes) {
        let got = parse(bytes).unwrap_err();
        assert_eq!(got, want, "{:x?}", bytes);
        assert_eq!(got.message(), text, "{:x?}", bytes);
    } else {
        assert!(!matches!(parse(bytes), Err(UEventError::InvalidUtf8 { .. })), "{:x?}", bytes);
    }
}

#[test]
fn utf8_refusals_follow_std() {
    for a in 0..=255u8 {
        check_utf8_against_std(&[a]);
        for b in 0..=255u8 {
            check_utf8_against_std(&[a, b]);
            check_utf8_against_std(&[b'x', a, b]);
        }
    }
    let leads = [0xe0u8, 0xe1, 0xec, 0xed, 0xee, 0xef, 0xf0, 0xf1, 0xf3, 0xf4, 0xf5];
    let others = [0x00u8, 0x41, 0x7f, 0x80, 0x8f, 0x90, 0x9f, 0xa0, 0xbf, 0xc0, 0xc2, 0xe0, 0xf0, 0xff];
    for lead in leads {
        for b1 in others {
            for b2 in others {
                check_utf8_against_std(&[lead, b1, b2]);
                for b3 in others {
                    check_utf8_against_std(&[lead, b1, b2, b3]);
                    check_utf8_against_std(&[b'A', b'=', lead, b1, b2, b3, b'\0']);
                }
            }
        }
    }
    let mut seed: u32 = 12345;
    for _ in 0..20000 {
        let mut bytes = Vec::new();
        for _ in 0..6 {
            seed = seed.wrapping_mul(1103515245).wrapping_add(12345);
            bytes.push((seed >> 16) as u8);
        }
        check_utf8_against_std(&bytes);
    }
}

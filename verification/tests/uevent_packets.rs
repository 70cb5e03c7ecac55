use kobject_uevent::{ActionType, UEvent};

fn uevent(
    action: ActionType,
    devpath: &str,
    subsystem: &str,
    env: &[(&str, &str)],
    seq: u64,
) -> UEvent {
    UEvent {
        action,
        devpath: devpath.to_string(),
        subsystem: subsystem.to_string(),
        env: env.iter().map(|(k, v)| (k.to_string(), v.to_string())).collect(),
        seq,
    }
}

#[test]
fn add_uevent() {
    const DATA: &[u8] = b"add@/devices/platform/serial8250/tty/ttyS6\0\
                          ACTION=add\0\
                          DEVPATH=/devices/platform/serial8250/tty/ttyS6\0\
                          SUBSYSTEM=tty\0\
                          SYNTH_UUID=0\0\
                          MAJOR=4\0\
                          MINOR=70\0\
                          DEVNAME=ttyS6\0\
                          SEQNUM=3469";
    assert_eq!(
        UEvent::from_netlink_packet(DATA).unwrap(),
        uevent(
            ActionType::Add,
            "/devices/platform/serial8250/tty/ttyS6",
            "tty",
            &[
                ("ACTION", "add"),
                ("DEVPATH", "/devices/platform/serial8250/tty/ttyS6"),
                ("SUBSYSTEM", "tty"),
                ("SYNTH_UUID", "0"),
                ("MAJOR", "4"),
                ("MINOR", "70"),
                ("DEVNAME", "ttyS6"),
                ("SEQNUM", "3469"),
            ],
            3469,
        ),
    );
}

#[test]
fn remove_uevent() {
    const DATA: &[u8] = b"remove@/devices/platform/serial8250/tty/ttyS6\0\
                          ACTION=remove\0\
                          DEVPATH=/devices/platform/serial8250/tty/ttyS6\0\
                          SUBSYSTEM=tty\0\
                          SYNTH_UUID=0\0\
                          MAJOR=4\0\
                          MINOR=70\0\
                          DEVNAME=ttyS6\0\
                          SEQNUM=3471";
    assert_eq!(
        UEvent::from_netlink_packet(DATA).unwrap(),
        uevent(
            ActionType::Remove,
            "/devices/platform/serial8250/tty/ttyS6",
            "tty",
            &[
                ("ACTION", "remove"),
                ("DEVPATH", "/devices/platform/serial8250/tty/ttyS6"),
                ("SUBSYSTEM", "tty"),
                ("SYNTH_UUID", "0"),
                ("MAJOR", "4"),
                ("MINOR", "70"),
                ("DEVNAME", "ttyS6"),
                ("SEQNUM", "3471"),
            ],
            3471,
        ),
    );
}

#[test]
fn change_uevent() {
    const DATA: &[u8] = b"change@/devices/platform/serial8250/tty/ttyS6\0\
                          ACTION=change\0\
                          DEVPATH=/devices/platform/serial8250/tty/ttyS6\0\
                          SUBSYSTEM=tty\0\
                          SYNTH_UUID=0\0\
                          MAJOR=4\0\
                          MINOR=70\0\
                          DEVNAME=ttyS6\0\
                          SEQNUM=3472";
    assert_eq!(
        UEvent::from_netlink_packet(DATA).unwrap(),
        uevent(
            ActionType::Change,
            "/devices/platform/serial8250/tty/ttyS6",
            "tty",
            &[
                ("ACTION", "change"),
                ("DEVPATH", "/devices/platform/serial8250/tty/ttyS6"),
                ("SUBSYSTEM", "tty"),
                ("SYNTH_UUID", "0"),
                ("MAJOR", "4"),
                ("MINOR", "70"),
                ("DEVNAME", "ttyS6"),
                ("SEQNUM", "3472"),
            ],
            3472,
        ),
    );
}

#[test]
fn move_uevent() {
    const DATA: &[u8] = b"move@/devices/platform/serial8250/tty/ttyS6\0\
                          ACTION=move\0\
                          DEVPATH=/devices/platform/serial8250/tty/ttyS6\0\
                          SUBSYSTEM=tty\0\
                          SYNTH_UUID=0\0\
                          MAJOR=4\0\
                          MINOR=70\0\
                          DEVNAME=ttyS6\0\
                          SEQNUM=3473";
    assert_eq!(
        UEvent::from_netlink_packet(DATA).unwrap(),
        uevent(
            ActionType::Move,
            "/devices/platform/serial8250/tty/ttyS6",
            "tty",
            &[
                ("ACTION", "move"),
                ("DEVPATH", "/devices/platform/serial8250/tty/ttyS6"),
                ("SUBSYSTEM", "tty"),
                ("SYNTH_UUID", "0"),
                ("MAJOR", "4"),
                ("MINOR", "70"),
                ("DEVNAME", "ttyS6"),
                ("SEQNUM", "3473"),
            ],
            3473,
        ),
    );
}

#[test]
fn online_uevent() {
    const DATA: &[u8] = b"online@/devices/platform/serial8250/tty/ttyS6\0\
                          ACTION=online\0\
                          DEVPATH=/devices/platform/serial8250/tty/ttyS6\0\
                          SUBSYSTEM=tty\0\
                          SYNTH_UUID=0\0\
                          MAJOR=4\0\
                          MINOR=70\0\
                          DEVNAME=ttyS6\0\
                          SEQNUM=3474";
    assert_eq!(
        UEvent::from_netlink_packet(DATA).unwrap(),
        uevent(
            ActionType::Online,
            "/devices/platform/serial8250/tty/ttyS6",
            "tty",
            &[
                ("ACTION", "online"),
                ("DEVPATH", "/devices/platform/serial8250/tty/ttyS6"),
                ("SUBSYSTEM", "tty"),
                ("SYNTH_UUID", "0"),
                ("MAJOR", "4"),
                ("MINOR", "70"),
                ("DEVNAME", "ttyS6"),
                ("SEQNUM", "3474"),
            ],
            3474,
        ),
    );
}

#[test]
fn offline_uevent() {
    const DATA: &[u8] = b"offline@/devices/platform/serial8250/tty/ttyS6\0\
                          ACTION=offline\0\
                          DEVPATH=/devices/platform/serial8250/tty/ttyS6\0\
                          SUBSYSTEM=tty\0\
                          SYNTH_UUID=0\0\
                          MAJOR=4\0\
                          MINOR=70\0\
                          DEVNAME=ttyS6\0\
                          SEQNUM=3475";
    assert_eq!(
        UEvent::from_netlink_packet(DATA).unwrap(),
        uevent(
            ActionType::Offline,
            "/devices/platform/serial8250/tty/ttyS6",
            "tty",
            &[
                ("ACTION", "offline"),
                ("DEVPATH", "/devices/platform/serial8250/tty/ttyS6"),
                ("SUBSYSTEM", "tty"),
                ("SYNTH_UUID", "0"),
                ("MAJOR", "4"),
                ("MINOR", "70"),
                ("DEVNAME", "ttyS6"),
                ("SEQNUM", "3475"),
            ],
            3475,
        ),
    );
}

#[test]
fn bind_uevent() {
    const DATA: &[u8] = b"bind@/devices/platform/serial8250/tty/ttyS6\0\
                          ACTION=bind\0\
                          DEVPATH=/devices/platform/serial8250/tty/ttyS6\0\
                          SUBSYSTEM=tty\0\
                          SYNTH_UUID=0\0\
                          MAJOR=4\0\
                          MINOR=70\0\
                          DEVNAME=ttyS6\0\
                          SEQNUM=3476";
    assert_eq!(
        UEvent::from_netlink_packet(DATA).unwrap(),
        uevent(
            ActionType::Bind,
            "/devices/platform/serial8250/tty/ttyS6",
            "tty",
            &[
                ("ACTION", "bind"),
                ("DEVPATH", "/devices/platform/serial8250/tty/ttyS6"),
                ("SUBSYSTEM", "tty"),
                ("SYNTH_UUID", "0"),
                ("MAJOR", "4"),
                ("MINOR", "70"),
                ("DEVNAME", "ttyS6"),
                ("SEQNUM", "3476"),
            ],
            3476,
        ),
    );
}

#[test]
fn unbind_uevent() {
    const DATA: &[u8] = b"unbind@/devices/platform/serial8250/tty/ttyS6\0\
                          ACTION=unbind\0\
                          DEVPATH=/devices/platform/serial8250/tty/ttyS6\0\
                          SUBSYSTEM=tty\0\
                          SYNTH_UUID=0\0\
                          MAJOR=4\0\
                          MINOR=70\0\
                          DEVNAME=ttyS6\0\
                          SEQNUM=3477";
    assert_eq!(
        UEvent::from_netlink_packet(DATA).unwrap(),
        uevent(
            ActionType::Unbind,
            "/devices/platform/serial8250/tty/ttyS6",
            "tty",
            &[
                ("ACTION", "unbind"),
                ("DEVPATH", "/devices/platform/serial8250/tty/ttyS6"),
                ("SUBSYSTEM", "tty"),
                ("SYNTH_UUID", "0"),
                ("MAJOR", "4"),
                ("MINOR", "70"),
                ("DEVNAME", "ttyS6"),
                ("SEQNUM", "3477"),
            ],
            3477,
        ),
    );
}

#[test]
fn invalid_event() {
    const DATA: &[u8] = b"hello@/devices/platform/serial8250/tty/ttyS6\0\
                          ACTION=hello\0\
                          DEVPATH=/devices/platform/serial8250/tty/ttyS6\0\
                          SUBSYSTEM=tty\0\
                          SEQNUM=3477";
    assert!(UEvent::from_netlink_packet(DATA).is_err());
}

#[test]
fn missing_action() {
    const DATA: &[u8] = b"add@/devices/platform/serial8250/tty/ttyS6\0\
                          DEVPATH=/devices/platform/serial8250/tty/ttyS6\0\
                          SUBSYSTEM=tty\0\
                          SEQNUM=3477";
    assert!(UEvent::from_netlink_packet(DATA).is_err());
}

#[test]
fn missing_devpath() {
    const DATA: &[u8] = b"add@/devices/platform/serial8250/tty/ttyS6\0\
                          ACTION=unbind\0\
                          SUBSYSTEM=tty\0\
                          SEQNUM=3477";
    assert!(UEvent::from_netlink_packet(DATA).is_err());
}

#[test]
fn missing_subsystem() {
    const DATA: &[u8] = b"add@/devices/platform/serial8250/tty/ttyS6\0\
                          ACTION=unbind\0\
                          DEVPATH=/devices/platform/serial8250/tty/ttyS6\0\
                          SEQNUM=3477";
    assert!(UEvent::from_netlink_packet(DATA).is_err());
}

#[test]
fn missing_seqnum() {
    const DATA: &[u8] = b"add@/devices/platform/serial8250/tty/ttyS6\0\
                          ACTION=unbind\0\
                          DEVPATH=/devices/platform/serial8250/tty/ttyS6\0\
                          SUBSYSTEM=tty";
    assert!(UEvent::from_netlink_packet(DATA).is_err());
}

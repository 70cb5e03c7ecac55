# kobject_uevent

Parsing of Linux kernel object uevents from `NETLINK_KOBJECT_UEVENT` packets,
verified with Verus.

- `src/uevent.rs`: `UEvent`, the specification of a packet's meaning
  (`uevent_of_packet`) and `UEvent::from_netlink_packet`, proved to meet it.
- `src/laws.rs`: what holds of every packet (when it is accepted, which field
  gives each part, the header and the order of fields do not matter, equality
  of events).
- `src/action.rs`, `src/number.rs`, `src/env.rs`, `src/path.rs`, `src/text.rs`,
  `src/validity.rs`, `src/error.rs`: action names, decimal `u64` parsing, the
  environment as unique-key pairs, device paths compared by components, text
  splitting, where UTF-8 validation stops, and the refusals with their messages.
- `app/lib.rs`: `anyhow` and `PathBuf` glue.

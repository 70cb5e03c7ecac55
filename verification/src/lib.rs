//! Parsing of Linux kernel object uevents, as the kernel broadcasts them on
//! the `NETLINK_KOBJECT_UEVENT` netlink family.

pub mod action;
pub mod env;
pub mod error;
pub mod laws;
pub mod number;
pub mod path;
pub mod text;
pub mod uevent;
pub mod validity;

pub use action::ActionType;
pub use error::{Refusal, UEventError};
pub use number::IntErrorKind;
pub use uevent::UEvent;

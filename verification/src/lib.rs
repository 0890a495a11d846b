//! A Bluetooth host stack for a dongle that is driven directly over USB, and the
//! rules that the controllers behind it live by.
//!
//! The crate is pure: it turns bytes into packets and packets into bytes, decides
//! what to send next, and keeps the state of a conversation. Nothing in it touches
//! a device, a file or a clock.
pub mod accept;
pub mod acl;
pub mod att;
pub mod bytes;
pub mod cadence;
pub mod channels;
pub mod classic;
pub mod commands;
pub mod connect;
pub mod controller;
pub mod dongle;
pub mod error;
pub mod fields;
pub mod hci;
pub mod joycon;
pub mod keystore;
pub mod l2cap;
pub mod link;
pub mod pairing;
pub mod probe;
pub mod radio;
pub mod recording;
pub mod renderer;
pub mod survey;
pub mod text;
pub mod transport;
pub mod watch;

pub use crate::acl::{AclPacket, Notification};
pub use crate::dongle::{discover, is_ours, DongleInfo};
pub use crate::error::{Error, Result, UsbFault};
pub use crate::hci::{CommandComplete, Event, Opcode};
pub use crate::link::LinkParams;
pub use crate::pairing::{ClassicLink, NO_PAGE};

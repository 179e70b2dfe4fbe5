//! Winlink-compatible radio email (B2F) for the CMS over telnet, RMS gateways
//! through Direwolf's AGW port, or peer-to-peer telnet.
//!
//! Everything here is network-free: callers feed what was received and apply
//! the actions that come back.

use vstd::prelude::*;

pub mod agw;
pub mod base64;
pub mod bridge;
pub mod charset;
pub mod cli;
pub mod clock;
pub mod date;
pub mod exchange;
pub mod lzhuf;
pub mod mailbox;
pub mod md5;
pub mod message;
pub mod secure;
pub mod session;
pub mod telnet;
pub mod text;
pub mod ui;
pub mod unicode;
pub mod web;

pub use crate::exchange::{Action, Exchange, ExchangeConfig, LinkSpec};
pub use crate::message::{Attachment, Draft, Message};
pub use crate::session::{LogKind, Outbound};

verus! {

/// Winlink CMS telnet gateway (callsign login, fixed password `CMSTelnet`).
pub const CMS_ADDRESS: &'static str = "server.winlink.org:8772";

pub const CMS_TARGET: &'static str = "WL2K";

pub const CMS_TELNET_PASSWORD: &'static str = "CMSTelnet";

/// Conventional port for peer-to-peer telnet sessions (Pat uses the same).
pub const P2P_PORT: u16 = 8774;

} // verus!

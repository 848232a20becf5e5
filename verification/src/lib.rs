//! A verified core of the SMTP (RFC 5321) wire protocol.
//!
//! The crate covers four pieces: the command/reply grammar with its wire
//! encoding, the CRLF line framer, the DATA-phase dot-stuffing transcoder,
//! and the per-connection protocol driver that sequences MAIL/RCPT/DATA
//! transactions and delegates accept/reject decisions to a policy trait.
//! All byte-level behaviour is stated in contracts and proved; transport
//! I/O is left to the embedder.

pub mod command;
pub mod data;
pub mod framer;
pub mod helpers;
pub mod reply;
pub mod server;
mod util;

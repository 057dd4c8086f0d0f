//! Parsers for the bodies of three binary-log events: MySQL's `Gtid_event`, MariaDB's
//! `Gtid_log_event` and the `Query_event` of both.
//!
//! Every parser reads from a [`cursor::Cursor`] over the body of one event. What the bytes
//! mean is written down once, as specification functions over `Seq<u8>`, and each parser is
//! proved to return exactly that, errors and final cursor position included.

pub mod bytes;
pub mod cursor;
pub mod error;
pub mod event;
pub mod laws;
pub mod text;
mod wire;

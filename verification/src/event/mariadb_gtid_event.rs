//! `Gtid_log_event`, MariaDB's event type 162.

use vstd::prelude::*;

use crate::bytes::{byte_at, field, remaining};
use crate::cursor::{eof, Cursor, Outcome};
use crate::error::BinlogError;
use crate::text::{decimal_text, push_decimal};

verus! {

/// Bit of `flags2`: an 8-byte `commit_id` follows the fixed post-header. MariaDB groups by it
/// the transactions that committed together, for parallel replication.
pub const FL_GROUP_COMMIT_ID: u8 = 0x10;

/// Bit of `flags2`, set on `XA PREPARE` transactions: behind the rest stand `xid_format_id`
/// (4 bytes) and two length-encoded byte strings (`gtrid` and `bqual`). They are not read.
pub const FL_PREPARED_XA: u8 = 0x40;

/// MariaDB's `Gtid_log_event`. It takes the place of MySQL's `Gtid_event`; the wire format is
/// unrelated.
///
/// On the wire, after the common header:
///   8 bytes: sequence_number (little-endian)
///   4 bytes: domain_id       (little-endian)
///   1 byte : flags2
///   8 bytes: commit_id       (little-endian), if `flags2` has [`FL_GROUP_COMMIT_ID`]
///
/// The server id comes from the event header: the body does not repeat it.
///
/// Unlike the logical clock of MySQL's event, `sequence_number` is the counter of the GTID
/// itself, one per `(domain_id, server_id)`. It is not reset when the log is rotated.
#[derive(Debug, Clone)]
pub struct MariadbGtidEvent {
    /// Counter per `(domain_id, server_id)`, not reset by a rotation.
    pub sequence_number: u64,
    /// Replication domain, by which several writers keep independent sequences.
    pub domain_id: u32,
    /// The originating server, from the event header.
    pub server_id: u32,
    /// The raw `flags2` byte.
    pub flags: u8,
    /// Group-commit identifier, present only with [`FL_GROUP_COMMIT_ID`] in `flags`.
    /// Transactions that share it were committed together.
    pub commit_id: Option<u64>,
    /// `"{domain_id}-{server_id}-{sequence_number}"`.
    pub gtid: String,
}

/// A [`MariadbGtidEvent`] with its text as a sequence of characters.
pub struct MariadbGtidEventView {
    pub sequence_number: u64,
    pub domain_id: u32,
    pub server_id: u32,
    pub flags: u8,
    pub commit_id: Option<u64>,
    pub gtid: Seq<char>,
}

impl View for MariadbGtidEvent {
    type V = MariadbGtidEventView;

    open spec fn view(&self) -> MariadbGtidEventView {
        MariadbGtidEventView {
            sequence_number: self.sequence_number,
            domain_id: self.domain_id,
            server_id: self.server_id,
            flags: self.flags,
            commit_id: self.commit_id,
            gtid: self.gtid@,
        }
    }
}

impl Default for MariadbGtidEvent {
    fn default() -> (ev: Self)
        ensures
            ev@ == (MariadbGtidEventView {
                sequence_number: 0,
                domain_id: 0,
                server_id: 0,
                flags: 0,
                commit_id: None,
                gtid: Seq::empty(),
            }),
    {
        MariadbGtidEvent {
            sequence_number: 0,
            domain_id: 0,
            server_id: 0,
            flags: 0,
            commit_id: None,
            gtid: String::new(),
        }
    }
}

/// The conventional rendering: domain, server and sequence number in decimal, with a hyphen
/// between them.
pub open spec fn mariadb_gtid_text(
    domain_id: nat,
    server_id: nat,
    sequence_number: nat,
) -> Seq<char> {
    decimal_text(domain_id) + seq!['-'] + decimal_text(server_id) + seq!['-'] + decimal_text(
        sequence_number,
    )
}

/// The event body at `pos`, of an event whose header names `server_id`.
pub open spec fn mariadb_gtid_event_at(s: Seq<u8>, pos: nat, server_id: u32) -> Outcome<
    MariadbGtidEventView,
> {
    let grouped = byte_at(s, pos + 12) & FL_GROUP_COMMIT_ID != 0;
    let size = if grouped {
        21nat
    } else {
        13nat
    };
    if remaining(s, pos) < 13 || remaining(s, pos) < size {
        eof(s)
    } else {
        let sequence_number = field(s, pos, 8);
        let domain_id = field(s, pos + 8, 4);
        Outcome {
            result: Ok(
                MariadbGtidEventView {
                    sequence_number: sequence_number as u64,
                    domain_id: domain_id as u32,
                    server_id,
                    flags: byte_at(s, pos + 12),
                    commit_id: if grouped {
                        Some(field(s, pos + 13, 8) as u64)
                    } else {
                        None
                    },
                    gtid: mariadb_gtid_text(domain_id, server_id as nat, sequence_number),
                },
            ),
            pos: pos + size,
        }
    }
}

impl MariadbGtidEvent {
    /// Parses the event body at the cursor, of an event whose header names `server_id`.
    pub fn parse(cursor: &mut Cursor<'_>, server_id: u32) -> (r: Result<Self, BinlogError>)
        ensures
            final(cursor).moved(
                old(cursor),
                mariadb_gtid_event_at(old(cursor).bytes(), old(cursor).pos(), server_id),
            ),
            match r {
                Ok(ev) => mariadb_gtid_event_at(
                    old(cursor).bytes(),
                    old(cursor).pos(),
                    server_id,
                ).result == Ok::<MariadbGtidEventView, BinlogError>(ev@),
                Err(e) => mariadb_gtid_event_at(
                    old(cursor).bytes(),
                    old(cursor).pos(),
                    server_id,
                ).result == Err::<MariadbGtidEventView, BinlogError>(e),
            },
    {
        let sequence_number: u64 = cursor.read_u64()?;
        let domain_id: u32 = cursor.read_u32()?;
        let flags: u8 = cursor.read_u8()?;

        let commit_id: Option<u64> = if flags & FL_GROUP_COMMIT_ID != 0 {
            Some(cursor.read_u64()?)
        } else {
            None
        };

        let mut gtid = String::new();
        push_decimal(&mut gtid, domain_id as u64);
        gtid.push('-');
        push_decimal(&mut gtid, server_id as u64);
        gtid.push('-');
        push_decimal(&mut gtid, sequence_number);
        assert(gtid@ =~= mariadb_gtid_text(
            domain_id as nat,
            server_id as nat,
            sequence_number as nat,
        ));

        Ok(MariadbGtidEvent { sequence_number, domain_id, server_id, flags, commit_id, gtid })
    }
}

} // verus!

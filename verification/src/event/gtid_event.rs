//! `Gtid_event`, MySQL's.

use vstd::prelude::*;

use crate::bytes::{
    byte_at, bytes_at, field, le_nat, lemma_le_nat_7, remaining, signed_64,
};
use crate::cursor::{eof, packed_number_at, Cursor, Outcome};
use crate::error::BinlogError;
use crate::text::{decimal_text, hex_text, push_decimal, push_hex};

verus! {

/// A commit timestamp has 7 bytes on the wire.
pub const COMMIT_TIMESTAMP_LENGTH: usize = 7;

/// The marker of the immediate commit timestamp in its last, most significant byte: bit 55 of
/// the whole. Where it is set, the 7 bytes of `original_commit_timestamp` follow.
pub const ORIGINAL_COMMIT_TIMESTAMP_FLAG: u8 = 0b1000_0000;

/// The marker of the immediate server version. Where it is set, the 4 bytes of
/// `original_server_version` follow.
pub const ORIGINAL_SERVER_VERSION_FLAG: u32 = 0x8000_0000;

/// The server version that stands for none.
pub const UNDEFINED_SERVER_VERSION: u32 = 0x7fff_ffff;

/// The body of a `Gtid_event`.
#[derive(Debug, Clone)]
pub struct GtidEvent {
    pub flags: u8,
    pub gtid: String,
    /// Logical-clock value used by parallel replication (group commit). Strictly increasing
    /// **within the current binlog file**; resets on every `Rotate_event`. Pair with the
    /// binlog filename, or with `immediate_commit_timestamp` for wall-clock ordering, if you
    /// need a globally-monotonic key. Only populated by MySQL >= 5.7.6.
    pub last_committed: Option<i64>,
    /// Logical-clock value used by parallel replication. Strictly increasing within the
    /// current binlog file; resets on every `Rotate_event`. Same caveat as `last_committed`.
    pub sequence_number: Option<i64>,
    /// Microseconds since the Unix epoch.
    pub immediate_commit_timestamp: Option<u64>,
    /// Microseconds since the Unix epoch. When the master is also the origin, MySQL writes
    /// only one timestamp on the wire, and it is mirrored here.
    pub original_commit_timestamp: Option<u64>,
    pub transaction_length: Option<u64>,
    pub immediate_server_version: Option<u32>,
    pub original_server_version: Option<u32>,
}

/// A [`GtidEvent`] with its text as a sequence of characters.
pub struct GtidEventView {
    pub flags: u8,
    pub gtid: Seq<char>,
    pub last_committed: Option<i64>,
    pub sequence_number: Option<i64>,
    pub immediate_commit_timestamp: Option<u64>,
    pub original_commit_timestamp: Option<u64>,
    pub transaction_length: Option<u64>,
    pub immediate_server_version: Option<u32>,
    pub original_server_version: Option<u32>,
}

impl View for GtidEvent {
    type V = GtidEventView;

    open spec fn view(&self) -> GtidEventView {
        GtidEventView {
            flags: self.flags,
            gtid: self.gtid@,
            last_committed: self.last_committed,
            sequence_number: self.sequence_number,
            immediate_commit_timestamp: self.immediate_commit_timestamp,
            original_commit_timestamp: self.original_commit_timestamp,
            transaction_length: self.transaction_length,
            immediate_server_version: self.immediate_server_version,
            original_server_version: self.original_server_version,
        }
    }
}

/// An event of which only the flags and the GTID are known.
pub open spec fn bare_event(flags: u8, gtid: Seq<char>) -> GtidEventView {
    GtidEventView {
        flags,
        gtid,
        last_committed: None,
        sequence_number: None,
        immediate_commit_timestamp: None,
        original_commit_timestamp: None,
        transaction_length: None,
        immediate_server_version: None,
        original_server_version: None,
    }
}

impl Default for GtidEvent {
    fn default() -> (ev: Self)
        ensures
            ev@ == bare_event(0, Seq::empty()),
    {
        GtidEvent {
            flags: 0,
            gtid: String::new(),
            last_committed: None,
            sequence_number: None,
            immediate_commit_timestamp: None,
            original_commit_timestamp: None,
            transaction_length: None,
            immediate_server_version: None,
            original_server_version: None,
        }
    }
}

/// The `n` bytes at `pos` in hexadecimal.
pub open spec fn hex_at(s: Seq<u8>, pos: nat, n: nat) -> Outcome<Seq<char>> {
    if n <= remaining(s, pos) {
        Outcome { result: Ok(hex_text(bytes_at(s, pos, n))), pos: pos + n }
    } else {
        eof(s)
    }
}

/// The 16 bytes of a UUID at `pos` as text: hexadecimal, in groups of 4, 2, 2, 2 and 6 bytes
/// with a hyphen between them.
pub open spec fn uuid_text(s: Seq<u8>, pos: nat) -> Seq<char> {
    hex_text(bytes_at(s, pos, 4)) + seq!['-'] + hex_text(bytes_at(s, pos + 4, 2)) + seq!['-']
        + hex_text(bytes_at(s, pos + 6, 2)) + seq!['-'] + hex_text(bytes_at(s, pos + 8, 2))
        + seq!['-'] + hex_text(bytes_at(s, pos + 10, 6))
}

/// A UUID at `pos`.
pub open spec fn uuid_at(s: Seq<u8>, pos: nat) -> Outcome<Seq<char>> {
    if 16 <= remaining(s, pos) {
        Outcome { result: Ok(uuid_text(s, pos)), pos: pos + 16 }
    } else {
        eof(s)
    }
}

/// The immediate and the original commit timestamp at `pos`, where at least the 7 bytes of
/// the first are left. Bit 55 of the first says whether the second follows; without it they
/// are the same.
pub open spec fn commit_timestamps_at(s: Seq<u8>, pos: nat) -> Outcome<(u64, u64)> {
    let raw = field(s, pos, 7);
    if raw < 0x80_0000_0000_0000 {
        Outcome { result: Ok((raw as u64, raw as u64)), pos: pos + 7 }
    } else if remaining(s, pos) < 14 {
        eof(s)
    } else {
        Outcome {
            result: Ok(((raw - 0x80_0000_0000_0000) as u64, field(s, pos + 7, 7) as u64)),
            pos: pos + 14,
        }
    }
}

/// The server version that the lower 31 bits of `raw` give.
pub open spec fn version_of(raw: nat) -> Option<u32> {
    if raw % 0x8000_0000 == UNDEFINED_SERVER_VERSION {
        None
    } else {
        Some((raw % 0x8000_0000) as u32)
    }
}

/// The immediate and the original server version at `pos`, where at least the 4 bytes of the
/// first are left, and the position behind them. Bit 31 of the first says whether the second
/// follows; without it they are the same, and where it is set but nothing follows there is no
/// second.
pub open spec fn server_versions_at(s: Seq<u8>, pos: nat) -> (Option<u32>, Option<u32>, nat) {
    let raw = field(s, pos, 4);
    if raw < ORIGINAL_SERVER_VERSION_FLAG {
        (version_of(raw), version_of(raw), pos + 4)
    } else if remaining(s, pos) < 8 {
        (version_of(raw), None, pos + 4)
    } else {
        (version_of(raw), version_of(field(s, pos + 4, 4)), pos + 8)
    }
}

/// The GTID of the event body at `pos`: the UUID of the server and the number of the
/// transaction.
pub open spec fn gtid_text(s: Seq<u8>, pos: nat) -> Seq<char> {
    uuid_text(s, pos + 1) + seq![':'] + decimal_text(field(s, pos + 17, 8))
}

/// The event body at `pos`. The flags, the UUID and the transaction number have 25 bytes.
/// Behind them servers have come to write more and more: the logical clock with a type code
/// before it (17 bytes), the commit timestamps, the transaction length and the server
/// versions. A body may end before any of these; what is left of it then, if anything, is not
/// read.
pub open spec fn gtid_event_at(s: Seq<u8>, pos: nat) -> Outcome<GtidEventView> {
    if remaining(s, pos) < 25 {
        eof(s)
    } else {
        let bare = bare_event(byte_at(s, pos), gtid_text(s, pos));
        if remaining(s, pos) < 42 {
            Outcome { result: Ok(bare), pos: pos + 25 }
        } else {
            let clocked = GtidEventView {
                last_committed: Some(signed_64(field(s, pos + 26, 8)) as i64),
                sequence_number: Some(signed_64(field(s, pos + 34, 8)) as i64),
                ..bare
            };
            if remaining(s, pos) < 49 {
                Outcome { result: Ok(clocked), pos: pos + 42 }
            } else {
                let stamps = commit_timestamps_at(s, pos + 42);
                match stamps.result {
                    Err(e) => Outcome { result: Err(e), pos: stamps.pos },
                    Ok((immediate, original)) => {
                        let stamped = GtidEventView {
                            immediate_commit_timestamp: Some(immediate),
                            original_commit_timestamp: Some(original),
                            ..clocked
                        };
                        sized_event_at(s, stamps.pos, stamped)
                    },
                }
            }
        }
    }
}

/// What the bytes at `pos`, behind the commit timestamps, add to `stamped`.
pub open spec fn sized_event_at(s: Seq<u8>, pos: nat, stamped: GtidEventView) -> Outcome<
    GtidEventView,
> {
    let length = packed_number_at(s, pos);
    if remaining(s, pos) == 0 {
        Outcome { result: Ok(stamped), pos }
    } else {
        match length.result {
            Err(e) => Outcome { result: Err(e), pos: length.pos },
            Ok(n) => {
                let sized = GtidEventView { transaction_length: Some(n as u64), ..stamped };
                if remaining(s, length.pos) < 4 {
                    Outcome { result: Ok(sized), pos: length.pos }
                } else {
                    let (immediate, original, end) = server_versions_at(s, length.pos);
                    Outcome {
                        result: Ok(
                            GtidEventView {
                                immediate_server_version: immediate,
                                original_server_version: original,
                                ..sized
                            },
                        ),
                        pos: end,
                    }
                }
            },
        }
    }
}

/// The number that 7 bytes hold, least significant first.
pub fn u56_le(buf: &[u8; COMMIT_TIMESTAMP_LENGTH]) -> (n: u64)
    ensures
        n as nat == le_nat(buf@),
{
    proof {
        reveal_with_fuel(le_nat, 8);
    }
    buf[0] as u64 + 256 * (buf[1] as u64 + 256 * (buf[2] as u64 + 256 * (buf[3] as u64 + 256 * (
    buf[4] as u64 + 256 * (buf[5] as u64 + 256 * (buf[6] as u64))))))
}

impl GtidEvent {
    /// Parses the event body at the cursor.
    #[verifier::rlimit(30)]
    pub fn parse(cursor: &mut Cursor<'_>) -> (r: Result<Self, BinlogError>)
        ensures
            final(cursor).moved(
                old(cursor),
                gtid_event_at(old(cursor).bytes(), old(cursor).pos()),
            ),
            match r {
                Ok(ev) => gtid_event_at(old(cursor).bytes(), old(cursor).pos()).result == Ok::<
                    GtidEventView,
                    BinlogError,
                >(ev@),
                Err(e) => gtid_event_at(old(cursor).bytes(), old(cursor).pos()).result == Err::<
                    GtidEventView,
                    BinlogError,
                >(e),
            },
    {
        let ghost s = cursor.bytes();
        let ghost pos = cursor.pos();
        let flags: u8 = cursor.read_u8()?;
        let sid = Self::read_uuid(cursor)?;
        let gno: u64 = cursor.read_u64()?;
        let mut gtid = sid;
        gtid.push(':');
        push_decimal(&mut gtid, gno);
        assert(gtid@ =~= gtid_text(s, pos));
        let mut event = GtidEvent {
            flags,
            gtid,
            last_committed: None,
            sequence_number: None,
            immediate_commit_timestamp: None,
            original_commit_timestamp: None,
            transaction_length: None,
            immediate_server_version: None,
            original_server_version: None,
        };

        // Everything past the transaction number was added bit by bit and is optional: each
        // block is read only if enough bytes are left, so that old masters parse cleanly.
        if cursor.available() < 1 + 8 + 8 {
            return Ok(event);
        }
        let _logical_clock_typecode: u8 = cursor.read_u8()?;
        event.last_committed = Some(cursor.read_i64()?);
        event.sequence_number = Some(cursor.read_i64()?);

        if cursor.available() < COMMIT_TIMESTAMP_LENGTH {
            return Ok(event);
        }
        let mut buf: [u8; 7] = cursor.read_7_bytes()?;
        let ghost raw = buf@;
        let top: u8 = buf[6];
        let has_original: bool = top & ORIGINAL_COMMIT_TIMESTAMP_FLAG != 0;
        buf[6] = top & !ORIGINAL_COMMIT_TIMESTAMP_FLAG;
        let ict: u64 = u56_le(&buf);
        proof {
            assert(has_original == (top >= 0x80) && top & !ORIGINAL_COMMIT_TIMESTAMP_FLAG == top
                % 0x80) by {
                assert((top & 0b1000_0000u8 != 0) == (top >= 0x80)) by (bit_vector);
                assert(top & !0b1000_0000u8 == top % 0x80) by (bit_vector);
            }
            lemma_le_nat_7(raw);
            lemma_le_nat_7(buf@);
            assert(buf@.take(6) =~= raw.take(6));
        }
        event.immediate_commit_timestamp = Some(ict);
        event.original_commit_timestamp = if has_original {
            let original: [u8; 7] = cursor.read_7_bytes()?;
            Some(u56_le(&original))
        } else {
            Some(ict)
        };

        if cursor.available() == 0 {
            return Ok(event);
        }
        event.transaction_length = Some(cursor.read_packed_number()?);

        if cursor.available() < 4 {
            return Ok(event);
        }
        let raw_isv: u32 = cursor.read_u32()?;
        let has_original_server_version: bool = raw_isv & ORIGINAL_SERVER_VERSION_FLAG != 0;
        assert(has_original_server_version == (raw_isv >= ORIGINAL_SERVER_VERSION_FLAG)) by {
            assert((raw_isv & 0x8000_0000u32 != 0) == (raw_isv >= 0x8000_0000)) by (bit_vector);
        }
        event.immediate_server_version = Self::server_version(raw_isv);
        event.original_server_version = if has_original_server_version {
            if cursor.available() < 4 {
                None
            } else {
                Self::server_version(cursor.read_u32()?)
            }
        } else {
            event.immediate_server_version
        };

        Ok(event)
    }

    /// The server version in a field, without its marker bit.
    fn server_version(raw: u32) -> (v: Option<u32>)
        ensures
            v == version_of(raw as nat),
    {
        let version: u32 = raw & !ORIGINAL_SERVER_VERSION_FLAG;
        assert(version == raw % 0x8000_0000) by {
            assert(raw & !0x8000_0000u32 == raw % 0x8000_0000) by (bit_vector);
        }
        if version != UNDEFINED_SERVER_VERSION {
            Some(version)
        } else {
            None
        }
    }

    /// Reads a UUID.
    pub fn read_uuid(cursor: &mut Cursor<'_>) -> (r: Result<String, BinlogError>)
        ensures
            final(cursor).moved(old(cursor), uuid_at(old(cursor).bytes(), old(cursor).pos())),
            match r {
                Ok(t) => uuid_at(old(cursor).bytes(), old(cursor).pos()).result == Ok::<
                    Seq<char>,
                    BinlogError,
                >(t@),
                Err(e) => uuid_at(old(cursor).bytes(), old(cursor).pos()).result == Err::<
                    Seq<char>,
                    BinlogError,
                >(e),
            },
    {
        let time_low = Self::bytes_to_hex_string(cursor, 4)?;
        let time_mid = Self::bytes_to_hex_string(cursor, 2)?;
        let time_high = Self::bytes_to_hex_string(cursor, 2)?;
        let clock = Self::bytes_to_hex_string(cursor, 2)?;
        let node = Self::bytes_to_hex_string(cursor, 6)?;
        let mut uuid = time_low;
        uuid.push('-');
        uuid.append(time_mid.as_str());
        uuid.push('-');
        uuid.append(time_high.as_str());
        uuid.push('-');
        uuid.append(clock.as_str());
        uuid.push('-');
        uuid.append(node.as_str());
        assert(uuid@ =~= uuid_text(old(cursor).bytes(), old(cursor).pos()));
        Ok(uuid)
    }

    /// Reads `byte_count` bytes as lower-case hexadecimal.
    pub fn bytes_to_hex_string(cursor: &mut Cursor<'_>, byte_count: u8) -> (r: Result<
        String,
        BinlogError,
    >)
        ensures
            final(cursor).moved(
                old(cursor),
                hex_at(old(cursor).bytes(), old(cursor).pos(), byte_count as nat),
            ),
            match r {
                Ok(t) => hex_at(
                    old(cursor).bytes(),
                    old(cursor).pos(),
                    byte_count as nat,
                ).result == Ok::<Seq<char>, BinlogError>(t@),
                Err(e) => hex_at(
                    old(cursor).bytes(),
                    old(cursor).pos(),
                    byte_count as nat,
                ).result == Err::<Seq<char>, BinlogError>(e),
            },
    {
        let ghost s = cursor.bytes();
        let ghost pos = cursor.pos();
        let mut res = String::new();
        let mut done: u8 = 0;
        assert(bytes_at(s, pos, 0) =~= Seq::empty());
        while done < byte_count
            invariant
                s == old(cursor).bytes(),
                pos == old(cursor).pos(),
                done <= byte_count,
                done <= remaining(s, pos),
                cursor.bytes() == s,
                cursor.pos() == pos + done,
                res@ == hex_text(bytes_at(s, pos, done as nat)),
            decreases byte_count - done,
        {
            let byte: u8 = cursor.read_u8()?;
            push_hex(&mut res, byte);
            done = done + 1;
            proof {
                let b = bytes_at(s, pos, done as nat);
                assert(b.drop_last() =~= bytes_at(s, pos, (done - 1) as nat));
                assert(b.last() == byte);
            }
        }
        Ok(res)
    }
}

} // verus!

//! `Query_event`: a statement, with the state of the session that ran it.

use vstd::prelude::*;

use crate::bytes::{byte_at, field, remaining, signed_64};
use crate::cursor::{
    eof, null_terminated_string_at, packed_number_at, rest_string_at, seek_from,
    terminated_string_at, uint_at, Cursor, Outcome,
};
use crate::error::BinlogError;

verus! {

/// Microsecond fraction of the statement's start time, as MySQL from 5.7 on emits it.
pub const Q_MICROSECONDS_CODE: u8 = 0x0d;

/// Microsecond fraction of the statement's start time, as MariaDB emits it.
pub const Q_HRNOW_CODE: u8 = 0x80;

/// A fraction of a second is below this number of microseconds.
pub const MICROSECONDS_PER_SECOND: u32 = 1_000_000;

/// In place of the number of database names: the server left the list out.
pub const OVER_MAX_DBS_IN_EVENT_MTS: u8 = 254;

/// One entry of the status-variable block, as far as the parser looks into it.
#[derive(Debug, Clone, Copy, PartialEq, Eq, Structural)]
pub enum StatusVar {
    /// A variable of known size that gives nothing: one of no interest, or a microsecond
    /// fraction that is no fraction of a second.
    Skipped,
    /// The microsecond fraction of the statement's start time, below a million.
    Microseconds(u32),
    /// A tag whose payload has no known size.
    Unknown,
}

/// The payload size that a tag implies, where the payload has a fixed size.
pub open spec fn fixed_payload(tag: u8) -> Option<int> {
    // Q_FLAGS2, Q_AUTO_INCREMENT, Q_MASTER_DATA_WRITTEN
    if tag == 0x00 || tag == 0x03 || tag == 0x0a {
        Some(4)
    }
    // Q_SQL_MODE, Q_TABLE_MAP_FOR_UPDATE, Q_DDL_LOGGED_WITH_XID
    else if tag == 0x01 || tag == 0x09 || tag == 0x11 {
        Some(8)
    }
    // Q_CHARSET
    else if tag == 0x04 {
        Some(6)
    }
    // Q_LC_TIME_NAMES, Q_CHARSET_DATABASE, Q_DEFAULT_COLLATION_FOR_UTF8MB4
    else if tag == 0x07 || tag == 0x08 || tag == 0x12 {
        Some(2)
    }
    // Q_EXPLICIT_DEFAULTS_FOR_TIMESTAMP, Q_SQL_REQUIRE_PRIMARY_KEY, Q_DEFAULT_TABLE_ENCRYPTION
    else if tag == 0x10 || tag == 0x13 || tag == 0x14 {
        Some(1)
    } else {
        None
    }
}

/// An entry whose payload ends `offset` behind `pos`.
pub open spec fn skip_by(pos: nat, offset: int) -> Outcome<StatusVar> {
    let seek = seek_from(pos, offset);
    Outcome {
        result: match seek.result {
            Ok(_) => Ok(StatusVar::Skipped),
            Err(e) => Err(e),
        },
        pos: seek.pos,
    }
}

/// A string at `pos` with its length in one byte before it and `extra` bytes behind it.
pub open spec fn skip_short_string(s: Seq<u8>, pos: nat, extra: int) -> Outcome<StatusVar> {
    if remaining(s, pos) == 0 {
        eof(s)
    } else {
        skip_by(pos + 1, byte_at(s, pos) + extra)
    }
}

/// A string at `pos` with its length in a packed number before it. The length is taken as a
/// signed number: one of 2^63 or more leads backwards.
pub open spec fn skip_packed_string(s: Seq<u8>, pos: nat) -> Outcome<StatusVar> {
    let length = packed_number_at(s, pos);
    match length.result {
        Ok(n) => skip_by(length.pos, signed_64(n)),
        Err(e) => Outcome { result: Err(e), pos: length.pos },
    }
}

/// `count` null-terminated strings, one behind the other.
pub open spec fn skip_names(s: Seq<u8>, pos: nat, count: nat) -> Outcome<StatusVar>
    decreases count,
{
    if count == 0 {
        Outcome { result: Ok(StatusVar::Skipped), pos }
    } else {
        let name = null_terminated_string_at(s, pos);
        match name.result {
            Ok(_) => skip_names(s, name.pos, (count - 1) as nat),
            Err(e) => Outcome { result: Err(e), pos: name.pos },
        }
    }
}

/// The entry at `pos`: a tag byte and the payload that belongs to it.
pub open spec fn status_var_at(s: Seq<u8>, pos: nat) -> Outcome<StatusVar> {
    if remaining(s, pos) == 0 {
        eof(s)
    } else {
        let tag = byte_at(s, pos);
        let payload = pos + 1;
        if fixed_payload(tag) is Some {
            skip_by(payload, fixed_payload(tag)->0)
        } else if tag == 0x02 {
            // Q_CATALOG, with a terminator
            skip_short_string(s, payload, 1)
        } else if tag == 0x05 || tag == 0x06 {
            // Q_TIME_ZONE, Q_CATALOG_NZ
            skip_short_string(s, payload, 0)
        } else if tag == 0x0b {
            // Q_INVOKER: user and host
            let user = skip_packed_string(s, payload);
            if user.result is Ok {
                skip_packed_string(s, user.pos)
            } else {
                user
            }
        } else if tag == 0x0c {
            // Q_UPDATED_DB_NAMES: a count and the names
            if remaining(s, payload) == 0 {
                eof(s)
            } else if byte_at(s, payload) == OVER_MAX_DBS_IN_EVENT_MTS {
                Outcome { result: Ok(StatusVar::Skipped), pos: payload + 1 }
            } else {
                skip_names(s, payload + 1, byte_at(s, payload) as nat)
            }
        } else if tag == Q_MICROSECONDS_CODE || tag == Q_HRNOW_CODE {
            let fraction = uint_at(s, payload, 3);
            Outcome {
                result: match fraction.result {
                    Ok(us) => if us < MICROSECONDS_PER_SECOND {
                        Ok(StatusVar::Microseconds(us as u32))
                    } else {
                        Ok(StatusVar::Skipped)
                    },
                    Err(e) => Err(e),
                },
                pos: fraction.pos,
            }
        } else {
            Outcome { result: Ok(StatusVar::Unknown), pos: payload }
        }
    }
}

/// The walk over the entries from `pos` up to `end`, where `fraction` is what the entries
/// before `pos` gave, and at most `limit` more entries are read. The last entry that gives a
/// microsecond fraction wins; an unknown tag ends the walk. A walk that ends well leaves the cursor at
/// `end`, wherever its last entry led.
pub open spec fn walk(
    s: Seq<u8>,
    pos: nat,
    end: nat,
    fraction: Option<u32>,
    limit: nat,
) -> Outcome<Option<u32>>
    decreases limit,
{
    if pos >= end {
        Outcome { result: Ok(fraction), pos: end }
    } else if limit == 0 {
        Outcome { result: Err(BinlogError::EndlessStatusVars), pos }
    } else {
        let entry = status_var_at(s, pos);
        match entry.result {
            Err(e) => Outcome { result: Err(e), pos: entry.pos },
            Ok(StatusVar::Unknown) => Outcome { result: Ok(fraction), pos: end },
            Ok(StatusVar::Skipped) => walk(s, entry.pos, end, fraction, (limit - 1) as nat),
            Ok(StatusVar::Microseconds(us)) => walk(
                s,
                entry.pos,
                end,
                Some(us),
                (limit - 1) as nat,
            ),
        }
    }
}

/// Where a block of `total_len` bytes at `pos` ends. Positions are 64-bit numbers.
pub open spec fn block_end(pos: nat, total_len: nat) -> nat {
    if pos + total_len <= u64::MAX {
        pos + total_len
    } else {
        u64::MAX as nat
    }
}

/// The status-variable block of `total_len` bytes at `pos`. Entries start before its end, so
/// a walk that reads more entries than there are such positions goes round in circles.
pub open spec fn status_vars_at(s: Seq<u8>, pos: nat, total_len: nat) -> Outcome<Option<u32>> {
    let end = block_end(pos, total_len);
    walk(s, pos, end, None, end)
}

/// Reads one entry.
fn read_status_var(cursor: &mut Cursor<'_>) -> (r: Result<StatusVar, BinlogError>)
    ensures
        final(cursor).moved(old(cursor), status_var_at(old(cursor).bytes(), old(cursor).pos())),
        r == status_var_at(old(cursor).bytes(), old(cursor).pos()).result,
        r matches Ok(StatusVar::Microseconds(us)) ==> us < MICROSECONDS_PER_SECOND,
{
    let tag: u8 = cursor.read_u8()?;
    let payload_len: i64 = match tag {
        0x00 => 4,  // Q_FLAGS2
        0x01 => 8,  // Q_SQL_MODE
        0x02 => {
            // Q_CATALOG: a string with its length before it and a terminator (deprecated)
            let n: u8 = cursor.read_u8()?;
            n as i64 + 1
        },
        0x03 => 4,  // Q_AUTO_INCREMENT
        0x04 => 6,  // Q_CHARSET
        0x05 | 0x06 => {
            // Q_TIME_ZONE, Q_CATALOG_NZ: a string with its length before it
            let n: u8 = cursor.read_u8()?;
            n as i64
        },
        0x07 => 2,  // Q_LC_TIME_NAMES
        0x08 => 2,  // Q_CHARSET_DATABASE
        0x09 => 8,  // Q_TABLE_MAP_FOR_UPDATE
        0x0a => 4,  // Q_MASTER_DATA_WRITTEN
        0x0b => {
            // Q_INVOKER: user and host, each behind a packed length
            skip_packed(cursor)?;
            return skip_packed(cursor);
        },
        0x0c => {
            // Q_UPDATED_DB_NAMES: a count and that many null-terminated strings
            let count: u8 = cursor.read_u8()?;
            if count == OVER_MAX_DBS_IN_EVENT_MTS {
                return Ok(StatusVar::Skipped);
            }
            return skip_null_terminated(cursor, count);
        },
        Q_MICROSECONDS_CODE | Q_HRNOW_CODE => {
            let us: u32 = cursor.read_u24()?;
            if us < MICROSECONDS_PER_SECOND {
                return Ok(StatusVar::Microseconds(us));
            }
            return Ok(StatusVar::Skipped);
        },
        0x10 => 1,  // Q_EXPLICIT_DEFAULTS_FOR_TIMESTAMP
        0x11 => 8,  // Q_DDL_LOGGED_WITH_XID
        0x12 => 2,  // Q_DEFAULT_COLLATION_FOR_UTF8MB4
        0x13 => 1,  // Q_SQL_REQUIRE_PRIMARY_KEY
        0x14 => 1,  // Q_DEFAULT_TABLE_ENCRYPTION
        _ => {
            return Ok(StatusVar::Unknown);
        },
    };
    cursor.seek_current(payload_len)?;
    Ok(StatusVar::Skipped)
}

/// Skips a string behind a packed length.
fn skip_packed(cursor: &mut Cursor<'_>) -> (r: Result<StatusVar, BinlogError>)
    ensures
        final(cursor).moved(
            old(cursor),
            skip_packed_string(old(cursor).bytes(), old(cursor).pos()),
        ),
        r == skip_packed_string(old(cursor).bytes(), old(cursor).pos()).result,
        r matches Ok(v) ==> v == StatusVar::Skipped,
{
    let n: u64 = cursor.read_packed_number()?;
    let offset: i64 = #[verifier::truncate] (n as i64);
    assert(offset as int == signed_64(n as nat)) by {
        assert(n < 0x8000_0000_0000_0000 ==> n as i64 == n) by (bit_vector);
        assert(n >= 0x8000_0000_0000_0000 ==> n as i64 == n - 0x1_0000_0000_0000_0000)
            by (bit_vector);
    }
    cursor.seek_current(offset)?;
    Ok(StatusVar::Skipped)
}

/// Skips `count` null-terminated strings.
fn skip_null_terminated(cursor: &mut Cursor<'_>, count: u8) -> (r: Result<StatusVar, BinlogError>)
    ensures
        final(cursor).moved(
            old(cursor),
            skip_names(old(cursor).bytes(), old(cursor).pos(), count as nat),
        ),
        r == skip_names(old(cursor).bytes(), old(cursor).pos(), count as nat).result,
        r matches Ok(v) ==> v == StatusVar::Skipped,
{
    let mut left: u8 = count;
    while left > 0
        invariant
            cursor.bytes() == old(cursor).bytes(),
            skip_names(cursor.bytes(), cursor.pos(), left as nat) == skip_names(
                old(cursor).bytes(),
                old(cursor).pos(),
                count as nat,
            ),
        decreases left,
    {
        let _ = cursor.read_null_terminated_string()?;
        left = left - 1;
    }
    Ok(StatusVar::Skipped)
}

/// Walks the status-variable block of `total_len` bytes at the cursor. Each entry is a 1-byte
/// tag and a payload; only the microsecond fraction of the wall clock is kept, and only where
/// it is a fraction of a second: an entry with a larger number is skipped. A tag of
/// unknown size ends the walk. Unless an entry is cut short or malformed, the cursor is left
/// at the end of the block, so that what follows it is read from the right place.
pub fn parse_status_vars(cursor: &mut Cursor<'_>, total_len: usize) -> (r: Result<
    Option<u32>,
    BinlogError,
>)
    ensures
        final(cursor).moved(
            old(cursor),
            status_vars_at(old(cursor).bytes(), old(cursor).pos(), total_len as nat),
        ),
        r == status_vars_at(old(cursor).bytes(), old(cursor).pos(), total_len as nat).result,
        r is Ok ==> final(cursor).pos() == block_end(old(cursor).pos(), total_len as nat),
        r matches Ok(Some(us)) ==> us < MICROSECONDS_PER_SECOND,
{
    let end: u64 = cursor.position().saturating_add(total_len as u64);
    let mut microsecond_fraction: Option<u32> = None;
    let mut left: u64 = end;
    while cursor.position() < end
        invariant
            cursor.bytes() == old(cursor).bytes(),
            end == block_end(old(cursor).pos(), total_len as nat),
            microsecond_fraction matches Some(us) ==> us < MICROSECONDS_PER_SECOND,
            walk(
                cursor.bytes(),
                cursor.pos(),
                end as nat,
                microsecond_fraction,
                left as nat,
            ) == status_vars_at(old(cursor).bytes(), old(cursor).pos(), total_len as nat),
        decreases left,
    {
        if left == 0 {
            return Err(BinlogError::EndlessStatusVars);
        }
        match read_status_var(cursor)? {
            StatusVar::Skipped => {},
            StatusVar::Microseconds(us) => {
                microsecond_fraction = Some(us);
            },
            StatusVar::Unknown => {
                cursor.set_position(end);
                return Ok(microsecond_fraction);
            },
        }
        left = left - 1;
    }
    cursor.set_position(end);
    Ok(microsecond_fraction)
}

/// The body of a `Query_event`.
#[derive(Debug, Clone)]
pub struct QueryEvent {
    pub thread_id: u32,
    pub exec_time: u32,
    pub error_code: u16,
    pub schema: String,
    pub query: String,
    /// Microsecond fraction (0..999_999) of the master wall clock at statement start, when
    /// the master emits it. **This is a fraction of a second, not microseconds since the Unix
    /// epoch**: combine it with the timestamp of the event header (seconds since epoch) for
    /// full microsecond precision. A larger number on the wire is no fraction and is left out.
    pub microsecond_fraction: Option<u32>,
}

/// A [`QueryEvent`] with its strings as sequences of characters.
pub struct QueryEventView {
    pub thread_id: u32,
    pub exec_time: u32,
    pub error_code: u16,
    pub schema: Seq<char>,
    pub query: Seq<char>,
    pub microsecond_fraction: Option<u32>,
}

impl View for QueryEvent {
    type V = QueryEventView;

    open spec fn view(&self) -> QueryEventView {
        QueryEventView {
            thread_id: self.thread_id,
            exec_time: self.exec_time,
            error_code: self.error_code,
            schema: self.schema@,
            query: self.query@,
            microsecond_fraction: self.microsecond_fraction,
        }
    }
}

/// The event body at `pos`. The post-header has 13 bytes: the thread, the execution time, the
/// length of the schema name, the error code and the length of the status variables. They
/// follow it; behind them stand the schema name, its terminator and the statement, which has
/// the rest of the buffer.
pub open spec fn query_event_at(s: Seq<u8>, pos: nat) -> Outcome<QueryEventView> {
    if remaining(s, pos) < 13 {
        eof(s)
    } else {
        let vars = status_vars_at(s, pos + 13, field(s, pos + 11, 2));
        let schema = terminated_string_at(s, vars.pos, byte_at(s, pos + 8) as nat);
        let query = rest_string_at(s, schema.pos);
        match vars.result {
            Err(e) => Outcome { result: Err(e), pos: vars.pos },
            Ok(fraction) => match schema.result {
                Err(e) => Outcome { result: Err(e), pos: schema.pos },
                Ok(schema_name) => match query.result {
                    Err(e) => Outcome { result: Err(e), pos: query.pos },
                    Ok(statement) => Outcome {
                        result: Ok(
                            QueryEventView {
                                thread_id: field(s, pos, 4) as u32,
                                exec_time: field(s, pos + 4, 4) as u32,
                                error_code: field(s, pos + 9, 2) as u16,
                                schema: schema_name,
                                query: statement,
                                microsecond_fraction: fraction,
                            },
                        ),
                        pos: query.pos,
                    },
                },
            },
        }
    }
}

impl QueryEvent {
    /// Parses the event body at the cursor.
    pub fn parse(cursor: &mut Cursor<'_>) -> (r: Result<Self, BinlogError>)
        ensures
            final(cursor).moved(
                old(cursor),
                query_event_at(old(cursor).bytes(), old(cursor).pos()),
            ),
            match r {
                Ok(ev) => query_event_at(old(cursor).bytes(), old(cursor).pos()).result == Ok::<
                    QueryEventView,
                    BinlogError,
                >(ev@),
                Err(e) => query_event_at(old(cursor).bytes(), old(cursor).pos()).result == Err::<
                    QueryEventView,
                    BinlogError,
                >(e),
            },
            r matches Ok(ev) ==> (ev.microsecond_fraction matches Some(us) ==> us
                < MICROSECONDS_PER_SECOND),
    {
        // Post-header
        let thread_id: u32 = cursor.read_u32()?;
        let exec_time: u32 = cursor.read_u32()?;
        let schema_length: u8 = cursor.read_u8()?;
        let error_code: u16 = cursor.read_u16()?;
        let status_vars_length: u16 = cursor.read_u16()?;

        let microsecond_fraction = parse_status_vars(cursor, status_vars_length as usize)?;

        // The selected database as a null-terminated string of schema_length + 1 bytes
        let schema = cursor.read_string_without_terminator(schema_length as usize)?;
        let query = cursor.read_to_string()?;

        Ok(
            QueryEvent {
                thread_id,
                exec_time,
                error_code,
                schema,
                query,
                microsecond_fraction,
            },
        )
    }
}

} // verus!

//! Laws of the single status-variable entry, byte by byte: how far each tag reaches and what it
//! gives.

use vstd::prelude::*;
use vstd::utf8::encode_utf8;

use crate::cursor::{null_terminated_string_at, packed_number_at, seek_from};
use crate::error::BinlogError;
use crate::event::query_event::{skip_names, status_var_at, StatusVar};
use crate::laws::reads::{lemma_field_bytes, lemma_string_up_to_zero, three};

verus! {

/// Whether the entry at `pos` is accepted without giving anything, and ends at `end`.
pub open spec fn is_skipped(s: Seq<u8>, pos: nat, end: int) -> bool {
    &&& status_var_at(s, pos).result == Ok::<StatusVar, BinlogError>(StatusVar::Skipped)
    &&& status_var_at(s, pos).pos == end
}

/// Whether the entry at `pos` is refused with `e`, the cursor being left at `at`.
pub open spec fn is_refused(s: Seq<u8>, pos: nat, e: BinlogError, at: int) -> bool {
    &&& status_var_at(s, pos).result == Err::<StatusVar, BinlogError>(e)
    &&& status_var_at(s, pos).pos == at
}

/// A tag that fixes the size of its payload leads that far, whatever the payload holds.
pub proof fn lemma_fixed_entry_bytes(s: Seq<u8>, pos: nat)
    requires
        pos < s.len() <= i64::MAX,
    ensures
        ({
            let p = pos as int;
            let tag = s[p];
            &&& tag == 0x00 || tag == 0x03 || tag == 0x0a ==> is_skipped(s, pos, p + 5)
            &&& tag == 0x01 || tag == 0x09 || tag == 0x11 ==> is_skipped(s, pos, p + 9)
            &&& tag == 0x04 ==> is_skipped(s, pos, p + 7)
            &&& tag == 0x07 || tag == 0x08 || tag == 0x12 ==> is_skipped(s, pos, p + 3)
            &&& tag == 0x10 || tag == 0x13 || tag == 0x14 ==> is_skipped(s, pos, p + 2)
        }),
{
}

/// A string behind its length in one byte: the entry ends behind it, and behind its terminator
/// where it has one. Without the length byte the entry is cut short.
pub proof fn lemma_short_string_entry_bytes(s: Seq<u8>, pos: nat)
    requires
        pos < s.len() <= i64::MAX,
        s[pos as int] == 0x02 || s[pos as int] == 0x05 || s[pos as int] == 0x06,
    ensures
        ({
            let p = pos as int;
            let tag = s[p];
            &&& p + 1 < s.len() && tag == 0x02 ==> is_skipped(s, pos, p + 3 + s[p + 1])
            &&& p + 1 < s.len() && tag != 0x02 ==> is_skipped(s, pos, p + 2 + s[p + 1])
            &&& p + 1 == s.len() ==> is_refused(
                s,
                pos,
                BinlogError::UnexpectedEof,
                s.len() as int,
            )
        }),
{
}

/// A microsecond entry gives the number in its 3 bytes where that is below a million, and
/// nothing where it is not; it ends behind them.
pub proof fn lemma_microseconds_entry_bytes(s: Seq<u8>, pos: nat)
    requires
        pos < s.len(),
        s[pos as int] == 0x0d || s[pos as int] == 0x80,
    ensures
        ({
            let p = pos as int;
            let us = three(s, p + 1);
            &&& p + 4 <= s.len() && us < 1_000_000 ==> status_var_at(s, pos).result == Ok::<
                StatusVar,
                BinlogError,
            >(StatusVar::Microseconds(us as u32)) && status_var_at(s, pos).pos == p + 4
            &&& p + 4 <= s.len() && us >= 1_000_000 ==> is_skipped(s, pos, p + 4)
            &&& p + 4 > s.len() ==> is_refused(
                s,
                pos,
                BinlogError::UnexpectedEof,
                s.len() as int,
            )
        }),
{
    lemma_field_bytes(s, pos + 1);
}

/// Where a string of `n` bytes ends that starts at `at`, its length being taken as a signed
/// number.
pub open spec fn signed_end(at: nat, n: nat) -> int {
    if n < 0x8000_0000_0000_0000 {
        (at + n) as int
    } else {
        at + n - 0x1_0000_0000_0000_0000
    }
}

/// User and host, each behind a packed length. The entry ends behind the host; a length that is
/// no packed number is refused as such, and one that leads before the buffer as a bad seek.
pub proof fn lemma_invoker_entry_bytes(s: Seq<u8>, pos: nat)
    requires
        pos < s.len() <= i64::MAX,
        s[pos as int] == 0x0b,
    ensures
        ({
            let user = packed_number_at(s, pos + 1);
            match user.result {
                Err(e) => is_refused(s, pos, e, user.pos as int),
                Ok(n) => {
                    let q = signed_end(user.pos, n);
                    if q < 0 {
                        is_refused(s, pos, BinlogError::InvalidSeek, user.pos as int)
                    } else {
                        let host = packed_number_at(s, q as nat);
                        match host.result {
                            Err(e) => is_refused(s, pos, e, host.pos as int),
                            Ok(m) => if signed_end(host.pos, m) < 0 {
                                is_refused(s, pos, BinlogError::InvalidSeek, host.pos as int)
                            } else {
                                is_skipped(s, pos, signed_end(host.pos, m))
                            },
                        }
                    }
                },
            }
        }),
{
    let user = packed_number_at(s, pos + 1);
    lemma_packed_range(s, pos + 1);
    if let Ok(n) = user.result {
        let q = signed_end(user.pos, n);
        assert(seek_from(user.pos, q - user.pos).result is Ok <==> q >= 0);
        if q >= 0 {
            lemma_packed_range(s, q as nat);
            let host = packed_number_at(s, q as nat);
            if let Ok(m) = host.result {
                let r = signed_end(host.pos, m);
                assert(seek_from(host.pos, r - host.pos).result is Ok <==> r >= 0);
            }
        }
    }
}

proof fn lemma_packed_range(s: Seq<u8>, pos: nat)
    ensures
        packed_number_at(s, pos).result matches Ok(n) ==> n < 0x1_0000_0000_0000_0000
            && packed_number_at(s, pos).pos <= s.len(),
{
    lemma_field_bytes(s, pos + 1);
}

/// The database names start behind their count. The count 254 stands for names that were left
/// out: none follow. Without the count the entry is cut short.
pub proof fn lemma_databases_entry_bytes(s: Seq<u8>, pos: nat)
    requires
        pos < s.len(),
        s[pos as int] == 0x0c,
    ensures
        ({
            let p = pos as int;
            &&& p + 1 == s.len() ==> is_refused(
                s,
                pos,
                BinlogError::UnexpectedEof,
                s.len() as int,
            )
            &&& p + 1 < s.len() && s[p + 1] == 254 ==> is_skipped(s, pos, p + 2)
            &&& p + 1 < s.len() && s[p + 1] == 0 ==> is_skipped(s, pos, p + 2)
            &&& p + 1 < s.len() && s[p + 1] != 254 ==> status_var_at(s, pos) == skip_names(
                s,
                pos + 2,
                s[p + 1] as nat,
            )
        }),
{
}

/// The first of several names has the bytes up to the next zero byte, or to the end of the
/// buffer where there is none. If these encode a text, the others are read from behind the zero
/// byte; if they encode none, the names are refused.
pub proof fn lemma_first_name(s: Seq<u8>, pos: nat, end: nat, count: nat, t: Seq<char>)
    requires
        count > 0,
        pos <= end <= s.len(),
        forall|i: int| pos <= i < end ==> #[trigger] s[i] != 0,
        end < s.len() ==> s[end as int] == 0,
    ensures
        ({
            let next = if end < s.len() {
                end + 1
            } else {
                end
            };
            let name = s.subrange(pos as int, end as int);
            &&& encode_utf8(t) == name ==> skip_names(s, pos, count) == skip_names(
                s,
                next,
                (count - 1) as nat,
            )
            &&& (forall|u: Seq<char>| #[trigger] encode_utf8(u) != name) ==> skip_names(
                s,
                pos,
                count,
            ).result == Err::<StatusVar, BinlogError>(BinlogError::InvalidUtf8) && skip_names(
                s,
                pos,
                count,
            ).pos == next
        }),
{
    lemma_string_up_to_zero(s, pos, end, t);
    let read = null_terminated_string_at(s, pos);
    if let Ok(u) = read.result {
        lemma_string_up_to_zero(s, pos, end, u);
        assert(encode_utf8(u) == s.subrange(pos as int, end as int));
    }
}

/// No names end where they start.
pub proof fn lemma_no_names(s: Seq<u8>, pos: nat)
    ensures
        skip_names(s, pos, 0).result == Ok::<StatusVar, BinlogError>(StatusVar::Skipped),
        skip_names(s, pos, 0).pos == pos,
{
}

/// Every other tag is unknown, and only the tag itself is read.
pub proof fn lemma_unknown_entry_bytes(s: Seq<u8>, pos: nat)
    requires
        pos < s.len(),
        ({
            let tag = s[pos as int];
            tag == 0x0e || tag == 0x0f || 0x15 <= tag <= 0x7f || 0x81 <= tag
        }),
    ensures
        status_var_at(s, pos).result == Ok::<StatusVar, BinlogError>(StatusVar::Unknown),
        status_var_at(s, pos).pos == pos + 1,
{
}

/// An entry without its tag is cut short.
pub proof fn lemma_missing_entry(s: Seq<u8>, pos: nat)
    requires
        pos >= s.len(),
    ensures
        is_refused(s, pos, BinlogError::UnexpectedEof, s.len() as int),
{
}

} // verus!

//! Laws of the single reads, byte by byte.

use vstd::prelude::*;
use vstd::utf8::encode_utf8;

use crate::bytes::{byte_at, bytes_at, bytes_from, field, le_nat, remaining, signed_64};
use crate::cursor::{
    null_terminated_string_at, packed_number_at, rest_string_at, seek_from, terminated_string_at,
    uint_at, zero_from, Cursor, Outcome,
};
use crate::error::BinlogError;
use crate::laws::text::lemma_text_is_what_was_encoded;

verus! {

/// Each byte of a number weighs 256 times as much as the one before it.
pub proof fn lemma_bytes_weigh(
    b0: u8,
    b1: u8,
    b2: u8,
    b3: u8,
    b4: u8,
    b5: u8,
    b6: u8,
    b7: u8,
)
    ensures
        le_nat(seq![b0]) == b0,
        le_nat(seq![b0, b1]) == b0 + 0x100 * b1,
        le_nat(seq![b0, b1, b2]) == b0 + 0x100 * b1 + 0x1_0000 * b2,
        le_nat(seq![b0, b1, b2, b3]) == b0 + 0x100 * b1 + 0x1_0000 * b2 + 0x100_0000 * b3,
        le_nat(seq![b0, b1, b2, b3, b4, b5, b6]) == b0 + 0x100 * b1 + 0x1_0000 * b2 + 0x100_0000
            * b3 + 0x1_0000_0000 * b4 + 0x100_0000_0000 * b5 + 0x1_0000_0000_0000 * b6,
        le_nat(seq![b0, b1, b2, b3, b4, b5, b6, b7]) == b0 + 0x100 * b1 + 0x1_0000 * b2
            + 0x100_0000 * b3 + 0x1_0000_0000 * b4 + 0x100_0000_0000 * b5 + 0x1_0000_0000_0000 * b6
            + 0x100_0000_0000_0000 * b7,
{
    reveal_with_fuel(le_nat, 9);
}

/// A byte in front of a number makes it 256 times as large and adds to it; no bytes are zero.
pub proof fn lemma_number_grows_by_bytes(b: u8, rest: Seq<u8>)
    ensures
        le_nat(Seq::empty()) == 0,
        le_nat(seq![b] + rest) == b + 256 * le_nat(rest),
{
    assert((seq![b] + rest).drop_first() =~= rest);
}

/// A signed number is the one in its range that differs from the unsigned one by nothing or by
/// all that 64 bits can count.
pub proof fn lemma_signed_number(n: nat)
    requires
        n <= u64::MAX,
    ensures
        i64::MIN <= signed_64(n) <= i64::MAX,
        signed_64(n) == n || signed_64(n) == n - 0x1_0000_0000_0000_0000,
{
}

/// The bytes at a place are those of the buffer there, and none beyond its end.
pub proof fn lemma_bytes_of_buffer(s: Seq<u8>, pos: nat, n: nat, i: int)
    ensures
        pos <= s.len() ==> bytes_from(s, pos).len() == s.len() - pos,
        pos > s.len() ==> bytes_from(s, pos).len() == 0,
        0 <= i && pos + i < s.len() ==> bytes_from(s, pos)[i] == s[pos + i],
        pos + n <= s.len() ==> bytes_at(s, pos, n).len() == n,
        0 <= i < n && pos + n <= s.len() ==> bytes_at(s, pos, n)[i] == s[pos + i],
        byte_at(s, pos) == s[pos as int],
{
}

/// The number in 2 bytes of `s` at `i`.
pub open spec fn two(s: Seq<u8>, i: int) -> int {
    s[i] + 0x100 * s[i + 1]
}

/// The number in 3 bytes of `s` at `i`.
pub open spec fn three(s: Seq<u8>, i: int) -> int {
    s[i] + 0x100 * s[i + 1] + 0x1_0000 * s[i + 2]
}

/// The number in 4 bytes of `s` at `i`.
pub open spec fn four(s: Seq<u8>, i: int) -> int {
    s[i] + 0x100 * s[i + 1] + 0x1_0000 * s[i + 2] + 0x100_0000 * s[i + 3]
}

/// The number in 7 bytes of `s` at `i`.
pub open spec fn seven(s: Seq<u8>, i: int) -> int {
    four(s, i) + 0x1_0000_0000 * s[i + 4] + 0x100_0000_0000 * s[i + 5] + 0x1_0000_0000_0000 * s[i
        + 6]
}

/// The number in 8 bytes of `s` at `i`.
pub open spec fn eight(s: Seq<u8>, i: int) -> int {
    four(s, i) + 0x1_0000_0000 * four(s, i + 4)
}

/// A field is the number in its bytes, least significant byte first.
pub proof fn lemma_field_bytes(s: Seq<u8>, pos: nat)
    ensures
        pos + 1 <= s.len() ==> field(s, pos, 1) == s[pos as int],
        pos + 2 <= s.len() ==> field(s, pos, 2) == two(s, pos as int),
        pos + 3 <= s.len() ==> field(s, pos, 3) == three(s, pos as int),
        pos + 4 <= s.len() ==> field(s, pos, 4) == four(s, pos as int),
        pos + 7 <= s.len() ==> field(s, pos, 7) == seven(s, pos as int),
        pos + 8 <= s.len() ==> field(s, pos, 8) == eight(s, pos as int),
{
    let p = pos as int;
    lemma_bytes_weigh(s[p], s[p + 1], s[p + 2], s[p + 3], s[p + 4], s[p + 5], s[p + 6], s[p + 7]);
    if pos + 1 <= s.len() {
        assert(bytes_at(s, pos, 1) =~= seq![s[p]]);
    }
    if pos + 2 <= s.len() {
        assert(bytes_at(s, pos, 2) =~= seq![s[p], s[p + 1]]);
    }
    if pos + 3 <= s.len() {
        assert(bytes_at(s, pos, 3) =~= seq![s[p], s[p + 1], s[p + 2]]);
    }
    if pos + 4 <= s.len() {
        assert(bytes_at(s, pos, 4) =~= seq![s[p], s[p + 1], s[p + 2], s[p + 3]]);
    }
    if pos + 7 <= s.len() {
        assert(bytes_at(s, pos, 7) =~= seq![
            s[p],
            s[p + 1],
            s[p + 2],
            s[p + 3],
            s[p + 4],
            s[p + 5],
            s[p + 6],
        ]);
    }
    if pos + 8 <= s.len() {
        assert(bytes_at(s, pos, 8) =~= seq![
            s[p],
            s[p + 1],
            s[p + 2],
            s[p + 3],
            s[p + 4],
            s[p + 5],
            s[p + 6],
            s[p + 7],
        ]);
    }
}

/// A number is read exactly if its bytes are there, and the cursor then stands behind them;
/// where they are not, it stands at the end of the buffer.
pub proof fn lemma_number_reads(s: Seq<u8>, pos: nat, n: nat)
    requires
        n > 0,
    ensures
        uint_at(s, pos, n).result is Ok <==> pos + n <= s.len(),
        uint_at(s, pos, n).result matches Err(e) ==> e == BinlogError::UnexpectedEof,
        uint_at(s, pos, n).pos == (if pos + n <= s.len() {
            pos + n
        } else {
            s.len()
        }),
        pos + n <= s.len() ==> uint_at(s, pos, n).result == Ok::<nat, BinlogError>(
            le_nat(s.subrange(pos as int, pos as int + n)),
        ),
        remaining(s, pos) == (if pos <= s.len() {
            s.len() - pos
        } else {
            0
        }),
{
    if pos + n <= s.len() {
        assert(bytes_at(s, pos, n) =~= s.subrange(pos as int, pos as int + n));
    }
}

/// What the bytes of a packed number say, the refused ones included.
pub proof fn lemma_packed_number_bytes(s: Seq<u8>, pos: nat)
    requires
        pos < s.len(),
    ensures
        ({
            let p = pos as int;
            let first = s[p];
            let read = packed_number_at(s, pos);
            &&& first <= 250 ==> read.result == Ok::<nat, BinlogError>(first as nat) && read.pos
                == p + 1
            &&& first == 252 && p + 3 <= s.len() ==> read.result == Ok::<nat, BinlogError>(
                two(s, p + 1) as nat,
            ) && read.pos == p + 3
            &&& first == 253 && p + 4 <= s.len() ==> read.result == Ok::<nat, BinlogError>(
                three(s, p + 1) as nat,
            ) && read.pos == p + 4
            &&& first == 254 && p + 9 <= s.len() ==> read.result == Ok::<nat, BinlogError>(
                eight(s, p + 1) as nat,
            ) && read.pos == p + 9
            &&& (first == 252 && p + 3 > s.len()) || (first == 253 && p + 4 > s.len()) || (first
                == 254 && p + 9 > s.len()) ==> read.result == Err::<nat, BinlogError>(
                BinlogError::UnexpectedEof,
            ) && read.pos == s.len()
            &&& first == 251 || first == 255 ==> read.result == Err::<nat, BinlogError>(
                BinlogError::InvalidPackedNumber(first),
            ) && read.pos == p + 1
        }),
{
    lemma_field_bytes(s, pos + 1);
}

/// A packed number is not there where no byte is.
pub proof fn lemma_packed_number_needs_a_byte(s: Seq<u8>, pos: nat)
    requires
        pos >= s.len(),
    ensures
        packed_number_at(s, pos).result == Err::<nat, BinlogError>(BinlogError::UnexpectedEof),
        packed_number_at(s, pos).pos == s.len(),
{
}

/// A seek adds its offset, wherever the sum is a position; else it fails and nothing moves.
pub proof fn lemma_seek_adds(pos: nat, offset: int)
    ensures
        0 <= pos + offset <= u64::MAX ==> seek_from(pos, offset).result == Ok::<(), BinlogError>(
            (),
        ) && seek_from(pos, offset).pos == pos + offset,
        !(0 <= pos + offset <= u64::MAX) ==> seek_from(pos, offset).result == Err::<
            (),
            BinlogError,
        >(BinlogError::InvalidSeek) && seek_from(pos, offset).pos == pos,
{
}

/// A string with a given length is `t` exactly if its bytes encode `t`; the cursor ends behind
/// the byte that follows them.
pub proof fn lemma_sized_string(s: Seq<u8>, pos: nat, n: nat, t: Seq<char>)
    requires
        s.len() < u64::MAX,
    ensures
        ({
            let read = terminated_string_at(s, pos, n);
            &&& pos + n <= s.len() ==> {
                &&& read.pos == pos + n + 1
                &&& read.result == Ok::<Seq<char>, BinlogError>(t) <==> encode_utf8(t)
                    == s.subrange(pos as int, pos as int + n)
                &&& read.result matches Err(e) ==> e == BinlogError::InvalidUtf8
            }
            &&& pos + n > s.len() && n > 0 ==> read.pos == s.len() && read.result == Err::<
                Seq<char>,
                BinlogError,
            >(BinlogError::UnexpectedEof)
            &&& n == 0 && pos < u64::MAX ==> read.pos == pos + 1 && read.result == Ok::<
                Seq<char>,
                BinlogError,
            >(Seq::empty())
            &&& n == 0 && pos == u64::MAX ==> read.pos == pos && read.result == Err::<
                Seq<char>,
                BinlogError,
            >(BinlogError::InvalidSeek)
        }),
{
    if pos + n <= s.len() {
        assert(bytes_at(s, pos, n) =~= s.subrange(pos as int, pos as int + n));
    }
    lemma_text_is_what_was_encoded(bytes_at(s, pos, n), t);
    if n == 0 {
        assert(bytes_at(s, pos, 0) =~= Seq::empty());
        lemma_text_is_what_was_encoded(Seq::empty(), Seq::empty());
    }
}

/// A string that ends before the first zero byte, or with the buffer where there is none, is `t`
/// exactly if the bytes up to there encode `t`; the zero byte is consumed too.
pub proof fn lemma_string_up_to_zero(s: Seq<u8>, pos: nat, end: nat, t: Seq<char>)
    requires
        pos <= end <= s.len(),
        forall|i: int| pos <= i < end ==> #[trigger] s[i] != 0,
        end < s.len() ==> s[end as int] == 0,
    ensures
        ({
            let read = null_terminated_string_at(s, pos);
            &&& read.pos == (if end < s.len() {
                end + 1
            } else {
                end
            })
            &&& read.result == Ok::<Seq<char>, BinlogError>(t) <==> encode_utf8(t) == s.subrange(
                pos as int,
                end as int,
            )
            &&& read.result matches Err(e) ==> e == BinlogError::InvalidUtf8
        }),
{
    lemma_first_zero(s, pos, end);
    assert(bytes_at(s, pos, (end - pos) as nat) =~= s.subrange(pos as int, end as int));
    lemma_text_is_what_was_encoded(s.subrange(pos as int, end as int), t);
}

/// Beyond the buffer every string is empty, and the cursor stays.
pub proof fn lemma_string_beyond_buffer(s: Seq<u8>, pos: nat)
    requires
        pos >= s.len(),
    ensures
        null_terminated_string_at(s, pos).result == Ok::<Seq<char>, BinlogError>(Seq::empty()),
        null_terminated_string_at(s, pos).pos == pos,
{
    assert(bytes_at(s, pos, 0) =~= Seq::empty());
    lemma_text_is_what_was_encoded(Seq::empty(), Seq::empty());
}

pub(crate) proof fn lemma_first_zero(s: Seq<u8>, pos: nat, end: nat)
    requires
        pos <= end <= s.len(),
        forall|i: int| pos <= i < end ==> #[trigger] s[i] != 0,
        end < s.len() ==> s[end as int] == 0,
    ensures
        zero_from(s, pos) == end,
    decreases end - pos,
{
    if pos < end {
        assert(s[pos as int] != 0);
        lemma_first_zero(s, pos + 1, end);
    }
}

/// The rest of a buffer is the text `t` exactly if its bytes encode `t`. The cursor ends at the
/// end, or stays where they encode no text.
pub proof fn lemma_string_to_the_end(s: Seq<u8>, pos: nat, t: Seq<char>)
    ensures
        ({
            let read = rest_string_at(s, pos);
            &&& pos <= s.len() ==> {
                &&& read.result == Ok::<Seq<char>, BinlogError>(t) <==> encode_utf8(t)
                    == s.subrange(pos as int, s.len() as int)
                &&& read.result matches Err(e) ==> e == BinlogError::InvalidUtf8
                &&& read.pos == (if read.result is Ok {
                    s.len()
                } else {
                    pos
                })
            }
            &&& pos >= s.len() ==> read.pos == pos && read.result == Ok::<Seq<char>, BinlogError>(
                Seq::empty(),
            )
        }),
{
    if pos <= s.len() {
        assert(bytes_from(s, pos) =~= s.subrange(pos as int, s.len() as int));
        lemma_text_is_what_was_encoded(bytes_from(s, pos), t);
    }
    if pos >= s.len() {
        assert(bytes_from(s, pos) =~= Seq::empty());
        lemma_text_is_what_was_encoded(Seq::empty(), Seq::empty());
    }
}

/// A cursor that moved by an outcome has the bytes that it had, and stands where the outcome
/// says.
pub proof fn lemma_moved_cursor<T>(after: Cursor<'_>, before: Cursor<'_>, outcome: Outcome<T>)
    requires
        after.moved(&before, outcome),
    ensures
        after.bytes() == before.bytes(),
        after.pos() == outcome.pos,
{
}

} // verus!

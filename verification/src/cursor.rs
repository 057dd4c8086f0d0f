//! A position in a byte buffer, and the reads that move it.

use vstd::prelude::*;
use vstd::slice::{slice_subrange, slice_to_vec};

use crate::bytes::{
    byte_at, bytes_at, bytes_from, field, le_bytes, lemma_le_round_trip, lemma_pow256_values,
    remaining, signed_64,
};
use crate::error::BinlogError;
use crate::text::{decode, utf8_text};
use crate::wire;

verus! {

/// What a read of the bytes of a buffer gives, and the position after it.
pub struct Outcome<T> {
    pub result: Result<T, BinlogError>,
    pub pos: nat,
}

/// A read that asks for more bytes than are left fails, and leaves the cursor at the end of
/// the buffer.
pub open spec fn eof<T>(s: Seq<u8>) -> Outcome<T> {
    Outcome { result: Err(BinlogError::UnexpectedEof), pos: s.len() }
}

/// A little-endian unsigned number of `n` bytes at `pos`.
pub open spec fn uint_at(s: Seq<u8>, pos: nat, n: nat) -> Outcome<nat> {
    if n <= remaining(s, pos) {
        Outcome { result: Ok(field(s, pos, n)), pos: pos + n }
    } else {
        eof(s)
    }
}

/// A seek by `offset` from `pos`. The target may lie beyond the end of the buffer; one that
/// is negative or no 64-bit number is refused, and the position stays.
pub open spec fn seek_from(pos: nat, offset: int) -> Outcome<()> {
    if 0 <= pos + offset <= u64::MAX {
        Outcome { result: Ok(()), pos: (pos + offset) as nat }
    } else {
        Outcome { result: Err(BinlogError::InvalidSeek), pos }
    }
}

/// A packed number at `pos`: a byte up to 250 is the number itself, and the markers 0xfc,
/// 0xfd and 0xfe announce a number of 2, 3 and 8 bytes. No number begins with 0xfb or 0xff.
pub open spec fn packed_number_at(s: Seq<u8>, pos: nat) -> Outcome<nat> {
    if remaining(s, pos) == 0 {
        eof(s)
    } else {
        let first = byte_at(s, pos);
        if first < 0xfb {
            Outcome { result: Ok(first as nat), pos: pos + 1 }
        } else if first == 0xfc {
            uint_at(s, pos + 1, 2)
        } else if first == 0xfd {
            uint_at(s, pos + 1, 3)
        } else if first == 0xfe {
            uint_at(s, pos + 1, 8)
        } else {
            Outcome { result: Err(BinlogError::InvalidPackedNumber(first)), pos: pos + 1 }
        }
    }
}

/// The shortest packed form of `n`.
pub open spec fn packed_bytes(n: nat) -> Seq<u8> {
    if n < 0xfb {
        seq![n as u8]
    } else if n < 0x1_0000 {
        seq![0xfcu8] + le_bytes(n, 2)
    } else if n < 0x100_0000 {
        seq![0xfdu8] + le_bytes(n, 3)
    } else {
        seq![0xfeu8] + le_bytes(n, 8)
    }
}

/// What was packed is unpacked: the packed form of a 64-bit number reads back as that number,
/// wherever it stands in a buffer.
pub proof fn lemma_packed_round_trip(s: Seq<u8>, pos: nat, n: u64)
    requires
        packed_bytes(n as nat).len() <= remaining(s, pos),
        bytes_at(s, pos, packed_bytes(n as nat).len()) == packed_bytes(n as nat),
    ensures
        packed_number_at(s, pos).result == Ok::<nat, BinlogError>(n as nat),
        packed_number_at(s, pos).pos == pos + packed_bytes(n as nat).len(),
{
    let packed = packed_bytes(n as nat);
    let width: nat = if n < 0xfb {
        0
    } else if n < 0x1_0000 {
        2
    } else if n < 0x100_0000 {
        3
    } else {
        8
    };
    lemma_pow256_values();
    if width > 0 {
        lemma_le_round_trip(n as nat, width);
    }
    assert(byte_at(s, pos) == bytes_at(s, pos, packed.len())[0]);
    if width > 0 {
        assert(bytes_at(s, pos + 1, width) =~= bytes_at(s, pos, packed.len()).drop_first());
        assert(packed.drop_first() =~= le_bytes(n as nat, width));
    }
}

/// A string of `n` bytes at `pos`, and one byte after it, its terminator, that is skipped
/// unseen. Bytes that are no UTF-8 are consumed all the same.
pub open spec fn terminated_string_at(s: Seq<u8>, pos: nat, n: nat) -> Outcome<Seq<char>> {
    if n <= remaining(s, pos) {
        let skip = seek_from(pos + n, 1);
        match skip.result {
            Ok(_) => Outcome {
                result: utf8_text(bytes_at(s, pos, n)),
                pos: skip.pos,
            },
            Err(e) => Outcome { result: Err(e), pos: skip.pos },
        }
    } else {
        eof(s)
    }
}

/// The index of the first zero byte at or after `pos`, or the length of `s` (or `pos`,
/// beyond it) where there is none.
pub open spec fn zero_from(s: Seq<u8>, pos: nat) -> nat
    decreases s.len() - pos,
{
    if pos >= s.len() || byte_at(s, pos) == 0 {
        pos
    } else {
        zero_from(s, pos + 1)
    }
}

/// A string at `pos` that ends before the first zero byte, which is consumed with it, or at
/// the end of the buffer.
pub open spec fn null_terminated_string_at(s: Seq<u8>, pos: nat) -> Outcome<Seq<char>> {
    let end = zero_from(s, pos);
    Outcome {
        result: utf8_text(bytes_at(s, pos, (end - pos) as nat)),
        pos: if end < s.len() {
            end + 1
        } else {
            end
        },
    }
}

/// The string that all bytes from `pos` on hold. Where they are no UTF-8 the position stays.
pub open spec fn rest_string_at(s: Seq<u8>, pos: nat) -> Outcome<Seq<char>> {
    let result = utf8_text(bytes_from(s, pos));
    Outcome {
        result,
        pos: if result is Ok {
            pos + remaining(s, pos)
        } else {
            pos
        },
    }
}

/// A position in the bytes of one event body. Like a file, it may stand beyond the end:
/// nothing can be read there.
pub struct Cursor<'a> {
    buf: &'a Vec<u8>,
    pos: u64,
}

impl<'a> Cursor<'a> {
    /// The bytes of the buffer.
    pub closed spec fn bytes(&self) -> Seq<u8> {
        self.buf@
    }

    /// The position.
    pub closed spec fn pos(&self) -> nat {
        self.pos as nat
    }

    /// Whether a cursor that was `before` and is `self` now read what `outcome` says, on the
    /// same bytes.
    pub open spec fn moved<T>(&self, before: &Cursor<'a>, outcome: Outcome<T>) -> bool {
        &&& self.bytes() == before.bytes()
        &&& self.pos() == outcome.pos
    }

    /// A cursor at the start of `buf`.
    pub fn new(buf: &'a Vec<u8>) -> (c: Cursor<'a>)
        ensures
            c.bytes() == buf@,
            c.pos() == 0,
    {
        Cursor { buf, pos: 0 }
    }

    /// The position.
    pub fn position(&self) -> (p: u64)
        ensures
            p as nat == self.pos(),
    {
        self.pos
    }

    /// Moves to `pos`, which may lie beyond the end of the buffer.
    pub fn set_position(&mut self, pos: u64)
        ensures
            final(self).bytes() == old(self).bytes(),
            final(self).pos() == pos,
    {
        self.pos = pos;
    }

    /// How many bytes are left to read.
    pub fn available(&self) -> (n: usize)
        ensures
            n as nat == remaining(self.bytes(), self.pos()),
    {
        let len: u64 = self.buf.len() as u64;
        if self.pos < len {
            (len - self.pos) as usize
        } else {
            0
        }
    }

    /// The bytes that are left to read.
    fn rest(&self) -> (r: &'a [u8])
        ensures
            r@ == bytes_from(self.bytes(), self.pos()),
            r@.len() == remaining(self.bytes(), self.pos()),
            self.pos() + r@.len() <= u64::MAX,
    {
        let len: usize = self.buf.len();
        if self.pos < len as u64 {
            slice_subrange(self.buf.as_slice(), self.pos as usize, len)
        } else {
            slice_subrange(self.buf.as_slice(), len, len)
        }
    }

    /// Leaves the cursor at the end of the buffer, after a read that found too few bytes.
    fn fail_at_end(&mut self) -> (e: BinlogError)
        ensures
            e == BinlogError::UnexpectedEof,
            final(self).bytes() == old(self).bytes(),
            final(self).pos() == old(self).bytes().len(),
    {
        self.pos = self.buf.len() as u64;
        BinlogError::UnexpectedEof
    }

    /// Reads one byte.
    pub fn read_u8(&mut self) -> (r: Result<u8, BinlogError>)
        ensures
            final(self).moved(old(self), uint_at(old(self).bytes(), old(self).pos(), 1)),
            r is Ok <==> remaining(old(self).bytes(), old(self).pos()) >= 1,
            r matches Ok(v) ==> v == byte_at(old(self).bytes(), old(self).pos()),
            r matches Err(e) ==> e == BinlogError::UnexpectedEof,
    {
        match wire::read_u8(self.rest()) {
            Ok(v) => {
                self.pos = self.pos + 1;
                Ok(v)
            },
            Err(_) => Err(self.fail_at_end()),
        }
    }

    /// Reads a 2-byte little-endian number.
    pub fn read_u16(&mut self) -> (r: Result<u16, BinlogError>)
        ensures
            final(self).moved(old(self), uint_at(old(self).bytes(), old(self).pos(), 2)),
            r is Ok <==> remaining(old(self).bytes(), old(self).pos()) >= 2,
            r matches Ok(v) ==> v as nat == field(old(self).bytes(), old(self).pos(), 2),
            r matches Err(e) ==> e == BinlogError::UnexpectedEof,
    {
        match wire::read_u16(self.rest()) {
            Ok(v) => {
                self.pos = self.pos + 2;
                Ok(v)
            },
            Err(_) => Err(self.fail_at_end()),
        }
    }

    /// Reads a 3-byte little-endian number.
    pub fn read_u24(&mut self) -> (r: Result<u32, BinlogError>)
        ensures
            final(self).moved(old(self), uint_at(old(self).bytes(), old(self).pos(), 3)),
            r is Ok <==> remaining(old(self).bytes(), old(self).pos()) >= 3,
            r matches Ok(v) ==> v as nat == field(old(self).bytes(), old(self).pos(), 3),
            r matches Err(e) ==> e == BinlogError::UnexpectedEof,
    {
        match wire::read_u24(self.rest()) {
            Ok(v) => {
                self.pos = self.pos + 3;
                Ok(v)
            },
            Err(_) => Err(self.fail_at_end()),
        }
    }

    /// Reads a 4-byte little-endian number.
    pub fn read_u32(&mut self) -> (r: Result<u32, BinlogError>)
        ensures
            final(self).moved(old(self), uint_at(old(self).bytes(), old(self).pos(), 4)),
            r is Ok <==> remaining(old(self).bytes(), old(self).pos()) >= 4,
            r matches Ok(v) ==> v as nat == field(old(self).bytes(), old(self).pos(), 4),
            r matches Err(e) ==> e == BinlogError::UnexpectedEof,
    {
        match wire::read_u32(self.rest()) {
            Ok(v) => {
                self.pos = self.pos + 4;
                Ok(v)
            },
            Err(_) => Err(self.fail_at_end()),
        }
    }

    /// Reads an 8-byte little-endian number.
    pub fn read_u64(&mut self) -> (r: Result<u64, BinlogError>)
        ensures
            final(self).moved(old(self), uint_at(old(self).bytes(), old(self).pos(), 8)),
            r is Ok <==> remaining(old(self).bytes(), old(self).pos()) >= 8,
            r matches Ok(v) ==> v as nat == field(old(self).bytes(), old(self).pos(), 8),
            r matches Err(e) ==> e == BinlogError::UnexpectedEof,
    {
        match wire::read_u64(self.rest()) {
            Ok(v) => {
                self.pos = self.pos + 8;
                Ok(v)
            },
            Err(_) => Err(self.fail_at_end()),
        }
    }

    /// Reads an 8-byte little-endian number in two's complement.
    pub fn read_i64(&mut self) -> (r: Result<i64, BinlogError>)
        ensures
            final(self).moved(old(self), uint_at(old(self).bytes(), old(self).pos(), 8)),
            r is Ok <==> remaining(old(self).bytes(), old(self).pos()) >= 8,
            r matches Ok(v) ==> v as int == signed_64(
                field(old(self).bytes(), old(self).pos(), 8),
            ),
            r matches Err(e) ==> e == BinlogError::UnexpectedEof,
    {
        match wire::read_i64(self.rest()) {
            Ok(v) => {
                self.pos = self.pos + 8;
                Ok(v)
            },
            Err(_) => Err(self.fail_at_end()),
        }
    }

    /// Reads seven bytes.
    pub fn read_7_bytes(&mut self) -> (r: Result<[u8; 7], BinlogError>)
        ensures
            final(self).moved(old(self), uint_at(old(self).bytes(), old(self).pos(), 7)),
            r is Ok <==> remaining(old(self).bytes(), old(self).pos()) >= 7,
            r matches Ok(v) ==> v@ == bytes_at(old(self).bytes(), old(self).pos(), 7),
            r matches Err(e) ==> e == BinlogError::UnexpectedEof,
    {
        let rest = self.rest();
        if rest.len() < 7 {
            return Err(self.fail_at_end());
        }
        let v: [u8; 7] = [rest[0], rest[1], rest[2], rest[3], rest[4], rest[5], rest[6]];
        assert(v@ =~= bytes_at(self.bytes(), self.pos(), 7));
        self.pos = self.pos + 7;
        Ok(v)
    }

    /// Moves by `offset`, forwards or backwards.
    pub fn seek_current(&mut self, offset: i64) -> (r: Result<(), BinlogError>)
        ensures
            final(self).moved(old(self), seek_from(old(self).pos(), offset as int)),
            r == seek_from(old(self).pos(), offset as int).result,
    {
        match self.pos.checked_add_signed(offset) {
            Some(target) => {
                self.pos = target;
                Ok(())
            },
            None => Err(BinlogError::InvalidSeek),
        }
    }

    /// Reads a packed number.
    pub fn read_packed_number(&mut self) -> (r: Result<u64, BinlogError>)
        ensures
            final(self).moved(old(self), packed_number_at(old(self).bytes(), old(self).pos())),
            match r {
                Ok(v) => packed_number_at(old(self).bytes(), old(self).pos()).result == Ok::<
                    nat,
                    BinlogError,
                >(v as nat),
                Err(e) => packed_number_at(old(self).bytes(), old(self).pos()).result == Err::<
                    nat,
                    BinlogError,
                >(e),
            },
    {
        let first: u8 = self.read_u8()?;
        if first < 0xfb {
            Ok(first as u64)
        } else if first == 0xfc {
            let v: u16 = self.read_u16()?;
            Ok(v as u64)
        } else if first == 0xfd {
            let v: u32 = self.read_u24()?;
            Ok(v as u64)
        } else if first == 0xfe {
            self.read_u64()
        } else {
            Err(BinlogError::InvalidPackedNumber(first))
        }
    }

    /// Reads a string of `size` bytes and skips the terminator behind it.
    pub fn read_string_without_terminator(&mut self, size: usize) -> (r: Result<
        String,
        BinlogError,
    >)
        ensures
            final(self).moved(
                old(self),
                terminated_string_at(old(self).bytes(), old(self).pos(), size as nat),
            ),
            match r {
                Ok(v) => terminated_string_at(
                    old(self).bytes(),
                    old(self).pos(),
                    size as nat,
                ).result == Ok::<Seq<char>, BinlogError>(v@),
                Err(e) => terminated_string_at(
                    old(self).bytes(),
                    old(self).pos(),
                    size as nat,
                ).result == Err::<Seq<char>, BinlogError>(e),
            },
    {
        let rest = self.rest();
        if rest.len() < size {
            return Err(self.fail_at_end());
        }
        let text = slice_to_vec(slice_subrange(rest, 0, size));
        assert(text@ =~= bytes_at(self.bytes(), self.pos(), size as nat));
        self.pos = self.pos + size as u64;
        self.seek_current(1)?;
        decode(text)
    }

    /// Reads a string up to the next zero byte, and that byte; without one, up to the end.
    pub fn read_null_terminated_string(&mut self) -> (r: Result<String, BinlogError>)
        ensures
            final(self).moved(
                old(self),
                null_terminated_string_at(old(self).bytes(), old(self).pos()),
            ),
            match r {
                Ok(v) => null_terminated_string_at(
                    old(self).bytes(),
                    old(self).pos(),
                ).result == Ok::<Seq<char>, BinlogError>(v@),
                Err(e) => null_terminated_string_at(
                    old(self).bytes(),
                    old(self).pos(),
                ).result == Err::<Seq<char>, BinlogError>(e),
            },
    {
        let rest = self.rest();
        let mut n: usize = 0;
        while n < rest.len() && rest[n] != 0
            invariant
                n <= rest@.len(),
                n > 0 ==> self.pos() + n <= self.bytes().len(),
                rest@ == bytes_from(self.bytes(), self.pos()),
                zero_from(self.bytes(), self.pos()) == zero_from(
                    self.bytes(),
                    self.pos() + n as nat,
                ),
            decreases rest@.len() - n,
        {
            n = n + 1;
        }
        let text = slice_to_vec(slice_subrange(rest, 0, n));
        assert(zero_from(self.bytes(), self.pos()) == self.pos() + n);
        assert(text@ =~= bytes_at(self.bytes(), self.pos(), n as nat));
        self.pos = self.pos + n as u64;
        if n < rest.len() {
            self.pos = self.pos + 1;
        }
        decode(text)
    }

    /// Reads all bytes that are left as a string.
    pub fn read_to_string(&mut self) -> (r: Result<String, BinlogError>)
        ensures
            final(self).moved(old(self), rest_string_at(old(self).bytes(), old(self).pos())),
            match r {
                Ok(v) => rest_string_at(old(self).bytes(), old(self).pos()).result == Ok::<
                    Seq<char>,
                    BinlogError,
                >(v@),
                Err(e) => rest_string_at(old(self).bytes(), old(self).pos()).result == Err::<
                    Seq<char>,
                    BinlogError,
                >(e),
            },
    {
        let rest = self.rest();
        let text = decode(slice_to_vec(rest))?;
        self.pos = self.pos + rest.len() as u64;
        Ok(text)
    }
}

} // verus!

//! The integer reads of `byteorder::ReadBytesExt`, in little-endian order, on a byte slice.
//!
//! Each function here is believed, not proved: its body is the one outside call that it is
//! named after. A slice as a reader hands out its bytes from the front, and ends with them.

use byteorder::{LittleEndian, ReadBytesExt};
use vstd::prelude::*;

use crate::bytes::{le_nat, signed_64};

verus! {

/// The error of a reader. Nothing is said of what is inside one.
#[verifier::external_type_specification]
#[verifier::external_body]
pub struct ExIoError(std::io::Error);

/// `ReadBytesExt::read_u8`: the first byte, or an error when there is none.
#[verifier::external_body]
pub(crate) fn read_u8(bytes: &[u8]) -> (r: Result<u8, std::io::Error>)
    ensures
        r is Ok <==> bytes@.len() >= 1,
        r matches Ok(v) ==> v == bytes@[0],
{
    let mut reader: &[u8] = bytes;
    reader.read_u8()
}

/// `ReadBytesExt::read_u16::<LittleEndian>`: the number in the first 2 bytes, least
/// significant byte first, or an error when there are fewer.
#[verifier::external_body]
pub(crate) fn read_u16(bytes: &[u8]) -> (r: Result<u16, std::io::Error>)
    ensures
        r is Ok <==> bytes@.len() >= 2,
        r matches Ok(v) ==> v as nat == le_nat(bytes@.take(2)),
{
    let mut reader: &[u8] = bytes;
    reader.read_u16::<LittleEndian>()
}

/// `ReadBytesExt::read_u24::<LittleEndian>`: the number in the first 3 bytes, least
/// significant byte first, or an error when there are fewer.
#[verifier::external_body]
pub(crate) fn read_u24(bytes: &[u8]) -> (r: Result<u32, std::io::Error>)
    ensures
        r is Ok <==> bytes@.len() >= 3,
        r matches Ok(v) ==> v as nat == le_nat(bytes@.take(3)),
{
    let mut reader: &[u8] = bytes;
    reader.read_u24::<LittleEndian>()
}

/// `ReadBytesExt::read_u32::<LittleEndian>`: the number in the first 4 bytes, least
/// significant byte first, or an error when there are fewer.
#[verifier::external_body]
pub(crate) fn read_u32(bytes: &[u8]) -> (r: Result<u32, std::io::Error>)
    ensures
        r is Ok <==> bytes@.len() >= 4,
        r matches Ok(v) ==> v as nat == le_nat(bytes@.take(4)),
{
    let mut reader: &[u8] = bytes;
    reader.read_u32::<LittleEndian>()
}

/// `ReadBytesExt::read_u64::<LittleEndian>`: the number in the first 8 bytes, least
/// significant byte first, or an error when there are fewer.
#[verifier::external_body]
pub(crate) fn read_u64(bytes: &[u8]) -> (r: Result<u64, std::io::Error>)
    ensures
        r is Ok <==> bytes@.len() >= 8,
        r matches Ok(v) ==> v as nat == le_nat(bytes@.take(8)),
{
    let mut reader: &[u8] = bytes;
    reader.read_u64::<LittleEndian>()
}

/// `ReadBytesExt::read_i64::<LittleEndian>`: the first 8 bytes, least significant byte
/// first, as a number in two's complement, or an error when there are fewer.
#[verifier::external_body]
pub(crate) fn read_i64(bytes: &[u8]) -> (r: Result<i64, std::io::Error>)
    ensures
        r is Ok <==> bytes@.len() >= 8,
        r matches Ok(v) ==> v as int == signed_64(le_nat(bytes@.take(8))),
{
    let mut reader: &[u8] = bytes;
    reader.read_i64::<LittleEndian>()
}

} // verus!

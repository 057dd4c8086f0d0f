//! Text: UTF-8, hexadecimal and decimal.

use vstd::prelude::*;
use vstd::utf8::{decode_utf8, valid_utf8};

use crate::error::BinlogError;

verus! {

/// The error of [`String::from_utf8`]. Nothing is said of what is inside one.
#[verifier::external_type_specification]
#[verifier::external_body]
pub struct ExFromUtf8Error(std::string::FromUtf8Error);

/// `String::from_utf8` succeeds exactly on UTF-8, with the characters that it encodes.
pub assume_specification[ String::from_utf8 ](vec: Vec<u8>) -> (r: Result<
    String,
    std::string::FromUtf8Error,
>)
    ensures
        r is Ok <==> valid_utf8(vec@),
        r matches Ok(s) ==> s@ == decode_utf8(vec@),
;

/// `String::push` appends one character.
pub assume_specification[ String::push ](s: &mut String, ch: char)
    ensures
        final(s)@ == old(s)@.push(ch),
;

/// The characters that `b` encodes in UTF-8, or the error where it encodes none.
pub open spec fn utf8_text(b: Seq<u8>) -> Result<Seq<char>, BinlogError> {
    if valid_utf8(b) {
        Ok(decode_utf8(b))
    } else {
        Err(BinlogError::InvalidUtf8)
    }
}

/// Decodes UTF-8.
pub fn decode(bytes: Vec<u8>) -> (r: Result<String, BinlogError>)
    ensures
        match r {
            Ok(s) => utf8_text(bytes@) == Ok::<Seq<char>, BinlogError>(s@),
            Err(e) => utf8_text(bytes@) == Err::<Seq<char>, BinlogError>(e),
        },
{
    match String::from_utf8(bytes) {
        Ok(s) => Ok(s),
        Err(_) => Err(BinlogError::InvalidUtf8),
    }
}

/// The digit that stands for `n`, below 16, in lower-case hexadecimal.
pub open spec fn hex_digit(n: int) -> char {
    if n < 10 {
        ('0' as int + n) as char
    } else {
        ('a' as int + (n - 10)) as char
    }
}

/// Two hexadecimal digits for each byte, in order.
pub open spec fn hex_text(s: Seq<u8>) -> Seq<char>
    decreases s.len(),
{
    if s.len() == 0 {
        Seq::empty()
    } else {
        hex_text(s.drop_last()) + seq![
            hex_digit(s.last() as int / 16),
            hex_digit(s.last() as int % 16),
        ]
    }
}

/// The digits of `n` in base ten, without leading zeros.
pub open spec fn decimal_text(n: nat) -> Seq<char>
    decreases n,
{
    if n < 10 {
        seq![('0' as int + n) as char]
    } else {
        decimal_text(n / 10).push(('0' as int + n % 10) as char)
    }
}

/// Different byte strings of one length have different hexadecimal texts.
pub proof fn lemma_hex_injective(a: Seq<u8>, b: Seq<u8>)
    requires
        a.len() == b.len(),
        hex_text(a) == hex_text(b),
    ensures
        a == b,
    decreases a.len(),
{
    if a.len() > 0 {
        let x = hex_text(a);
        let y = hex_text(b);
        lemma_hex_len(a.drop_last());
        lemma_hex_len(b.drop_last());
        let n = 2 * (a.len() - 1);
        assert(hex_text(a.drop_last()) =~= x.take(n));
        assert(hex_text(b.drop_last()) =~= y.take(n));
        lemma_hex_injective(a.drop_last(), b.drop_last());
        assert(x[n] == hex_digit(a.last() as int / 16) && x[n + 1] == hex_digit(
            a.last() as int % 16,
        ));
        assert(y[n] == hex_digit(b.last() as int / 16) && y[n + 1] == hex_digit(
            b.last() as int % 16,
        ));
        assert(a.last() == b.last());
        assert(a =~= a.drop_last().push(a.last()));
        assert(b =~= b.drop_last().push(b.last()));
    } else {
        assert(a =~= b);
    }
}

/// Hexadecimal takes two characters for each byte.
pub proof fn lemma_hex_len(s: Seq<u8>)
    ensures
        hex_text(s).len() == 2 * s.len(),
    decreases s.len(),
{
    if s.len() > 0 {
        lemma_hex_len(s.drop_last());
    }
}

/// Decimal text is not empty, and holds nothing but digits.
pub proof fn lemma_decimal_digits(n: nat)
    ensures
        decimal_text(n).len() >= 1,
        forall|i: int|
            0 <= i < decimal_text(n).len() ==> '0' <= #[trigger] decimal_text(n)[i] <= '9',
    decreases n,
{
    if n >= 10 {
        lemma_decimal_digits(n / 10);
    }
}

/// Different numbers have different decimal texts.
pub proof fn lemma_decimal_injective(m: nat, n: nat)
    requires
        decimal_text(m) == decimal_text(n),
    ensures
        m == n,
    decreases m,
{
    let digit_m = ('0' as int + m % 10) as char;
    let digit_n = ('0' as int + n % 10) as char;
    assert(decimal_text(m).last() == digit_m);
    assert(decimal_text(n).last() == digit_n);
    assert(digit_m as int == '0' as int + m % 10);
    assert(digit_n as int == '0' as int + n % 10);
    lemma_decimal_digits(m / 10);
    lemma_decimal_digits(n / 10);
    if m >= 10 && n >= 10 {
        assert(decimal_text(m).drop_last() =~= decimal_text(m / 10));
        assert(decimal_text(n).drop_last() =~= decimal_text(n / 10));
        lemma_decimal_injective(m / 10, n / 10);
    }
}

fn nibble_char(n: u8) -> (c: char)
    requires
        n < 16,
    ensures
        c == hex_digit(n as int),
{
    if n < 10 {
        (48 + n) as char
    } else {
        (87 + n) as char
    }
}

/// Appends a byte as two lower-case hexadecimal digits.
pub fn push_hex(out: &mut String, byte: u8)
    ensures
        final(out)@ == old(out)@ + seq![hex_digit(byte as int / 16), hex_digit(byte as int % 16)],
{
    out.push(nibble_char(byte / 16));
    out.push(nibble_char(byte % 16));
    assert(out@ =~= old(out)@ + seq![hex_digit(byte as int / 16), hex_digit(byte as int % 16)]);
}

/// Appends a number in base ten.
pub fn push_decimal(out: &mut String, n: u64)
    ensures
        final(out)@ == old(out)@ + decimal_text(n as nat),
    decreases n,
{
    if n >= 10 {
        push_decimal(out, n / 10);
    }
    out.push((48 + (n % 10) as u8) as char);
    assert(out@ =~= old(out)@ + decimal_text(n as nat));
}

} // verus!

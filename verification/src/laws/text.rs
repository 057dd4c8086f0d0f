//! Laws of text: what a reader of it finds.

use vstd::prelude::*;
use vstd::utf8::{
    decode_utf8, decode_utf8_encode_utf8, encode_utf8, encode_utf8_decode_utf8,
    encode_utf8_valid_utf8, valid_utf8,
};

use crate::error::BinlogError;
use crate::text::{
    decimal_text, hex_digit, hex_text, lemma_decimal_digits, lemma_hex_len, utf8_text,
};

verus! {

/// The number that a reader makes of digits in base ten.
pub open spec fn decimal_value(t: Seq<char>) -> int
    decreases t.len(),
{
    if t.len() == 0 {
        0
    } else {
        10 * decimal_value(t.drop_last()) + (t.last() as int - '0' as int)
    }
}

/// Whether `t` is how one writes `n` in base ten: digits only, at least one, none of them a
/// leading zero, and a reader makes `n` of them.
pub open spec fn is_decimal(t: Seq<char>, n: int) -> bool {
    &&& t.len() > 0
    &&& forall|i: int| 0 <= i < t.len() ==> '0' <= #[trigger] t[i] <= '9'
    &&& t.len() > 1 ==> t[0] != '0'
    &&& decimal_value(t) == n
}

/// Every number is written so that a reader makes the same number of it.
pub proof fn lemma_decimal_text_is_read_back(n: nat)
    ensures
        is_decimal(decimal_text(n), n as int),
        n > 0 ==> decimal_text(n)[0] != '0',
    decreases n,
{
    lemma_decimal_digits(n);
    let digit = ('0' as int + n % 10) as char;
    assert(digit as int == '0' as int + n % 10);
    if n < 10 {
        assert(decimal_text(n).drop_last() =~= Seq::empty());
        reveal_with_fuel(decimal_value, 2);
        assert(decimal_value(Seq::<char>::empty()) == 0);
    } else {
        lemma_decimal_text_is_read_back(n / 10);
        assert(decimal_text(n).drop_last() =~= decimal_text(n / 10));
        assert(decimal_text(n)[0] == decimal_text(n / 10)[0]);
    }
}

/// A digit more is the number times ten, and the digit.
pub proof fn lemma_decimal_text_grows_by_digits(n: nat, d: nat)
    requires
        d < 10,
    ensures
        decimal_text(d).len() == 1,
        decimal_text(d)[0] as int == '0' as int + d,
        n > 0 ==> decimal_text(10 * n + d) == decimal_text(n) + decimal_text(d),
{
    assert((10 * n + d) / 10 == n && (10 * n + d) % 10 == d) by (nonlinear_arith)
        requires
            d < 10,
    ;
    if n > 0 {
        assert(decimal_text(10 * n + d) =~= decimal_text(n) + decimal_text(d));
    }
}

/// The hexadecimal digits are the sixteen characters that one expects.
pub proof fn lemma_hex_digits(n: int)
    requires
        0 <= n < 16,
    ensures
        hex_digit(n) == "0123456789abcdef"@[n],
{
    reveal_strlit("0123456789abcdef");
}

/// Characters `2i` and `2i + 1` of hexadecimal text are the upper and the lower digit of
/// byte `i`.
pub proof fn lemma_hex_text_goes_byte_by_byte(b: Seq<u8>, i: int)
    requires
        0 <= i < b.len(),
    ensures
        hex_text(b).len() == 2 * b.len(),
        hex_text(b)[2 * i] == "0123456789abcdef"@[b[i] as int / 16],
        hex_text(b)[2 * i + 1] == "0123456789abcdef"@[b[i] as int % 16],
    decreases b.len(),
{
    lemma_hex_len(b);
    lemma_hex_len(b.drop_last());
    lemma_hex_digits(b[i] as int / 16);
    lemma_hex_digits(b[i] as int % 16);
    if i < b.len() - 1 {
        lemma_hex_text_goes_byte_by_byte(b.drop_last(), i);
        assert(b.drop_last()[i] == b[i]);
    }
}

/// Bytes are accepted as the text `t` exactly if they are the UTF-8 encoding of `t`; and there is
/// one error for all that encode no text.
pub proof fn lemma_text_is_what_was_encoded(b: Seq<u8>, t: Seq<char>)
    ensures
        utf8_text(b) == Ok::<Seq<char>, BinlogError>(t) <==> encode_utf8(t) == b,
        utf8_text(b) matches Err(e) ==> e == BinlogError::InvalidUtf8,
        utf8_text(b) matches Ok(u) ==> encode_utf8(u) == b,
{
    if valid_utf8(b) {
        decode_utf8_encode_utf8(b);
    }
    encode_utf8_valid_utf8(t);
    encode_utf8_decode_utf8(t);
    if encode_utf8(t) == b {
        assert(decode_utf8(b) == t);
    }
}

} // verus!

use binlog_events::cursor::Cursor;
use binlog_events::error::BinlogError;
use binlog_events::text::{decode, push_decimal, push_hex};

#[test]
fn integers_are_little_endian() {
    let buf: Vec<u8> = (1..=27).collect();
    let mut cursor = Cursor::new(&buf);
    assert_eq!(cursor.available(), 27);
    assert_eq!(cursor.read_u8(), Ok(0x01));
    assert_eq!(cursor.read_u16(), Ok(0x0302));
    assert_eq!(cursor.read_u24(), Ok(0x060504));
    assert_eq!(cursor.read_u32(), Ok(0x0a090807));
    assert_eq!(cursor.read_u64(), Ok(0x1211100f0e0d0c0b));
    assert_eq!(cursor.read_7_bytes(), Ok([19, 20, 21, 22, 23, 24, 25]));
    assert_eq!(cursor.position(), 25);
    assert_eq!(cursor.available(), 2);
    assert_eq!(cursor.read_u24(), Err(BinlogError::UnexpectedEof));
    assert_eq!(cursor.position(), 27);
}

#[test]
fn signed_integers_are_in_twos_complement() {
    let mut buf = vec![0xffu8; 8];
    buf.extend_from_slice(&[0, 0, 0, 0, 0, 0, 0, 0x80]);
    let mut cursor = Cursor::new(&buf);
    assert_eq!(cursor.read_i64(), Ok(-1));
    assert_eq!(cursor.read_i64(), Ok(i64::MIN));
    assert_eq!(cursor.read_i64(), Err(BinlogError::UnexpectedEof));
}

#[test]
fn short_reads_end_at_the_end() {
    let buf = vec![1u8];
    let mut cursor = Cursor::new(&buf);
    assert_eq!(cursor.read_u16(), Err(BinlogError::UnexpectedEof));
    assert_eq!(cursor.position(), 1);
    cursor.set_position(9);
    assert_eq!(cursor.available(), 0);
    assert_eq!(cursor.read_u8(), Err(BinlogError::UnexpectedEof));
    assert_eq!(cursor.position(), 1);
    assert_eq!(cursor.read_u32(), Err(BinlogError::UnexpectedEof));
    assert_eq!(cursor.read_u64(), Err(BinlogError::UnexpectedEof));
    assert_eq!(cursor.read_7_bytes(), Err(BinlogError::UnexpectedEof));
}

#[test]
fn packed_numbers() {
    let cases: Vec<(Vec<u8>, Result<u64, BinlogError>)> = vec![
        (vec![0], Ok(0)),
        (vec![250], Ok(250)),
        (vec![0xfc, 0xfb, 0], Ok(251)),
        (vec![0xfc, 0xff, 0xff], Ok(65_535)),
        (vec![0xfd, 0, 0, 1], Ok(65_536)),
        (vec![0xfe, 1, 2, 3, 4, 5, 6, 7, 8], Ok(0x0807060504030201)),
        (vec![0xfb], Err(BinlogError::InvalidPackedNumber(0xfb))),
        (vec![0xff], Err(BinlogError::InvalidPackedNumber(0xff))),
        (vec![], Err(BinlogError::UnexpectedEof)),
        (vec![0xfc, 1], Err(BinlogError::UnexpectedEof)),
        (vec![0xfd, 1, 2], Err(BinlogError::UnexpectedEof)),
        (vec![0xfe, 1, 2, 3, 4, 5, 6, 7], Err(BinlogError::UnexpectedEof)),
    ];
    for (buf, expected) in cases {
        let mut cursor = Cursor::new(&buf);
        assert_eq!(cursor.read_packed_number(), expected);
        assert_eq!(cursor.position(), buf.len() as u64);
    }
}

#[test]
fn seeks() {
    let buf = vec![0u8; 4];
    let mut cursor = Cursor::new(&buf);
    assert_eq!(cursor.seek_current(10), Ok(()));
    assert_eq!(cursor.position(), 10);
    assert_eq!(cursor.seek_current(-7), Ok(()));
    assert_eq!(cursor.position(), 3);
    assert_eq!(cursor.seek_current(-4), Err(BinlogError::InvalidSeek));
    assert_eq!(cursor.position(), 3);
    cursor.set_position(u64::MAX);
    assert_eq!(cursor.seek_current(1), Err(BinlogError::InvalidSeek));
    assert_eq!(cursor.seek_current(-1), Ok(()));
}

#[test]
fn strings() {
    let buf = b"db\0one\0two".to_vec();
    let mut cursor = Cursor::new(&buf);
    assert_eq!(cursor.read_string_without_terminator(2).unwrap(), "db");
    assert_eq!(cursor.position(), 3);
    assert_eq!(cursor.read_null_terminated_string().unwrap(), "one");
    assert_eq!(cursor.position(), 7);
    assert_eq!(
        cursor.read_string_without_terminator(4),
        Err(BinlogError::UnexpectedEof)
    );
    cursor.set_position(7);
    assert_eq!(cursor.read_null_terminated_string().unwrap(), "two");
    assert_eq!(cursor.position(), 10);
    cursor.set_position(7);
    assert_eq!(cursor.read_to_string().unwrap(), "two");
    assert_eq!(cursor.read_to_string().unwrap(), "");
    cursor.set_position(12);
    assert_eq!(cursor.read_null_terminated_string().unwrap(), "");
    assert_eq!(cursor.read_string_without_terminator(0).unwrap(), "");
    assert_eq!(cursor.read_to_string().unwrap(), "");
    assert_eq!(cursor.position(), 13);
}

#[test]
fn text_is_utf8() {
    assert_eq!(decode(vec![0xc3, 0xa9, b'!']).unwrap(), "\u{e9}!");
    assert_eq!(decode(vec![0xc3]), Err(BinlogError::InvalidUtf8));
    assert_eq!(decode(vec![0xed, 0xa0, 0x80]), Err(BinlogError::InvalidUtf8));
}

#[test]
fn numbers_are_rendered() {
    let mut out = String::from("x");
    push_hex(&mut out, 0x0a);
    push_hex(&mut out, 0xf9);
    push_decimal(&mut out, 0);
    push_decimal(&mut out, 1_002_003);
    assert_eq!(out, "x0af901002003");
}

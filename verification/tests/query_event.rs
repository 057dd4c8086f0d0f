use binlog_events::cursor::Cursor;
use binlog_events::error::BinlogError;
use binlog_events::event::query_event::{
    parse_status_vars, QueryEvent, Q_HRNOW_CODE, Q_MICROSECONDS_CODE,
};

fn build_query(status_vars: Vec<u8>, schema: &str, query: &str) -> Vec<u8> {
    let mut buf = Vec::new();
    buf.extend_from_slice(&7u32.to_le_bytes()); // thread_id
    buf.extend_from_slice(&0u32.to_le_bytes()); // exec_time
    buf.push(schema.len() as u8); // schema length
    buf.extend_from_slice(&0u16.to_le_bytes()); // error_code
    buf.extend_from_slice(&(status_vars.len() as u16).to_le_bytes());
    buf.extend(status_vars);
    buf.extend_from_slice(schema.as_bytes());
    buf.push(0); // null terminator
    buf.extend_from_slice(query.as_bytes());
    buf
}

fn parse(buf: Vec<u8>) -> QueryEvent {
    let mut cursor = Cursor::new(&buf);
    QueryEvent::parse(&mut cursor).unwrap()
}

/// Parses a block that is the whole buffer.
fn walk(vars: &[u8]) -> (Result<Option<u32>, BinlogError>, u64) {
    let buf = vars.to_vec();
    let mut cursor = Cursor::new(&buf);
    let r = parse_status_vars(&mut cursor, buf.len());
    (r, cursor.position())
}

#[test]
fn no_status_vars() {
    let ev = parse(build_query(vec![], "db", "BEGIN"));
    assert_eq!(ev.thread_id, 7);
    assert_eq!(ev.schema, "db");
    assert_eq!(ev.query, "BEGIN");
    assert!(ev.microsecond_fraction.is_none());
}

#[test]
fn mysql_q_microseconds() {
    let mut sv = vec![0x00, 1, 0, 0, 0]; // Q_FLAGS2 = 1, ignored
    sv.push(Q_MICROSECONDS_CODE);
    sv.extend_from_slice(&[0x40, 0xe2, 0x01]); // 123456 little-endian u24
    let ev = parse(build_query(sv, "nova", "BEGIN"));
    assert_eq!(ev.microsecond_fraction, Some(123_456));
    assert_eq!(ev.schema, "nova");
    assert_eq!(ev.query, "BEGIN");
}

#[test]
fn mariadb_q_hrnow() {
    let mut sv = vec![Q_HRNOW_CODE];
    sv.extend_from_slice(&[0x40, 0xe2, 0x01]);
    let ev = parse(build_query(sv, "x", "COMMIT"));
    assert_eq!(ev.microsecond_fraction, Some(123_456));
}

#[test]
fn unknown_tag_skips_block_cleanly() {
    let sv = vec![0x7f, 0xaa, 0xbb, 0xcc]; // unknown tag, then noise
    let ev = parse(build_query(sv, "db", "x"));
    assert_eq!(ev.schema, "db");
    assert_eq!(ev.query, "x");
    assert!(ev.microsecond_fraction.is_none());
}

#[test]
fn every_header_field_is_read() {
    let mut buf = Vec::new();
    buf.extend_from_slice(&0x01020304u32.to_le_bytes());
    buf.extend_from_slice(&0xfffefdfcu32.to_le_bytes());
    buf.push(0);
    buf.extend_from_slice(&1062u16.to_le_bytes());
    buf.extend_from_slice(&[0, 0, 0]);
    let mut cursor = Cursor::new(&buf);
    let ev = QueryEvent::parse(&mut cursor).unwrap();
    assert_eq!(ev.thread_id, 0x01020304);
    assert_eq!(ev.exec_time, 0xfffefdfc);
    assert_eq!(ev.error_code, 1062);
    assert_eq!(ev.schema, "");
    assert_eq!(ev.query, "");
    assert_eq!(cursor.position(), 14);
}

#[test]
fn every_known_tag_is_skipped_by_its_size() {
    let entries: Vec<Vec<u8>> = vec![
        vec![0x00, 1, 2, 3, 4],
        vec![0x01, 1, 2, 3, 4, 5, 6, 7, 8],
        vec![0x02, 3, b's', b't', b'd', 0],
        vec![0x03, 1, 2, 3, 4],
        vec![0x04, 1, 2, 3, 4, 5, 6],
        vec![0x05, 3, b'U', b'T', b'C'],
        vec![0x06, 3, b's', b't', b'd'],
        vec![0x07, 1, 2],
        vec![0x08, 1, 2],
        vec![0x09, 1, 2, 3, 4, 5, 6, 7, 8],
        vec![0x0a, 1, 2, 3, 4],
        vec![0x0b, 2, b'm', b'e', 0xfc, 3, 0, b'b', b'o', b'x'],
        vec![0x0c, 2, b'a', 0, b'b', b'c', 0],
        vec![0x0c, 254],
        vec![0x10, 1],
        vec![0x11, 1, 2, 3, 4, 5, 6, 7, 8],
        vec![0x12, 1, 2],
        vec![0x13, 1],
        vec![0x14, 1],
    ];
    let mut block = Vec::new();
    for entry in &entries {
        let mut sv = entry.clone();
        sv.extend_from_slice(&[Q_MICROSECONDS_CODE, 1, 0, 0]);
        assert_eq!(walk(&sv), (Ok(Some(1)), sv.len() as u64));
        block.extend_from_slice(entry);
    }
    block.extend_from_slice(&[Q_HRNOW_CODE, 0x3f, 0x42, 0x0f]);
    let ev = parse(build_query(block, "schema", "SELECT 1"));
    assert_eq!(ev.microsecond_fraction, Some(999_999));
    assert_eq!(ev.schema, "schema");
    assert_eq!(ev.query, "SELECT 1");
}

#[test]
fn last_fraction_wins() {
    let sv = vec![Q_MICROSECONDS_CODE, 1, 0, 0, Q_HRNOW_CODE, 2, 0, 0];
    assert_eq!(walk(&sv), (Ok(Some(2)), 8));
}

#[test]
fn fraction_before_an_unknown_tag_is_kept() {
    let sv = vec![Q_MICROSECONDS_CODE, 1, 0, 0, 0x15, Q_HRNOW_CODE, 2, 0, 0];
    assert_eq!(walk(&sv), (Ok(Some(1)), 9));
}

#[test]
fn entry_may_lead_past_the_block() {
    // A block of 2 bytes whose only entry claims 8 bytes: the schema still starts at byte 15.
    let ev = parse(build_query(vec![0x01, 0xff], "db", "x"));
    assert_eq!(ev.schema, "db");
    assert_eq!(ev.query, "x");
}

#[test]
fn block_past_the_buffer_without_schema() {
    let mut buf = build_query(vec![0x7f], "", "");
    buf[11] = 200;
    let mut cursor = Cursor::new(&buf);
    let ev = QueryEvent::parse(&mut cursor).unwrap();
    assert_eq!(ev.schema, "");
    assert_eq!(ev.query, "");
    assert_eq!(cursor.position(), 214);
}

#[test]
fn truncated_entries_are_errors() {
    for sv in [
        vec![0x02],
        vec![0x05],
        vec![0x06],
        vec![0x0b],
        vec![0x0b, 1, 7, 0xfe, 1],
        vec![0x0c],
        vec![Q_MICROSECONDS_CODE, 1, 2],
        vec![0x0b, 0xfd, 1, 2],
    ] {
        assert_eq!(walk(&sv), (Err(BinlogError::UnexpectedEof), sv.len() as u64));
    }
}

#[test]
fn block_that_is_cut_short_is_an_error() {
    let buf = vec![0x07, 1, 2];
    let mut cursor = Cursor::new(&buf);
    assert_eq!(
        parse_status_vars(&mut cursor, 4),
        Err(BinlogError::UnexpectedEof)
    );
}

#[test]
fn bad_name_length_is_an_error() {
    assert_eq!(walk(&[0x0b, 0xff]), (Err(BinlogError::InvalidPackedNumber(0xff)), 2));
    assert_eq!(
        walk(&[0x0b, 0, 0xfb, 1]),
        (Err(BinlogError::InvalidPackedNumber(0xfb)), 3)
    );
}

#[test]
fn bad_database_name_is_an_error() {
    assert_eq!(walk(&[0x0c, 1, 0xff, 0]), (Err(BinlogError::InvalidUtf8), 4));
}

#[test]
fn database_name_may_end_with_the_buffer() {
    assert_eq!(walk(&[0x0c, 3, b'a', 0, b'b']), (Ok(None), 5));
}

#[test]
fn seek_before_the_buffer_is_an_error() {
    let mut sv = vec![0x0b, 0xfe];
    sv.extend_from_slice(&(-11i64).to_le_bytes());
    assert_eq!(walk(&sv), (Err(BinlogError::InvalidSeek), 10));
}

#[test]
fn seek_backwards_is_followed() {
    // The length -10 leads back to the tag, which is then read as the second length, 11.
    let mut sv = vec![0x0b, 0xfe];
    sv.extend_from_slice(&(-10i64).to_le_bytes());
    sv.extend_from_slice(&[0, 0, Q_MICROSECONDS_CODE, 5, 0, 0]);
    assert_eq!(walk(&sv), (Ok(Some(5)), 16));
}

#[test]
fn endless_walk_is_an_error() {
    // An empty user name and a host name of length -11: back to the tag, for ever.
    let mut sv = vec![0x0b, 0, 0xfe];
    sv.extend_from_slice(&(-11i64).to_le_bytes());
    assert_eq!(walk(&sv).0, Err(BinlogError::EndlessStatusVars));
}

#[test]
fn malformed_text_is_an_error() {
    let mut buf = build_query(vec![], "db", "x");
    buf[13] = 0xff;
    let mut cursor = Cursor::new(&buf);
    assert_eq!(
        QueryEvent::parse(&mut cursor).err(),
        Some(BinlogError::InvalidUtf8)
    );
    assert_eq!(cursor.position(), 16);

    let mut buf = build_query(vec![], "db", "x");
    buf[16] = 0xff;
    let mut cursor = Cursor::new(&buf);
    assert_eq!(
        QueryEvent::parse(&mut cursor).err(),
        Some(BinlogError::InvalidUtf8)
    );
    assert_eq!(cursor.position(), 16);
}

#[test]
fn truncated_query_events_are_errors() {
    let whole = build_query(vec![], "schema", "");
    for n in 0..19usize {
        let buf = whole[..n].to_vec();
        let mut cursor = Cursor::new(&buf);
        assert_eq!(
            QueryEvent::parse(&mut cursor).err(),
            Some(BinlogError::UnexpectedEof)
        );
        assert_eq!(cursor.position(), n as u64);
    }
}

#[test]
fn statement_may_hold_any_text() {
    let ev = parse(build_query(vec![], "d\u{e9}p\u{f4}t", "SELECT '\u{1f980}'"));
    assert_eq!(ev.schema, "d\u{e9}p\u{f4}t");
    assert_eq!(ev.query, "SELECT '\u{1f980}'");
}

#[test]
fn rest_does_not_depend_on_status_vars() {
    let a = parse(build_query(vec![Q_MICROSECONDS_CODE, 1, 0, 0], "db", "BEGIN"));
    let b = parse(build_query(vec![0x7f, 9, 9, 9], "db", "BEGIN"));
    assert_eq!(a.microsecond_fraction, Some(1));
    assert_eq!(b.microsecond_fraction, None);
    assert_eq!((a.thread_id, a.exec_time, a.error_code), (b.thread_id, b.exec_time, b.error_code));
    assert_eq!((a.schema, a.query), (b.schema, b.query));
}

#[test]
fn long_walks_are_walked_to_the_end() {
    let mut sv = Vec::new();
    for _ in 0..32_000 {
        sv.extend_from_slice(&[0x13, 1]);
    }
    sv.extend_from_slice(&[Q_MICROSECONDS_CODE, 7, 0, 0]);
    let ev = parse(build_query(sv, "db", "x"));
    assert_eq!(ev.microsecond_fraction, Some(7));
    assert_eq!(ev.schema, "db");
}

#[test]
fn query_event_ends_with_the_buffer() {
    let buf = build_query(vec![Q_HRNOW_CODE, 0x3f, 0x42, 0x0f], "db", "COMMIT");
    let mut cursor = Cursor::new(&buf);
    let ev = QueryEvent::parse(&mut cursor).unwrap();
    assert_eq!(cursor.position(), buf.len() as u64);
    assert_eq!(ev.microsecond_fraction, Some(999_999));
}

#[test]
fn fraction_is_below_a_million() {
    for tag in [Q_MICROSECONDS_CODE, Q_HRNOW_CODE] {
        assert_eq!(walk(&[tag, 0x3f, 0x42, 0x0f]), (Ok(Some(999_999)), 4));
        assert_eq!(walk(&[tag, 0x40, 0x42, 0x0f]), (Ok(None), 4));
        assert_eq!(walk(&[tag, 0xff, 0xff, 0xff]), (Ok(None), 4));
    }
    let ev = parse(build_query(vec![Q_HRNOW_CODE, 0xff, 0xff, 0xff], "db", "COMMIT"));
    assert_eq!(ev.microsecond_fraction, None);
    assert_eq!(ev.schema, "db");
    assert_eq!(ev.query, "COMMIT");
}

#[test]
fn number_that_is_no_fraction_overrules_nothing() {
    let sv = vec![Q_MICROSECONDS_CODE, 5, 0, 0, Q_HRNOW_CODE, 0x40, 0x42, 0x0f];
    assert_eq!(walk(&sv), (Ok(Some(5)), 8));
    let sv = vec![Q_HRNOW_CODE, 0x40, 0x42, 0x0f, Q_MICROSECONDS_CODE, 5, 0, 0];
    assert_eq!(walk(&sv), (Ok(Some(5)), 8));
}

#[test]
fn entry_in_front_of_a_block() {
    let other: Vec<Vec<u8>> = vec![
        vec![0x12, 9, 9],
        vec![0x0b, 1, b'u', 2, b'h', b'o'],
        vec![0x0c, 1, b'd', b'b', 0],
        vec![0x02, 1, b'x', 0],
    ];
    let blocks: Vec<Vec<u8>> = vec![
        vec![],
        vec![Q_MICROSECONDS_CODE, 3, 0, 0],
        vec![0x7f, 1, 2],
        vec![0x0b, 0xff],
        vec![0x0c, 1, 0xff, 0],
        vec![Q_HRNOW_CODE, 1],
    ];
    for block in &blocks {
        let (alone, _) = walk(block);
        for entry in &other {
            let mut sv = entry.clone();
            sv.extend_from_slice(block);
            assert_eq!(walk(&sv).0, alone);
        }
        let mut sv = vec![Q_HRNOW_CODE, 8, 0, 0];
        sv.extend_from_slice(block);
        assert_eq!(walk(&sv).0, alone.map(|found| found.or(Some(8))));
    }
}

#[test]
fn block_gives_the_same_anywhere() {
    let block = [0x05, 1, b'Z', Q_MICROSECONDS_CODE, 3, 0, 0, 0x13, 1];
    let alone = walk(&block).0;
    assert_eq!(alone, Ok(Some(3)));
    let mut buf = vec![0xeeu8; 40];
    buf.extend_from_slice(&block);
    let mut cursor = Cursor::new(&buf);
    cursor.set_position(40);
    assert_eq!(parse_status_vars(&mut cursor, block.len()), alone);
    assert_eq!(cursor.position(), 49);
}

#[test]
fn rest_does_not_depend_on_the_length_of_the_block() {
    let a = parse(build_query(vec![], "db", "BEGIN"));
    let b = parse(build_query(vec![0x13, 1, Q_HRNOW_CODE, 1, 0, 0, 0x7f, 9], "db", "BEGIN"));
    assert_eq!(a.microsecond_fraction, None);
    assert_eq!(b.microsecond_fraction, Some(1));
    assert_eq!((a.thread_id, a.exec_time, a.error_code), (b.thread_id, b.exec_time, b.error_code));
    assert_eq!((a.schema, a.query), (b.schema, b.query));
}

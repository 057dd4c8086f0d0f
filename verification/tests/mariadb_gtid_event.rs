use binlog_events::cursor::Cursor;
use binlog_events::error::BinlogError;
use binlog_events::event::mariadb_gtid_event::{
    MariadbGtidEvent, FL_GROUP_COMMIT_ID, FL_PREPARED_XA,
};

fn payload(extra: &[u8]) -> Vec<u8> {
    let mut buf = Vec::with_capacity(13 + extra.len());
    buf.extend_from_slice(&42u64.to_le_bytes()); // seq_no = 42
    buf.extend_from_slice(&7u32.to_le_bytes()); // domain_id = 7
    buf.push(0); // flags2 = 0
    buf.extend_from_slice(extra);
    buf
}

#[test]
fn parses_minimal_event() {
    let buf = payload(&[]);
    let mut cursor = Cursor::new(&buf);
    let ev = MariadbGtidEvent::parse(&mut cursor, 11).unwrap();
    assert_eq!(ev.sequence_number, 42);
    assert_eq!(ev.domain_id, 7);
    assert_eq!(ev.server_id, 11);
    assert_eq!(ev.flags, 0);
    assert_eq!(ev.commit_id, None);
    assert_eq!(ev.gtid, "7-11-42");
}

#[test]
fn parses_event_with_group_commit_id() {
    let mut buf = Vec::with_capacity(21);
    buf.extend_from_slice(&100u64.to_le_bytes()); // seq_no = 100
    buf.extend_from_slice(&3u32.to_le_bytes()); // domain_id = 3
    buf.push(FL_GROUP_COMMIT_ID);
    buf.extend_from_slice(&999u64.to_le_bytes()); // commit_id = 999
    let mut cursor = Cursor::new(&buf);
    let ev = MariadbGtidEvent::parse(&mut cursor, 5).unwrap();
    assert_eq!(ev.sequence_number, 100);
    assert_eq!(ev.commit_id, Some(999));
    assert_eq!(ev.gtid, "3-5-100");
}

#[test]
fn ignores_unknown_flag_bits_safely() {
    // Set a flag bit other than FL_GROUP_COMMIT_ID; the parser must not try to consume the
    // optional commit_id payload.
    let mut buf = Vec::with_capacity(13);
    buf.extend_from_slice(&1u64.to_le_bytes());
    buf.extend_from_slice(&0u32.to_le_bytes());
    buf.push(0x01); // FL_STANDALONE -- no extra bytes
    let mut cursor = Cursor::new(&buf);
    let ev = MariadbGtidEvent::parse(&mut cursor, 9).unwrap();
    assert_eq!(ev.flags, 0x01);
    assert!(ev.commit_id.is_none());
}

/// `FL_PREPARED_XA` (set on `XA PREPARE` transactions) is followed by `xid_format_id` + lenenc
/// gtrid + lenenc bqual. They are not exposed, but the parser must still succeed and surface
/// the basic GTID identity with those bytes left over.
#[test]
fn xa_prepared_flag_does_not_break_parser() {
    let mut buf = Vec::with_capacity(32);
    buf.extend_from_slice(&7u64.to_le_bytes()); // seq_no = 7
    buf.extend_from_slice(&2u32.to_le_bytes()); // domain_id = 2
    buf.push(FL_PREPARED_XA);
    // tail bytes the parser does not consume:
    buf.extend_from_slice(&1u32.to_le_bytes()); // xid_format_id
    buf.push(3); // gtrid length (lenenc)
    buf.extend_from_slice(b"gtr"); // gtrid bytes
    buf.push(2); // bqual length
    buf.extend_from_slice(b"bq"); // bqual bytes
    let mut cursor = Cursor::new(&buf);
    let ev = MariadbGtidEvent::parse(&mut cursor, 4).unwrap();
    assert_eq!(ev.flags, FL_PREPARED_XA);
    assert_eq!(ev.gtid, "2-4-7");
    assert!(ev.commit_id.is_none());
    assert_eq!(cursor.position(), 13);
}

#[test]
fn truncated_events_are_errors() {
    let mut whole = payload(&[]);
    whole[12] = FL_GROUP_COMMIT_ID;
    whole.extend_from_slice(&1u64.to_le_bytes());
    for n in 0..21usize {
        let buf = whole[..n].to_vec();
        let mut cursor = Cursor::new(&buf);
        assert_eq!(
            MariadbGtidEvent::parse(&mut cursor, 1).err(),
            Some(BinlogError::UnexpectedEof)
        );
        assert_eq!(cursor.position(), n as u64);
    }
}

#[test]
fn largest_values_are_rendered() {
    let mut buf = Vec::new();
    buf.extend_from_slice(&u64::MAX.to_le_bytes());
    buf.extend_from_slice(&u32::MAX.to_le_bytes());
    buf.push(0);
    let mut cursor = Cursor::new(&buf);
    let ev = MariadbGtidEvent::parse(&mut cursor, 0).unwrap();
    assert_eq!(ev.gtid, "4294967295-0-18446744073709551615");
}

#[test]
fn trailing_bytes_are_ignored() {
    let buf = payload(&[]);
    let long = payload(&[1, 2, 3, 4, 5, 6, 7, 8, 9]);
    let mut a = Cursor::new(&buf);
    let mut b = Cursor::new(&long);
    let short = MariadbGtidEvent::parse(&mut a, 3).unwrap();
    let longer = MariadbGtidEvent::parse(&mut b, 3).unwrap();
    assert_eq!(short.gtid, longer.gtid);
    assert_eq!(short.commit_id, longer.commit_id);
    assert_eq!(a.position(), b.position());
}

#[test]
fn parses_from_the_middle_of_a_buffer() {
    let mut buf = vec![0xaa, 0xbb];
    buf.extend_from_slice(&payload(&[]));
    let mut cursor = Cursor::new(&buf);
    cursor.set_position(2);
    let ev = MariadbGtidEvent::parse(&mut cursor, 11).unwrap();
    assert_eq!(ev.gtid, "7-11-42");
}

#[test]
fn default_event_is_empty() {
    let ev = MariadbGtidEvent::default();
    assert_eq!(ev.sequence_number, 0);
    assert_eq!(ev.gtid, "");
    assert!(ev.commit_id.is_none());
}

#[test]
fn renderings_of_different_transactions_differ() {
    let mut texts = Vec::new();
    for (domain, server, seq) in [(1u32, 11u32, 1u64), (11, 1, 1), (1, 1, 11), (1, 1, 1)] {
        let mut buf = Vec::new();
        buf.extend_from_slice(&seq.to_le_bytes());
        buf.extend_from_slice(&domain.to_le_bytes());
        buf.push(0);
        let mut cursor = Cursor::new(&buf);
        texts.push(MariadbGtidEvent::parse(&mut cursor, server).unwrap().gtid);
    }
    assert_eq!(texts, ["1-11-1", "11-1-1", "1-1-11", "1-1-1"]);
}

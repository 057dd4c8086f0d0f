use binlog_events::cursor::Cursor;
use binlog_events::error::BinlogError;
use binlog_events::event::gtid_event::{
    u56_le, GtidEvent, ORIGINAL_SERVER_VERSION_FLAG, UNDEFINED_SERVER_VERSION,
};

/// A minimal GTID event payload: flags + 16-byte UUID + 8-byte gno, followed by `extra`.
fn payload(extra: &[u8]) -> Vec<u8> {
    let mut buf = Vec::with_capacity(1 + 16 + 8 + extra.len());
    buf.push(0);
    buf.extend_from_slice(&[0u8; 16]);
    buf.extend_from_slice(&[1, 0, 0, 0, 0, 0, 0, 0]); // gno = 1
    buf.extend_from_slice(extra);
    buf
}

fn parse(extra: &[u8]) -> GtidEvent {
    let buf = payload(extra);
    let mut cursor = Cursor::new(&buf);
    GtidEvent::parse(&mut cursor).unwrap()
}

#[test]
fn legacy_master_no_tail() {
    let ev = parse(&[]);
    assert_eq!(ev.gtid, "00000000-0000-0000-0000-000000000000:1");
    assert!(ev.last_committed.is_none());
    assert!(ev.immediate_commit_timestamp.is_none());
}

#[test]
fn single_commit_timestamp_implies_original() {
    let mut tail = vec![0u8; 1 + 8 + 8]; // logical clock typecode + last_committed + sequence_number
    // 7 bytes little-endian = 0x123456 microseconds, high bit clear -> single timestamp
    tail.extend_from_slice(&[0x56, 0x34, 0x12, 0, 0, 0, 0]);
    let ev = parse(&tail);
    assert_eq!(ev.immediate_commit_timestamp, Some(0x123456));
    assert_eq!(ev.original_commit_timestamp, Some(0x123456));
}

#[test]
fn dual_commit_timestamps_when_origin_differs() {
    let mut tail = vec![0u8; 1 + 8 + 8];
    // High bit on byte 6 (most significant of the 7-byte little-endian value) marks "an
    // `original_commit_timestamp` follows".
    tail.extend_from_slice(&[0x56, 0x34, 0x12, 0, 0, 0, 0x80]);
    tail.extend_from_slice(&[0x78, 0x56, 0, 0, 0, 0, 0]);
    let ev = parse(&tail);
    assert_eq!(ev.immediate_commit_timestamp, Some(0x123456));
    assert_eq!(ev.original_commit_timestamp, Some(0x5678));
}

#[test]
fn full_tail_with_server_versions() {
    let mut tail = vec![0u8; 1 + 8 + 8];
    tail.extend_from_slice(&[0x56, 0x34, 0x12, 0, 0, 0, 0]); // single ts
    tail.push(42); // transaction_length (lenenc, single byte)
    // immediate_server_version = 80037, no original-version bit -> mirror
    tail.extend_from_slice(&80037u32.to_le_bytes());
    let ev = parse(&tail);
    assert_eq!(ev.transaction_length, Some(42));
    assert_eq!(ev.immediate_server_version, Some(80037));
    assert_eq!(ev.original_server_version, Some(80037));
}

#[test]
fn explicit_original_server_version_when_immediate_differs() {
    // immediate_server_version = 80037 with the high marker bit set ("an original follows")
    // and original_server_version = 50730.
    let mut tail = vec![0u8; 1 + 8 + 8];
    tail.extend_from_slice(&[0x56, 0x34, 0x12, 0, 0, 0, 0]); // single ts
    tail.push(42); // transaction_length
    tail.extend_from_slice(&(80037u32 | ORIGINAL_SERVER_VERSION_FLAG).to_le_bytes());
    tail.extend_from_slice(&50730u32.to_le_bytes());
    let ev = parse(&tail);
    assert_eq!(ev.immediate_server_version, Some(80037));
    assert_eq!(ev.original_server_version, Some(50730));
}

#[test]
fn undefined_server_version_is_normalised_to_none() {
    let mut tail = vec![0u8; 1 + 8 + 8];
    tail.extend_from_slice(&[0x56, 0x34, 0x12, 0, 0, 0, 0]); // single ts
    tail.push(42); // transaction_length
    tail.extend_from_slice(&UNDEFINED_SERVER_VERSION.to_le_bytes());
    let ev = parse(&tail);
    assert!(ev.immediate_server_version.is_none());
    assert!(ev.original_server_version.is_none());
}

#[test]
fn seven_bytes_are_little_endian() {
    assert_eq!(u56_le(&[1, 2, 3, 4, 5, 6, 7]), 0x07060504030201);
    assert_eq!(u56_le(&[0xff; 7]), 0xff_ffff_ffff_ffff);
}

#[test]
fn uuid_and_number_are_rendered() {
    let mut buf = vec![1u8];
    buf.extend_from_slice(&[
        0x3e, 0x11, 0xfa, 0x47, 0x71, 0xca, 0x11, 0xe1, 0x9e, 0x33, 0xc8, 0x0a, 0xa9, 0x42, 0x95,
        0x62,
    ]);
    buf.extend_from_slice(&u64::MAX.to_le_bytes());
    let mut cursor = Cursor::new(&buf);
    let ev = GtidEvent::parse(&mut cursor).unwrap();
    assert_eq!(ev.flags, 1);
    assert_eq!(ev.gtid, "3e11fa47-71ca-11e1-9e33-c80aa9429562:18446744073709551615");
    assert_eq!(cursor.position(), 25);
}

#[test]
fn uuid_is_read_alone() {
    let buf: Vec<u8> = (0xf0..=0xff).collect();
    let mut cursor = Cursor::new(&buf);
    assert_eq!(
        GtidEvent::read_uuid(&mut cursor).unwrap(),
        "f0f1f2f3-f4f5-f6f7-f8f9-fafbfcfdfeff"
    );
    assert_eq!(cursor.position(), 16);
    assert_eq!(GtidEvent::read_uuid(&mut cursor), Err(BinlogError::UnexpectedEof));
}

#[test]
fn hex_string_pads_each_byte() {
    let buf = vec![0x00, 0x0f, 0xa0, 0x5c];
    let mut cursor = Cursor::new(&buf);
    assert_eq!(GtidEvent::bytes_to_hex_string(&mut cursor, 3).unwrap(), "000fa0");
    assert_eq!(cursor.position(), 3);
    assert_eq!(
        GtidEvent::bytes_to_hex_string(&mut cursor, 2),
        Err(BinlogError::UnexpectedEof)
    );
    assert_eq!(cursor.position(), 4);
    assert_eq!(GtidEvent::bytes_to_hex_string(&mut cursor, 0).unwrap(), "");
}

#[test]
fn logical_clock_is_signed() {
    let mut tail = vec![2u8];
    tail.extend_from_slice(&(-3i64).to_le_bytes());
    tail.extend_from_slice(&0x0102030405060708i64.to_le_bytes());
    let ev = parse(&tail);
    assert_eq!(ev.last_committed, Some(-3));
    assert_eq!(ev.sequence_number, Some(0x0102030405060708));
    assert!(ev.immediate_commit_timestamp.is_none());
    assert!(ev.original_commit_timestamp.is_none());
}

#[test]
fn every_short_body_parses() {
    for n in 0..24usize {
        let tail = vec![0xeeu8; n];
        let ev = parse(&tail);
        assert_eq!(ev.last_committed.is_some(), n >= 17);
        assert_eq!(ev.sequence_number.is_some(), n >= 17);
        assert!(ev.immediate_commit_timestamp.is_none());
        assert!(ev.transaction_length.is_none());
    }
}

#[test]
fn truncated_head_is_an_error() {
    let whole = payload(&[]);
    for n in 0..25usize {
        let buf = whole[..n].to_vec();
        let mut cursor = Cursor::new(&buf);
        assert_eq!(
            GtidEvent::parse(&mut cursor).err(),
            Some(BinlogError::UnexpectedEof)
        );
        assert_eq!(cursor.position(), n as u64);
    }
}

#[test]
fn announced_original_timestamp_must_follow() {
    let mut tail = vec![0u8; 17];
    tail.extend_from_slice(&[0, 0, 0, 0, 0, 0, 0x80, 1, 2, 3]);
    let buf = payload(&tail);
    let mut cursor = Cursor::new(&buf);
    assert_eq!(
        GtidEvent::parse(&mut cursor).err(),
        Some(BinlogError::UnexpectedEof)
    );
}

#[test]
fn markers_are_cleared() {
    let mut tail = vec![0u8; 17];
    tail.extend_from_slice(&[0xff; 14]);
    tail.extend_from_slice(&[0xfc, 0x34, 0x12]);
    tail.extend_from_slice(&[0xfe, 0xff, 0xff, 0xff, 0xfd, 0xff, 0xff, 0xff]);
    let ev = parse(&tail);
    assert_eq!(ev.immediate_commit_timestamp, Some(0x7f_ffff_ffff_ffff));
    assert_eq!(ev.original_commit_timestamp, Some(0xff_ffff_ffff_ffff));
    assert_eq!(ev.transaction_length, Some(0x1234));
    assert_eq!(ev.immediate_server_version, Some(0x7fff_fffe));
    assert_eq!(ev.original_server_version, Some(0x7fff_fffd));
}

#[test]
fn announced_original_version_may_be_missing() {
    let mut tail = vec![0u8; 17];
    tail.extend_from_slice(&[0; 7]);
    tail.push(1);
    tail.extend_from_slice(&(80037u32 | ORIGINAL_SERVER_VERSION_FLAG).to_le_bytes());
    tail.extend_from_slice(&[1, 2, 3]);
    let ev = parse(&tail);
    assert_eq!(ev.immediate_server_version, Some(80037));
    assert_eq!(ev.original_server_version, None);
}

#[test]
fn transaction_length_without_versions() {
    let mut tail = vec![0u8; 17];
    tail.extend_from_slice(&[0; 7]);
    tail.extend_from_slice(&[250, 1, 2, 3]);
    let ev = parse(&tail);
    assert_eq!(ev.transaction_length, Some(250));
    assert_eq!(ev.immediate_server_version, None);
    assert_eq!(ev.original_server_version, None);
}

#[test]
fn bad_transaction_length_is_an_error() {
    let mut tail = vec![0u8; 17];
    tail.extend_from_slice(&[0; 7]);
    tail.push(0xfb);
    let buf = payload(&tail);
    let mut cursor = Cursor::new(&buf);
    assert_eq!(
        GtidEvent::parse(&mut cursor).err(),
        Some(BinlogError::InvalidPackedNumber(0xfb))
    );
}

#[test]
fn appended_bytes_change_nothing_that_was_read() {
    let mut tail = vec![0u8; 17];
    tail.extend_from_slice(&[9, 8, 7, 6, 5, 4, 3]);
    let short = parse(&tail);
    tail.push(42);
    let longer = parse(&tail);
    assert_eq!(short.gtid, longer.gtid);
    assert_eq!(short.immediate_commit_timestamp, longer.immediate_commit_timestamp);
    assert_eq!(short.original_commit_timestamp, longer.original_commit_timestamp);
    assert_eq!(short.transaction_length, None);
    assert_eq!(longer.transaction_length, Some(42));
}

#[test]
fn default_event_is_bare() {
    let ev = GtidEvent::default();
    assert_eq!(ev.flags, 0);
    assert_eq!(ev.gtid, "");
    assert!(ev.last_committed.is_none() && ev.transaction_length.is_none());
}

#[test]
fn complete_body_is_read_to_its_end() {
    let mut buf = vec![0x01u8];
    buf.extend_from_slice(&[0x11; 16]);
    buf.extend_from_slice(&23u64.to_le_bytes());
    buf.push(2);
    buf.extend_from_slice(&5i64.to_le_bytes());
    buf.extend_from_slice(&6i64.to_le_bytes());
    buf.extend_from_slice(&[1, 0, 0, 0, 0, 0, 0x80]);
    buf.extend_from_slice(&[2, 0, 0, 0, 0, 0, 0]);
    buf.extend_from_slice(&[0xfd, 0, 0, 1]);
    buf.extend_from_slice(&(80037u32 | ORIGINAL_SERVER_VERSION_FLAG).to_le_bytes());
    buf.extend_from_slice(&UNDEFINED_SERVER_VERSION.to_le_bytes());
    let mut cursor = Cursor::new(&buf);
    let ev = GtidEvent::parse(&mut cursor).unwrap();
    assert_eq!(cursor.position(), buf.len() as u64);
    assert_eq!(ev.flags, 1);
    assert_eq!(ev.gtid, "11111111-1111-1111-1111-111111111111:23");
    assert_eq!(ev.last_committed, Some(5));
    assert_eq!(ev.sequence_number, Some(6));
    assert_eq!(ev.immediate_commit_timestamp, Some(1));
    assert_eq!(ev.original_commit_timestamp, Some(2));
    assert_eq!(ev.transaction_length, Some(65_536));
    assert_eq!(ev.immediate_server_version, Some(80037));
    assert_eq!(ev.original_server_version, None);
}

#[test]
fn gtids_of_different_transactions_differ() {
    let text = |byte: usize, number: u8| {
        let mut buf = payload(&[]);
        buf[byte] = 1;
        buf[17] = number;
        let mut cursor = Cursor::new(&buf);
        GtidEvent::parse(&mut cursor).unwrap().gtid
    };
    assert_eq!(text(1, 1), "01000000-0000-0000-0000-000000000000:1");
    assert_eq!(text(16, 1), "00000000-0000-0000-0000-000000000001:1");
    assert_eq!(text(16, 10), "00000000-0000-0000-0000-000000000001:10");
}

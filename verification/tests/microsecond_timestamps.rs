//! The commit-time microsecond fields of the events, on the bodies that a server writes for a
//! few transactions.
//!
//! - MySQL >= 5.7.6 with `gtid_mode=ON` writes the tail of the GTID event.
//! - MariaDB writes the fraction in the `Q_HRNOW` status variable of the query event, and MySQL
//!   >= 5.7 as `Q_MICROSECONDS` on the transaction's `BEGIN`.

use std::time::{SystemTime, UNIX_EPOCH};

use binlog_events::cursor::Cursor;
use binlog_events::event::gtid_event::GtidEvent;
use binlog_events::event::mariadb_gtid_event::MariadbGtidEvent;
use binlog_events::event::query_event::{QueryEvent, Q_HRNOW_CODE, Q_MICROSECONDS_CODE};

fn now_us() -> u64 {
    SystemTime::now()
        .duration_since(UNIX_EPOCH)
        .unwrap()
        .as_micros() as u64
}

/// A server that writes event bodies, and what the parsers make of them.
struct Runner {
    mariadb: bool,
    gtid_events: Vec<GtidEvent>,
    query_events: Vec<QueryEvent>,
    mariadb_gtid_events: Vec<MariadbGtidEvent>,
}

impl Runner {
    fn new(mariadb: bool) -> Runner {
        Runner {
            mariadb,
            gtid_events: Vec::new(),
            query_events: Vec::new(),
            mariadb_gtid_events: Vec::new(),
        }
    }

    /// Commits `count` transactions, one behind the other.
    fn commit(&mut self, count: u64) {
        for i in 0..count {
            let now = now_us();
            if self.mariadb {
                let mut body = Vec::new();
                body.extend_from_slice(&(1_000 + i).to_le_bytes());
                body.extend_from_slice(&0u32.to_le_bytes());
                body.push(0x0c);
                let mut cursor = Cursor::new(&body);
                let event = MariadbGtidEvent::parse(&mut cursor, 3306).unwrap();
                self.mariadb_gtid_events.push(event);
            } else {
                let mut body = vec![0u8];
                body.extend_from_slice(&[0x5a; 16]);
                body.extend_from_slice(&(i + 1).to_le_bytes());
                body.push(2);
                body.extend_from_slice(&i.to_le_bytes());
                body.extend_from_slice(&(i + 1).to_le_bytes());
                body.extend_from_slice(&now.to_le_bytes()[..7]);
                body.extend_from_slice(&[0xfc, 0x35, 0x01]);
                body.extend_from_slice(&80_036u32.to_le_bytes());
                let mut cursor = Cursor::new(&body);
                self.gtid_events.push(GtidEvent::parse(&mut cursor).unwrap());
                assert_eq!(cursor.available(), 0);
            }

            let fraction = ((now % 1_000_000) as u32).to_le_bytes();
            let tag = if self.mariadb { Q_HRNOW_CODE } else { Q_MICROSECONDS_CODE };
            let mut body = vec![9, 0, 0, 0, 0, 0, 0, 0, 4, 0, 0, 9, 0];
            body.extend_from_slice(&[0x00, 0, 0, 0, 0]);
            body.push(tag);
            body.extend_from_slice(&fraction[..3]);
            body.extend_from_slice(b"test\0BEGIN");
            let mut cursor = Cursor::new(&body);
            self.query_events.push(QueryEvent::parse(&mut cursor).unwrap());
        }
    }
}

#[test]
fn gtid_event_carries_commit_timestamps_at_microsecond_precision() {
    let mut runner = Runner::new(false);

    let before = now_us();
    runner.commit(1);
    let after = now_us();

    let gtid = runner
        .gtid_events
        .last()
        .expect("no Gtid_event captured");
    let immediate = gtid
        .immediate_commit_timestamp
        .expect("Gtid_event has no commit-timestamp tail");
    let original = gtid
        .original_commit_timestamp
        .expect("original_commit_timestamp must be set when immediate is present");

    // The wall-clock window is [before, after], with a 60s slack on each side.
    let lo = before.saturating_sub(60_000_000);
    let hi = after.saturating_add(60_000_000);
    assert!(
        (lo..=hi).contains(&immediate),
        "immediate_commit_timestamp {immediate} outside expected window [{lo}, {hi}]"
    );
    assert_eq!(
        immediate, original,
        "single-master commit must mirror the timestamp"
    );

    // The high marker bit must always be cleared by the parser.
    assert_eq!(
        immediate & (1u64 << 55),
        0,
        "marker bit was not stripped from immediate_commit_timestamp"
    );

    // Logical-clock fields are mandatory once the tail is present.
    assert!(gtid.last_committed.is_some());
    assert!(gtid.sequence_number.is_some());

    if let Some(len) = gtid.transaction_length {
        assert!(len > 0);
    }
    assert_eq!(gtid.transaction_length, Some(0x0135));

    // Server version reads non-zero on every supported release.
    if let Some(v) = gtid.immediate_server_version {
        assert!(v >= 50600);
    }
    assert_eq!(gtid.immediate_server_version, Some(80_036));
}

#[test]
fn commit_timestamps_are_monotonic_across_transactions() {
    let mut runner = Runner::new(false);
    runner.commit(3);

    let mut timestamps: Vec<u64> = runner
        .gtid_events
        .iter()
        .filter_map(|g| g.immediate_commit_timestamp)
        .collect();

    if timestamps.is_empty() {
        timestamps = runner
            .query_events
            .iter()
            .filter_map(|q| q.microsecond_fraction.map(|us| us as u64))
            .collect();
    }

    assert_eq!(timestamps.len(), 3);
    for w in timestamps.windows(2) {
        assert!(
            w[0] <= w[1],
            "commit timestamps must be non-decreasing across transactions: {} > {}",
            w[0],
            w[1]
        );
    }
}

#[test]
fn query_event_exposes_microsecond_fraction() {
    for mariadb in [false, true] {
        let mut runner = Runner::new(mariadb);
        runner.commit(1);

        let with_us: Vec<u32> = runner
            .query_events
            .iter()
            .filter_map(|q| q.microsecond_fraction)
            .collect();

        assert_eq!(with_us.len(), 1);
        for us in with_us {
            assert!(
                us < 1_000_000,
                "microsecond fraction must be < 1_000_000, got {us}"
            );
        }
    }
}

#[test]
fn mariadb_gtid_event_exposes_lifetime_monotonic_seq_no() {
    let mut runner = Runner::new(true);
    runner.commit(3);

    assert!(!runner.mariadb_gtid_events.is_empty());
    let seqs: Vec<u64> = runner
        .mariadb_gtid_events
        .iter()
        .map(|e| e.sequence_number)
        .collect();

    for w in seqs.windows(2) {
        assert!(
            w[0] < w[1],
            "MariaDB seq_no must be strictly increasing across transactions: {} >= {}",
            w[0],
            w[1]
        );
    }

    for ev in &runner.mariadb_gtid_events {
        assert_eq!(
            ev.gtid,
            format!("{}-{}-{}", ev.domain_id, ev.server_id, ev.sequence_number),
            "gtid rendering must match {{domain}}-{{server}}-{{seq}}"
        );
        assert!(ev.server_id != 0, "server_id must be propagated from the event header");
    }
}

//! Laws of MariaDB's GTID event.

use vstd::prelude::*;

use crate::bytes::{
    byte_at, bytes_at, le_bytes, lemma_appended_bytes, lemma_le_nat_bound, lemma_le_round_trip,
    lemma_pow256_values,
};
use crate::error::BinlogError;
use crate::event::mariadb_gtid_event::{
    mariadb_gtid_event_at, mariadb_gtid_text, MariadbGtidEventView, FL_GROUP_COMMIT_ID,
};
use crate::text::{decimal_text, lemma_decimal_digits, lemma_decimal_injective};

verus! {

/// The group-commit identifier is there exactly when its flag is, the server id is the one of
/// the header, and the GTID is the rendering of domain, server and sequence number.
pub proof fn lemma_mariadb_event_is_consistent(s: Seq<u8>, pos: nat, server_id: u32)
    requires
        mariadb_gtid_event_at(s, pos, server_id).result is Ok,
    ensures
        ({
            let ev = mariadb_gtid_event_at(s, pos, server_id).result->Ok_0;
            &&& ev.commit_id is Some <==> ev.flags & FL_GROUP_COMMIT_ID != 0
            &&& ev.server_id == server_id
            &&& ev.gtid == mariadb_gtid_text(
                ev.domain_id as nat,
                ev.server_id as nat,
                ev.sequence_number as nat,
            )
        }),
{
    lemma_le_nat_bound(bytes_at(s, pos, 8));
    lemma_le_nat_bound(bytes_at(s, pos + 8, 4));
    lemma_pow256_values();
}

/// Bytes behind a complete event change nothing: neither the event nor where it ends. So the
/// fields of an `XA PREPARE` transaction, which are left unread, cannot disturb the rest.
pub proof fn lemma_mariadb_ignores_trailing_bytes(
    s: Seq<u8>,
    x: Seq<u8>,
    pos: nat,
    server_id: u32,
)
    requires
        mariadb_gtid_event_at(s, pos, server_id).result is Ok,
    ensures
        mariadb_gtid_event_at(s + x, pos, server_id) == mariadb_gtid_event_at(s, pos, server_id),
{
    lemma_appended_bytes(s, x, pos, 8);
    lemma_appended_bytes(s, x, pos + 8, 4);
    lemma_appended_bytes(s, x, pos + 12, 1);
    if byte_at(s, pos + 12) & FL_GROUP_COMMIT_ID != 0 {
        lemma_appended_bytes(s, x, pos + 13, 8);
    }
}

/// The body of MariaDB's GTID event as a server writes it, the `XA` fields aside.
pub open spec fn mariadb_gtid_body(
    sequence_number: u64,
    domain_id: u32,
    flags: u8,
    commit_id: u64,
) -> Seq<u8> {
    le_bytes(sequence_number as nat, 8) + le_bytes(domain_id as nat, 4) + seq![flags] + if flags
        & FL_GROUP_COMMIT_ID != 0 {
        le_bytes(commit_id as nat, 8)
    } else {
        Seq::empty()
    }
}

/// What a server wrote is what is read, up to the last byte.
pub proof fn lemma_mariadb_round_trip(
    sequence_number: u64,
    domain_id: u32,
    flags: u8,
    commit_id: u64,
    server_id: u32,
)
    ensures
        ({
            let body = mariadb_gtid_body(sequence_number, domain_id, flags, commit_id);
            let event = mariadb_gtid_event_at(body, 0, server_id);
            &&& event.pos == body.len()
            &&& event.result == Ok::<MariadbGtidEventView, BinlogError>(
                MariadbGtidEventView {
                    sequence_number,
                    domain_id,
                    server_id,
                    flags,
                    commit_id: if flags & FL_GROUP_COMMIT_ID != 0 {
                        Some(commit_id)
                    } else {
                        None
                    },
                    gtid: mariadb_gtid_text(
                        domain_id as nat,
                        server_id as nat,
                        sequence_number as nat,
                    ),
                },
            )
        }),
{
    let body = mariadb_gtid_body(sequence_number, domain_id, flags, commit_id);
    lemma_pow256_values();
    lemma_le_round_trip(sequence_number as nat, 8);
    lemma_le_round_trip(domain_id as nat, 4);
    lemma_le_round_trip(commit_id as nat, 8);
    assert(bytes_at(body, 0, 8) =~= le_bytes(sequence_number as nat, 8));
    assert(bytes_at(body, 8, 4) =~= le_bytes(domain_id as nat, 4));
    assert(byte_at(body, 12) == flags);
    if flags & FL_GROUP_COMMIT_ID != 0 {
        assert(bytes_at(body, 13, 8) =~= le_bytes(commit_id as nat, 8));
    }
}

/// Texts without a hyphen can be told apart in front of one.
proof fn lemma_split_at_hyphen(a: Seq<char>, b: Seq<char>, c: Seq<char>, d: Seq<char>)
    requires
        forall|i: int| 0 <= i < a.len() ==> #[trigger] a[i] != '-',
        forall|i: int| 0 <= i < c.len() ==> #[trigger] c[i] != '-',
        a + seq!['-'] + b == c + seq!['-'] + d,
    ensures
        a == c,
        b == d,
{
    let x = a + seq!['-'] + b;
    let y = c + seq!['-'] + d;
    assert(x[a.len() as int] == '-');
    assert(y[c.len() as int] == '-');
    if a.len() < c.len() {
        assert(y[a.len() as int] == c[a.len() as int]);
    }
    if c.len() < a.len() {
        assert(x[c.len() as int] == a[c.len() as int]);
    }
    assert(a =~= x.take(a.len() as int));
    assert(c =~= y.take(c.len() as int));
    assert(b =~= x.skip(a.len() as int + 1));
    assert(d =~= y.skip(c.len() as int + 1));
}

/// The rendering names one transaction: equal GTIDs have equal domains, servers and sequence
/// numbers.
pub proof fn lemma_mariadb_gtid_identifies(
    domain_a: nat,
    server_a: nat,
    sequence_a: nat,
    domain_b: nat,
    server_b: nat,
    sequence_b: nat,
)
    requires
        mariadb_gtid_text(domain_a, server_a, sequence_a) == mariadb_gtid_text(
            domain_b,
            server_b,
            sequence_b,
        ),
    ensures
        domain_a == domain_b,
        server_a == server_b,
        sequence_a == sequence_b,
{
    lemma_decimal_digits(domain_a);
    lemma_decimal_digits(domain_b);
    lemma_decimal_digits(server_a);
    lemma_decimal_digits(server_b);
    let rest_a = decimal_text(server_a) + seq!['-'] + decimal_text(sequence_a);
    let rest_b = decimal_text(server_b) + seq!['-'] + decimal_text(sequence_b);
    assert(mariadb_gtid_text(domain_a, server_a, sequence_a) =~= decimal_text(domain_a) + seq!['-']
        + rest_a);
    assert(mariadb_gtid_text(domain_b, server_b, sequence_b) =~= decimal_text(domain_b) + seq!['-']
        + rest_b);
    lemma_split_at_hyphen(decimal_text(domain_a), rest_a, decimal_text(domain_b), rest_b);
    lemma_split_at_hyphen(
        decimal_text(server_a),
        decimal_text(sequence_a),
        decimal_text(server_b),
        decimal_text(sequence_b),
    );
    lemma_decimal_injective(domain_a, domain_b);
    lemma_decimal_injective(server_a, server_b);
    lemma_decimal_injective(sequence_a, sequence_b);
}

} // verus!

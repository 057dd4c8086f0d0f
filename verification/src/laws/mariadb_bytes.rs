//! Laws of MariaDB's GTID event, byte by byte.

use vstd::prelude::*;

use crate::bytes::{bytes_at, field, lemma_le_nat_bound, lemma_pow256_values};
use crate::error::BinlogError;
use crate::event::mariadb_gtid_event::{
    mariadb_gtid_event_at, mariadb_gtid_text, MariadbGtidEvent, MariadbGtidEventView,
};
use crate::laws::mariadb::{lemma_mariadb_round_trip, mariadb_gtid_body};
use crate::laws::reads::{eight, four, lemma_field_bytes};
use crate::laws::text::{is_decimal, lemma_decimal_text_is_read_back};
use crate::text::decimal_text;

verus! {

/// Whether `t`, cut at hyphens at `i` and `j`, gives `a`, `b` and `c` in base ten, in this
/// order.
pub open spec fn is_cut_into(t: Seq<char>, i: int, j: int, a: int, b: int, c: int) -> bool {
    &&& 0 < i < j < t.len()
    &&& t[i] == '-' && t[j] == '-'
    &&& is_decimal(t.take(i), a)
    &&& is_decimal(t.subrange(i + 1, j), b)
    &&& is_decimal(t.skip(j + 1), c)
}

proof fn lemma_rendered_triple(a: nat, b: nat, c: nat) -> (cut: (int, int))
    ensures
        is_cut_into(
            mariadb_gtid_text(a, b, c),
            cut.0,
            cut.1,
            a as int,
            b as int,
            c as int,
        ),
{
    let t = mariadb_gtid_text(a, b, c);
    let i = decimal_text(a).len() as int;
    let j = i + 1 + decimal_text(b).len();
    lemma_decimal_text_is_read_back(a);
    lemma_decimal_text_is_read_back(b);
    lemma_decimal_text_is_read_back(c);
    assert(t.take(i) =~= decimal_text(a));
    assert(t.subrange(i + 1, j) =~= decimal_text(b));
    assert(t.skip(j + 1) =~= decimal_text(c));
    (i, j)
}

/// The GTID of every event, cut at its two hyphens, gives the domain, the server and the
/// sequence number in base ten, in this order. The cuts are handed back.
pub proof fn lemma_mariadb_gtid_is_read_back(s: Seq<u8>, pos: nat, server_id: u32) -> (cut: (
    int,
    int,
))
    requires
        mariadb_gtid_event_at(s, pos, server_id).result is Ok,
    ensures
        ({
            let ev = mariadb_gtid_event_at(s, pos, server_id).result->Ok_0;
            is_cut_into(
                ev.gtid,
                cut.0,
                cut.1,
                ev.domain_id as int,
                server_id as int,
                ev.sequence_number as int,
            )
        }),
{
    lemma_pow256_values();
    lemma_le_nat_bound(bytes_at(s, pos, 8));
    lemma_le_nat_bound(bytes_at(s, pos + 8, 4));
    lemma_rendered_triple(field(s, pos + 8, 4), server_id as nat, field(s, pos, 8))
}

/// A text can be cut in only one way into three numbers: whoever reads it finds the same.
pub proof fn lemma_cut_is_the_only_one(
    t: Seq<char>,
    i: int,
    j: int,
    a: int,
    b: int,
    c: int,
    k: int,
    l: int,
    d: int,
    e: int,
    f: int,
)
    requires
        is_cut_into(t, i, j, a, b, c),
        is_cut_into(t, k, l, d, e, f),
    ensures
        a == d,
        b == e,
        c == f,
{
    if i < k {
        assert(t.take(k)[i] == '-');
    }
    if k < i {
        assert(t.take(i)[k] == '-');
    }
    if j < l {
        assert(t.subrange(k + 1, l)[j - k - 1] == '-');
    }
    if l < j {
        assert(t.subrange(i + 1, j)[l - i - 1] == '-');
    }
}

/// Where the fields of the body stand, and what their bytes say; the group-commit identifier is
/// there exactly if the fifth bit of the flags is set. A body is accepted exactly if it has the
/// 13 bytes, or 21 with that bit.
pub proof fn lemma_mariadb_bytes(s: Seq<u8>, pos: nat, server_id: u32)
    ensures
        ({
            let p = pos as int;
            let event = mariadb_gtid_event_at(s, pos, server_id);
            let grouped = (s[p + 12] / 16) % 2 == 1;
            &&& event.result is Ok <==> p + 13 <= s.len() && (grouped ==> p + 21 <= s.len())
            &&& event.result is Err ==> event.pos == s.len() && event.result == Err::<
                MariadbGtidEventView,
                BinlogError,
            >(BinlogError::UnexpectedEof)
            &&& event.result matches Ok(ev) ==> {
                &&& event.pos == (if grouped {
                    p + 21
                } else {
                    p + 13
                })
                &&& ev.sequence_number == eight(s, p)
                &&& ev.domain_id == four(s, p + 8)
                &&& ev.server_id == server_id
                &&& ev.flags == s[p + 12]
                &&& ev.commit_id is Some <==> grouped
                &&& grouped ==> ev.commit_id->0 == eight(s, p + 13)
            }
        }),
{
    let flags = s[pos as int + 12];
    assert((flags & 0x10u8 != 0) == ((flags / 16) % 2 == 1)) by (bit_vector);
    lemma_field_bytes(s, pos);
    lemma_field_bytes(s, pos + 8);
    lemma_field_bytes(s, pos + 13);
    lemma_pow256_values();
    lemma_le_nat_bound(bytes_at(s, pos, 8));
    lemma_le_nat_bound(bytes_at(s, pos + 8, 4));
    lemma_le_nat_bound(bytes_at(s, pos + 13, 8));
}

/// Of what a server wrote, the GTID gives back the domain, the server and the sequence number,
/// in this order. The cuts are handed back.
pub proof fn lemma_mariadb_written_gtid(
    sequence_number: u64,
    domain_id: u32,
    flags: u8,
    commit_id: u64,
    server_id: u32,
) -> (cut: (int, int))
    ensures
        ({
            let body = mariadb_gtid_body(sequence_number, domain_id, flags, commit_id);
            let event = mariadb_gtid_event_at(body, 0, server_id);
            &&& event.result matches Ok(ev)
            &&& is_cut_into(
                ev.gtid,
                cut.0,
                cut.1,
                domain_id as int,
                server_id as int,
                sequence_number as int,
            )
        }),
{
    lemma_mariadb_round_trip(sequence_number, domain_id, flags, commit_id, server_id);
    lemma_rendered_triple(domain_id as nat, server_id as nat, sequence_number as nat)
}

/// The view of an event has the fields of the event.
pub proof fn lemma_mariadb_view(ev: MariadbGtidEvent)
    ensures
        ev@.sequence_number == ev.sequence_number,
        ev@.domain_id == ev.domain_id,
        ev@.server_id == ev.server_id,
        ev@.flags == ev.flags,
        ev@.commit_id == ev.commit_id,
        ev@.gtid == ev.gtid@,
{
}

} // verus!

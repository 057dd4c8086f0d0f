//! Laws of MySQL's GTID event.

use vstd::prelude::*;

use crate::bytes::{
    byte_at, bytes_at, field, le_bytes, lemma_appended_bytes, lemma_le_nat_bound,
    lemma_le_round_trip, lemma_part, lemma_pow256_values, remaining,
};
use crate::cursor::{lemma_packed_round_trip, packed_bytes, packed_number_at};
use crate::error::BinlogError;
use crate::event::gtid_event::{
    bare_event, commit_timestamps_at, gtid_event_at, gtid_text, server_versions_at, uuid_text,
    version_of, GtidEventView, UNDEFINED_SERVER_VERSION,
};
use crate::text::{
    decimal_text, hex_text, lemma_decimal_injective, lemma_hex_injective, lemma_hex_len,
};

verus! {

/// The optional blocks come in order, and each is whole: the two clock values come together,
/// so do the two commit timestamps, and a later block is there only with all the earlier ones.
pub proof fn lemma_gtid_blocks_nest(s: Seq<u8>, pos: nat)
    requires
        gtid_event_at(s, pos).result is Ok,
    ensures
        ({
            let ev = gtid_event_at(s, pos).result->Ok_0;
            &&& ev.last_committed is Some <==> ev.sequence_number is Some
            &&& ev.immediate_commit_timestamp is Some <==> ev.original_commit_timestamp is Some
            &&& ev.immediate_commit_timestamp is Some ==> ev.last_committed is Some
            &&& ev.transaction_length is Some ==> ev.immediate_commit_timestamp is Some
            &&& ev.immediate_server_version is Some ==> ev.transaction_length is Some
            &&& ev.original_server_version is Some ==> ev.transaction_length is Some
        }),
{
}

/// The marker bits never show: bit 55 of the immediate commit timestamp and bit 31 of the
/// server versions are clear, and the version that stands for none is never given.
pub proof fn lemma_gtid_markers_are_cleared(s: Seq<u8>, pos: nat)
    requires
        gtid_event_at(s, pos).result is Ok,
    ensures
        ({
            let ev = gtid_event_at(s, pos).result->Ok_0;
            &&& ev.immediate_commit_timestamp matches Some(t) ==> t < 0x80_0000_0000_0000 && t & (
            1u64 << 55) == 0
            &&& ev.original_commit_timestamp matches Some(t) ==> t < 0x100_0000_0000_0000
            &&& ev.immediate_server_version matches Some(v) ==> v < UNDEFINED_SERVER_VERSION
            &&& ev.original_server_version matches Some(v) ==> v < UNDEFINED_SERVER_VERSION
        }),
{
    lemma_pow256_values();
    lemma_le_nat_bound(bytes_at(s, pos + 42, 7));
    lemma_le_nat_bound(bytes_at(s, pos + 49, 7));
    if remaining(s, pos) >= 49 {
        lemma_stamp_width(s, pos + 42);
        if let Some(t) = gtid_event_at(s, pos).result->Ok_0.immediate_commit_timestamp {
            assert(t < 0x80_0000_0000_0000 ==> t & (1u64 << 55) == 0) by (bit_vector);
        }
    }
}

proof fn lemma_stamp_width(s: Seq<u8>, pos: nat)
    requires
        remaining(s, pos) >= 7,
    ensures
        commit_timestamps_at(s, pos).result matches Ok((i, o)) ==> i < 0x80_0000_0000_0000 && o
            < 0x100_0000_0000_0000,
{
    lemma_pow256_values();
    lemma_le_nat_bound(bytes_at(s, pos, 7));
    if remaining(s, pos) >= 14 {
        lemma_le_nat_bound(bytes_at(s, pos + 7, 7));
    }
}

/// When the master is also the origin, one commit timestamp is written and both fields have
/// it; and so with the server version.
pub proof fn lemma_gtid_single_values_are_mirrored(s: Seq<u8>, pos: nat)
    requires
        gtid_event_at(s, pos).result is Ok,
    ensures
        ({
            let ev = gtid_event_at(s, pos).result->Ok_0;
            let versions = packed_number_at(s, commit_timestamps_at(s, pos + 42).pos).pos;
            &&& ev.immediate_commit_timestamp is Some && field(s, pos + 42, 7)
                < 0x80_0000_0000_0000 ==> ev.original_commit_timestamp
                == ev.immediate_commit_timestamp
            &&& ev.transaction_length is Some && remaining(s, versions) >= 4 && field(
                s,
                versions,
                4,
            ) < 0x8000_0000 ==> ev.original_server_version == ev.immediate_server_version
        }),
{
}

/// Bodies of older masters parse: one that ends anywhere before the commit timestamps are
/// complete, or right behind them, is accepted, with the blocks that it has and no others.
pub proof fn lemma_gtid_older_bodies_parse(s: Seq<u8>, pos: nat)
    requires
        remaining(s, pos) >= 25,
    ensures
        remaining(s, pos) < 42 ==> gtid_event_at(s, pos).result == Ok::<
            GtidEventView,
            BinlogError,
        >(bare_event(byte_at(s, pos), gtid_text(s, pos))),
        42 <= remaining(s, pos) < 49 ==> {
            &&& gtid_event_at(s, pos).result matches Ok(ev)
            &&& ev.last_committed is Some
            &&& ev == (GtidEventView {
                last_committed: ev.last_committed,
                sequence_number: ev.sequence_number,
                ..bare_event(byte_at(s, pos), gtid_text(s, pos))
            })
        },
        remaining(s, pos) >= 49 && commit_timestamps_at(s, pos + 42).result is Ok
            && commit_timestamps_at(s, pos + 42).pos == s.len() ==> {
            &&& gtid_event_at(s, pos).result matches Ok(ev)
            &&& ev.immediate_commit_timestamp is Some
            &&& ev.transaction_length is None
        },
{
}

/// A body is refused in three cases only: the 25 bytes of its head are not there, the original
/// commit timestamp that is announced is not there, or the transaction length is no packed
/// number.
pub proof fn lemma_gtid_errors(s: Seq<u8>, pos: nat)
    ensures
        gtid_event_at(s, pos).result is Err <==> {
            ||| remaining(s, pos) < 25
            ||| 49 <= remaining(s, pos) < 56 && field(s, pos + 42, 7) >= 0x80_0000_0000_0000
            ||| {
                let behind = commit_timestamps_at(s, pos + 42).pos;
                &&& remaining(s, pos) >= 49
                &&& remaining(s, behind) > 0
                &&& packed_number_at(s, behind).result is Err
            }
        },
{
}

/// Whether what `a` holds, `b` holds too.
pub open spec fn carried<T>(a: Option<T>, b: Option<T>) -> bool {
    a is Some ==> a == b
}

/// What a body says is not changed by bytes that are appended to it: they can only add.
pub proof fn lemma_gtid_appended_bytes_only_add(s: Seq<u8>, x: Seq<u8>, pos: nat)
    requires
        gtid_event_at(s, pos).result is Ok,
        gtid_event_at(s + x, pos).result is Ok,
    ensures
        ({
            let a = gtid_event_at(s, pos).result->Ok_0;
            let b = gtid_event_at(s + x, pos).result->Ok_0;
            &&& a.flags == b.flags
            &&& a.gtid == b.gtid
            &&& carried(a.last_committed, b.last_committed)
            &&& carried(a.sequence_number, b.sequence_number)
            &&& carried(a.immediate_commit_timestamp, b.immediate_commit_timestamp)
            &&& carried(a.original_commit_timestamp, b.original_commit_timestamp)
            &&& carried(a.transaction_length, b.transaction_length)
            &&& carried(a.immediate_server_version, b.immediate_server_version)
            &&& carried(a.original_server_version, b.original_server_version)
        }),
{
    let t = s + x;
    lemma_appended_bytes(s, x, pos, 1);
    lemma_appended_bytes(s, x, pos + 1, 4);
    lemma_appended_bytes(s, x, pos + 5, 2);
    lemma_appended_bytes(s, x, pos + 7, 2);
    lemma_appended_bytes(s, x, pos + 9, 2);
    lemma_appended_bytes(s, x, pos + 11, 6);
    lemma_appended_bytes(s, x, pos + 17, 8);
    assert(uuid_text(t, pos + 1) == uuid_text(s, pos + 1));
    if remaining(s, pos) >= 42 {
        lemma_appended_bytes(s, x, pos + 26, 8);
        lemma_appended_bytes(s, x, pos + 34, 8);
    }
    if remaining(s, pos) >= 49 {
        lemma_appended_bytes(s, x, pos + 42, 7);
        if remaining(s, pos) >= 56 {
            lemma_appended_bytes(s, x, pos + 49, 7);
        }
        assert(commit_timestamps_at(t, pos + 42) == commit_timestamps_at(s, pos + 42));
        let behind = commit_timestamps_at(s, pos + 42).pos;
        if remaining(s, behind) > 0 {
            lemma_packed_appended(s, x, behind);
            let q = packed_number_at(s, behind).pos;
            if remaining(s, q) >= 4 {
                lemma_appended_bytes(s, x, q, 4);
                if remaining(s, q) >= 8 {
                    lemma_appended_bytes(s, x, q + 4, 4);
                }
            }
        }
    }
}

proof fn lemma_packed_appended(s: Seq<u8>, x: Seq<u8>, pos: nat)
    requires
        packed_number_at(s, pos).result is Ok,
    ensures
        packed_number_at(s + x, pos) == packed_number_at(s, pos),
{
    lemma_appended_bytes(s, x, pos, 1);
    let first = byte_at(s, pos);
    if first == 0xfc {
        lemma_appended_bytes(s, x, pos + 1, 2);
    } else if first == 0xfd {
        lemma_appended_bytes(s, x, pos + 1, 3);
    } else if first == 0xfe {
        lemma_appended_bytes(s, x, pos + 1, 8);
    }
}

/// The GTID names one transaction: two bodies with the same GTID have the same UUID, byte for
/// byte, and the same transaction number.
pub proof fn lemma_gtid_identifies(s: Seq<u8>, p: nat, t: Seq<u8>, q: nat)
    requires
        remaining(s, p) >= 25,
        remaining(t, q) >= 25,
        gtid_text(s, p) == gtid_text(t, q),
    ensures
        bytes_at(s, p + 1, 16) == bytes_at(t, q + 1, 16),
        field(s, p + 17, 8) == field(t, q + 17, 8),
{
    let a = gtid_text(s, p);
    let b = gtid_text(t, q);
    lemma_group(s, p + 1, 4);
    lemma_group(s, p + 5, 2);
    lemma_group(s, p + 7, 2);
    lemma_group(s, p + 9, 2);
    lemma_group(s, p + 11, 6);
    lemma_group(t, q + 1, 4);
    lemma_group(t, q + 5, 2);
    lemma_group(t, q + 7, 2);
    lemma_group(t, q + 9, 2);
    lemma_group(t, q + 11, 6);
    assert(decimal_text(field(s, p + 17, 8)) =~= a.skip(37));
    assert(decimal_text(field(t, q + 17, 8)) =~= b.skip(37));
    lemma_decimal_injective(field(s, p + 17, 8), field(t, q + 17, 8));
    lemma_same_group(a, 0, s, p + 1, t, q + 1, 4);
    lemma_same_group(a, 9, s, p + 5, t, q + 5, 2);
    lemma_same_group(a, 14, s, p + 7, t, q + 7, 2);
    lemma_same_group(a, 19, s, p + 9, t, q + 9, 2);
    lemma_same_group(a, 24, s, p + 11, t, q + 11, 6);
    lemma_regroup(s, p + 1);
    lemma_regroup(t, q + 1);
}

/// The 16 bytes of a UUID are its five groups.
proof fn lemma_regroup(s: Seq<u8>, pos: nat)
    requires
        remaining(s, pos) >= 16,
    ensures
        bytes_at(s, pos, 16) == bytes_at(s, pos, 4) + bytes_at(s, pos + 4, 2) + bytes_at(
            s,
            pos + 6,
            2,
        ) + bytes_at(s, pos + 8, 2) + bytes_at(s, pos + 10, 6),
{
    assert(bytes_at(s, pos, 16) =~= bytes_at(s, pos, 4) + bytes_at(s, pos + 4, 2) + bytes_at(
        s,
        pos + 6,
        2,
    ) + bytes_at(s, pos + 8, 2) + bytes_at(s, pos + 10, 6));
}

proof fn lemma_group(s: Seq<u8>, pos: nat, n: nat)
    requires
        n <= remaining(s, pos),
    ensures
        bytes_at(s, pos, n).len() == n,
        hex_text(bytes_at(s, pos, n)).len() == 2 * n,
{
    lemma_hex_len(bytes_at(s, pos, n));
}

/// Two groups that are rendered at the same place of one text are equal.
proof fn lemma_same_group(
    text: Seq<char>,
    at: int,
    s: Seq<u8>,
    p: nat,
    t: Seq<u8>,
    q: nat,
    n: nat,
)
    requires
        n <= remaining(s, p),
        n <= remaining(t, q),
        0 <= at,
        at + 2 * n <= text.len(),
        text.subrange(at, at + 2 * n) =~= hex_text(bytes_at(s, p, n)),
        text.subrange(at, at + 2 * n) =~= hex_text(bytes_at(t, q, n)),
    ensures
        bytes_at(s, p, n) == bytes_at(t, q, n),
{
    lemma_hex_injective(bytes_at(s, p, n), bytes_at(t, q, n));
}

/// The 64-bit pattern of `v` in two's complement.
pub open spec fn pattern_64(v: i64) -> nat {
    if v < 0 {
        (v + 0x1_0000_0000_0000_0000) as nat
    } else {
        v as nat
    }
}

/// The head of the event body as a server writes it, with the logical clock behind it.
pub open spec fn gtid_body_head(
    flags: u8,
    uuid: Seq<u8>,
    gno: u64,
    clock_type: u8,
    last_committed: i64,
    sequence_number: i64,
) -> Seq<u8> {
    seq![flags] + uuid + le_bytes(gno as nat, 8) + seq![clock_type] + le_bytes(
        pattern_64(last_committed),
        8,
    ) + le_bytes(pattern_64(sequence_number), 8)
}

/// The commit timestamps as a server writes them: one, or two and a marker.
pub open spec fn stamp_bytes(immediate: u64, original: Option<u64>) -> Seq<u8> {
    match original {
        None => le_bytes(immediate as nat, 7),
        Some(o) => le_bytes((immediate + 0x80_0000_0000_0000) as nat, 7) + le_bytes(o as nat, 7),
    }
}

/// The server versions as a server writes them: one, or two and a marker.
pub open spec fn version_bytes(immediate: u32, original: Option<u32>) -> Seq<u8> {
    match original {
        None => le_bytes(immediate as nat, 4),
        Some(o) => le_bytes((immediate + 0x8000_0000) as nat, 4) + le_bytes(o as nat, 4),
    }
}

pub(crate) proof fn lemma_head_layout(
    flags: u8,
    uuid: Seq<u8>,
    gno: u64,
    clock_type: u8,
    last_committed: i64,
    sequence_number: i64,
    tail: Seq<u8>,
)
    requires
        uuid.len() == 16,
    ensures
        ({
            let head = gtid_body_head(
                flags,
                uuid,
                gno,
                clock_type,
                last_committed,
                sequence_number,
            );
            let body = head + tail;
            &&& head.len() == 42
            &&& byte_at(body, 0) == flags
            &&& bytes_at(body, 1, 16) == uuid
            &&& field(body, 17, 8) == gno
            &&& field(body, 26, 8) == pattern_64(last_committed)
            &&& field(body, 34, 8) == pattern_64(sequence_number)
        }),
{
    let head = gtid_body_head(flags, uuid, gno, clock_type, last_committed, sequence_number);
    let body = head + tail;
    let number = le_bytes(gno as nat, 8);
    let committed = le_bytes(pattern_64(last_committed), 8);
    let sequence = le_bytes(pattern_64(sequence_number), 8);
    lemma_pow256_values();
    lemma_le_round_trip(gno as nat, 8);
    lemma_le_round_trip(pattern_64(last_committed), 8);
    lemma_le_round_trip(pattern_64(sequence_number), 8);
    let a = seq![flags];
    let b = a + uuid;
    let c = b + number + seq![clock_type];
    let d = c + committed;
    lemma_part(a, uuid, number + seq![clock_type] + committed + sequence + tail);
    assert(body =~= a + uuid + (number + seq![clock_type] + committed + sequence + tail));
    lemma_part(b, number, seq![clock_type] + committed + sequence + tail);
    assert(body =~= b + number + (seq![clock_type] + committed + sequence + tail));
    lemma_part(c, committed, sequence + tail);
    assert(body =~= c + committed + (sequence + tail));
    lemma_part(d, sequence, tail);
    assert(body =~= d + sequence + tail);
}

/// The UUID of a body depends on its 16 bytes alone.
proof fn lemma_uuid_of_bytes(s: Seq<u8>, pos: nat)
    requires
        remaining(s, pos) >= 16,
    ensures
        uuid_text(s, pos) == uuid_text(bytes_at(s, pos, 16), 0),
{
    let u = bytes_at(s, pos, 16);
    assert(bytes_at(u, 0, 4) =~= bytes_at(s, pos, 4));
    assert(bytes_at(u, 4, 2) =~= bytes_at(s, pos + 4, 2));
    assert(bytes_at(u, 6, 2) =~= bytes_at(s, pos + 6, 2));
    assert(bytes_at(u, 8, 2) =~= bytes_at(s, pos + 8, 2));
    assert(bytes_at(u, 10, 6) =~= bytes_at(s, pos + 10, 6));
}

pub(crate) proof fn lemma_stamps_read_back(
    a: Seq<u8>,
    immediate: u64,
    original: Option<u64>,
    b: Seq<u8>,
)
    requires
        immediate < 0x80_0000_0000_0000,
        original matches Some(o) ==> o < 0x100_0000_0000_0000,
    ensures
        ({
            let body = a + stamp_bytes(immediate, original) + b;
            let stamps = commit_timestamps_at(body, a.len());
            &&& stamp_bytes(immediate, original).len() >= 7
            &&& stamps.pos == a.len() + stamp_bytes(immediate, original).len()
            &&& stamps.result == Ok::<(u64, u64), BinlogError>(
                (
                    immediate,
                    match original {
                        Some(o) => o,
                        None => immediate,
                    },
                ),
            )
        }),
{
    lemma_pow256_values();
    match original {
        None => {
            lemma_le_round_trip(immediate as nat, 7);
            lemma_part(a, le_bytes(immediate as nat, 7), b);
        },
        Some(o) => {
            let first = le_bytes((immediate + 0x80_0000_0000_0000) as nat, 7);
            let second = le_bytes(o as nat, 7);
            lemma_le_round_trip((immediate + 0x80_0000_0000_0000) as nat, 7);
            lemma_le_round_trip(o as nat, 7);
            lemma_part(a, first, second + b);
            assert(a + (first + second) + b =~= a + first + (second + b));
            lemma_part(a + first, second, b);
            assert(a + (first + second) + b =~= a + first + second + b);
        },
    }
}

proof fn lemma_versions_read_back(a: Seq<u8>, immediate: u32, original: Option<u32>)
    requires
        immediate < 0x8000_0000,
    ensures
        ({
            let body = a + version_bytes(immediate, original);
            let versions = server_versions_at(body, a.len());
            &&& version_bytes(immediate, original).len() >= 4
            &&& versions.2 == body.len()
            &&& versions.0 == version_of(immediate as nat)
            &&& versions.1 == version_of(
                match original {
                    Some(o) => o as nat,
                    None => immediate as nat,
                },
            )
        }),
{
    lemma_pow256_values();
    let none = Seq::<u8>::empty();
    match original {
        None => {
            let first = le_bytes(immediate as nat, 4);
            lemma_le_round_trip(immediate as nat, 4);
            lemma_part(a, first, none);
            assert(a + first =~= a + first + none);
        },
        Some(o) => {
            let first = le_bytes((immediate + 0x8000_0000) as nat, 4);
            let second = le_bytes(o as nat, 4);
            lemma_le_round_trip((immediate + 0x8000_0000) as nat, 4);
            lemma_le_round_trip(o as nat, 4);
            lemma_part(a, first, second);
            assert(a + (first + second) =~= a + first + second);
            lemma_part(a + first, second, none);
            assert(a + first + second =~= a + first + second + none);
        },
    }
}

/// What a server wrote is what is read: of a body with all blocks, the parser gives back every
/// field, mirrors the timestamp and the version that were written once, and ends at the last
/// byte.
#[verifier::rlimit(30)]
pub proof fn lemma_gtid_round_trip(
    flags: u8,
    uuid: Seq<u8>,
    gno: u64,
    clock_type: u8,
    last_committed: i64,
    sequence_number: i64,
    immediate: u64,
    original: Option<u64>,
    transaction_length: u64,
    immediate_version: u32,
    original_version: Option<u32>,
)
    requires
        uuid.len() == 16,
        immediate < 0x80_0000_0000_0000,
        original matches Some(o) ==> o < 0x100_0000_0000_0000,
        immediate_version < 0x8000_0000,
    ensures
        ({
            let body = gtid_body_head(
                flags,
                uuid,
                gno,
                clock_type,
                last_committed,
                sequence_number,
            ) + stamp_bytes(immediate, original) + packed_bytes(transaction_length as nat)
                + version_bytes(immediate_version, original_version);
            let event = gtid_event_at(body, 0);
            &&& event.pos == body.len()
            &&& event.result == Ok::<GtidEventView, BinlogError>(
                GtidEventView {
                    flags,
                    gtid: uuid_text(uuid, 0) + seq![':'] + decimal_text(gno as nat),
                    last_committed: Some(last_committed),
                    sequence_number: Some(sequence_number),
                    immediate_commit_timestamp: Some(immediate),
                    original_commit_timestamp: match original {
                        Some(o) => Some(o),
                        None => Some(immediate),
                    },
                    transaction_length: Some(transaction_length),
                    immediate_server_version: version_of(immediate_version as nat),
                    original_server_version: version_of(
                        match original_version {
                            Some(o) => o as nat,
                            None => immediate_version as nat,
                        },
                    ),
                },
            )
        }),
{
    let head = gtid_body_head(flags, uuid, gno, clock_type, last_committed, sequence_number);
    let stamps = stamp_bytes(immediate, original);
    let length = packed_bytes(transaction_length as nat);
    let versions = version_bytes(immediate_version, original_version);
    let body = head + stamps + length + versions;
    lemma_head_layout(
        flags,
        uuid,
        gno,
        clock_type,
        last_committed,
        sequence_number,
        stamps + length + versions,
    );
    assert(body =~= head + (stamps + length + versions));
    lemma_stamps_read_back(head, immediate, original, length + versions);
    assert(body =~= head + stamps + (length + versions));
    lemma_part(head + stamps, length, versions);
    lemma_packed_round_trip(body, (head + stamps).len(), transaction_length);
    lemma_versions_read_back(head + stamps + length, immediate_version, original_version);
    lemma_uuid_of_bytes(body, 1);
}

} // verus!

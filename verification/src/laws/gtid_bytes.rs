//! Laws of MySQL's GTID event, byte by byte: where each field stands and what its bytes say.

use vstd::prelude::*;

use crate::bytes::{
    bytes_at, field, lemma_le_nat_bound, lemma_part, lemma_pow256_values,
};
use crate::cursor::{lemma_packed_round_trip, packed_bytes, Outcome};
use crate::error::BinlogError;
use crate::event::gtid_event::{
    bare_event, gtid_event_at, gtid_text, hex_at, uuid_at, uuid_text, version_of, GtidEvent,
    GtidEventView,
};
use crate::laws::gtid::{
    gtid_body_head, lemma_gtid_round_trip, lemma_head_layout, lemma_stamps_read_back, stamp_bytes,
    version_bytes,
};
use crate::laws::reads::{
    eight, four, lemma_field_bytes, lemma_packed_number_bytes, seven, three, two,
};
use crate::laws::text::{
    is_decimal, lemma_decimal_text_is_read_back, lemma_hex_text_goes_byte_by_byte,
};
use crate::text::{decimal_text, hex_text, lemma_hex_len};

verus! {

/// Whether `t` has at `at` the two lower-case hexadecimal digits of `b`, the upper one first.
pub open spec fn shows_byte(t: Seq<char>, at: int, b: u8) -> bool {
    &&& t[at] == "0123456789abcdef"@[b as int / 16]
    &&& t[at + 1] == "0123456789abcdef"@[b as int % 16]
}

/// Where in a UUID the digits of byte `i` stand: in the order of the bytes, each hyphen before
/// them moving them on by one.
pub open spec fn uuid_column(i: int) -> int {
    2 * i + if i < 4 {
        0int
    } else if i < 6 {
        1
    } else if i < 8 {
        2
    } else if i < 10 {
        3
    } else {
        4
    }
}

/// Whether `t` is the UUID that the 16 bytes at `p` make: 36 characters, with hyphens at 8, 13,
/// 18 and 23, and around these the digits of the bytes in their order.
pub open spec fn is_uuid(t: Seq<char>, s: Seq<u8>, p: int) -> bool {
    &&& t.len() == 36
    &&& t[8] == '-' && t[13] == '-' && t[18] == '-' && t[23] == '-'
    &&& forall|i: int| 0 <= i < 16 ==> shows_byte(t, uuid_column(i), #[trigger] s[p + i])
}

/// Bytes in hexadecimal are read exactly if they are all there, and show each byte as its two
/// digits.
pub proof fn lemma_hex_bytes(s: Seq<u8>, pos: nat, n: nat)
    ensures
        pos + n <= s.len() ==> {
            &&& hex_at(s, pos, n).pos == pos + n
            &&& hex_at(s, pos, n).result matches Ok(t)
            &&& t.len() == 2 * n
            &&& forall|i: int| 0 <= i < n ==> shows_byte(t, 2 * i, #[trigger] s[pos + i])
        },
        pos + n > s.len() && n > 0 ==> hex_at(s, pos, n).pos == s.len() && hex_at(
            s,
            pos,
            n,
        ).result == Err::<Seq<char>, BinlogError>(BinlogError::UnexpectedEof),
        n == 0 ==> hex_at(s, pos, n).pos == pos && hex_at(s, pos, n).result == Ok::<
            Seq<char>,
            BinlogError,
        >(Seq::empty()),
{
    let b = bytes_at(s, pos, n);
    lemma_hex_len(b);
    if pos + n <= s.len() {
        let t = hex_text(b);
        assert forall|i: int| 0 <= i < n implies shows_byte(t, 2 * i, #[trigger] s[pos + i]) by {
            lemma_hex_text_goes_byte_by_byte(b, i);
            assert(b[i] == s[pos + i]);
        }
    }
    if n == 0 {
        assert(b =~= Seq::empty());
        assert(hex_text(b) =~= Seq::empty());
    }
}

proof fn lemma_group_shows(s: Seq<u8>, pos: nat, first: int, n: nat, t: Seq<char>)
    requires
        pos + 16 <= s.len(),
        0 <= first,
        first + n <= 16,
        t.len() == 36,
        uuid_column(first) + 2 * n <= 36,
        t.subrange(uuid_column(first), uuid_column(first) + 2 * n) == hex_text(
            bytes_at(s, (pos + first) as nat, n),
        ),
        uuid_column(first + n - 1) == uuid_column(first) + 2 * (n - 1),
    ensures
        forall|i: int|
            first <= i < first + n ==> shows_byte(t, uuid_column(i), #[trigger] s[pos + i]),
{
    let b = bytes_at(s, (pos + first) as nat, n);
    let g = t.subrange(uuid_column(first), uuid_column(first) + 2 * n);
    assert forall|i: int| first <= i < first + n implies shows_byte(
        t,
        uuid_column(i),
        #[trigger] s[pos + i],
    ) by {
        lemma_hex_text_goes_byte_by_byte(b, i - first);
        assert(b[i - first] == s[pos + i]);
        assert(uuid_column(i) == uuid_column(first) + 2 * (i - first));
        assert(g[2 * (i - first)] == t[uuid_column(i)]);
        assert(g[2 * (i - first) + 1] == t[uuid_column(i) + 1]);
    }
}

proof fn lemma_uuid_text_bytes(s: Seq<u8>, pos: nat)
    requires
        pos + 16 <= s.len(),
    ensures
        is_uuid(uuid_text(s, pos), s, pos as int),
{
    let t = uuid_text(s, pos);
    lemma_hex_len(bytes_at(s, pos, 4));
    lemma_hex_len(bytes_at(s, pos + 4, 2));
    lemma_hex_len(bytes_at(s, pos + 6, 2));
    lemma_hex_len(bytes_at(s, pos + 8, 2));
    lemma_hex_len(bytes_at(s, pos + 10, 6));
    assert(t.subrange(0, 8) =~= hex_text(bytes_at(s, pos, 4)));
    assert(t.subrange(9, 13) =~= hex_text(bytes_at(s, pos + 4, 2)));
    assert(t.subrange(14, 18) =~= hex_text(bytes_at(s, pos + 6, 2)));
    assert(t.subrange(19, 23) =~= hex_text(bytes_at(s, pos + 8, 2)));
    assert(t.subrange(24, 36) =~= hex_text(bytes_at(s, pos + 10, 6)));
    lemma_group_shows(s, pos, 0, 4, t);
    lemma_group_shows(s, pos, 4, 2, t);
    lemma_group_shows(s, pos, 6, 2, t);
    lemma_group_shows(s, pos, 8, 2, t);
    lemma_group_shows(s, pos, 10, 6, t);
}

/// A UUID is read exactly if its 16 bytes are there, and shows them in their order.
pub proof fn lemma_uuid_bytes(s: Seq<u8>, pos: nat)
    ensures
        pos + 16 <= s.len() ==> {
            &&& uuid_at(s, pos).pos == pos + 16
            &&& uuid_at(s, pos).result matches Ok(t)
            &&& is_uuid(t, s, pos as int)
        },
        pos + 16 > s.len() ==> uuid_at(s, pos).pos == s.len() && uuid_at(s, pos).result == Err::<
            Seq<char>,
            BinlogError,
        >(BinlogError::UnexpectedEof),
{
    if pos + 16 <= s.len() {
        lemma_uuid_text_bytes(s, pos);
    }
}

/// The flags are the first byte; the GTID is the UUID of the 16 bytes behind it, a colon, and
/// the number in the 8 bytes behind these.
pub proof fn lemma_gtid_head_bytes(s: Seq<u8>, pos: nat)
    requires
        gtid_event_at(s, pos).result is Ok,
    ensures
        ({
            let p = pos as int;
            let ev = gtid_event_at(s, pos).result->Ok_0;
            &&& p + 25 <= s.len()
            &&& ev.flags == s[p]
            &&& ev.gtid.len() > 37
            &&& is_uuid(ev.gtid.take(36), s, p + 1)
            &&& ev.gtid[36] == ':'
            &&& is_decimal(ev.gtid.skip(37), eight(s, p + 17))
        }),
{
    lemma_uuid_text_bytes(s, pos + 1);
    lemma_field_bytes(s, pos + 17);
    lemma_decimal_text_is_read_back(field(s, pos + 17, 8));
    let t = gtid_text(s, pos);
    assert(t.take(36) =~= uuid_text(s, pos + 1));
    assert(t.skip(37) =~= decimal_text(field(s, pos + 17, 8)));
}

/// Whether `v` is the signed number whose 64 bits, taken without a sign, give `n`.
pub open spec fn has_bits(v: i64, n: int) -> bool {
    v == n || v == n - 0x1_0000_0000_0000_0000
}

/// The logical clock is there exactly if the body has 42 bytes: two signed numbers, behind the
/// type code.
pub proof fn lemma_gtid_clock_bytes(s: Seq<u8>, pos: nat)
    requires
        gtid_event_at(s, pos).result is Ok,
    ensures
        ({
            let p = pos as int;
            let ev = gtid_event_at(s, pos).result->Ok_0;
            &&& p + 42 <= s.len() ==> {
                &&& ev.last_committed is Some && ev.sequence_number is Some
                &&& has_bits(ev.last_committed->0, eight(s, p + 26))
                &&& has_bits(ev.sequence_number->0, eight(s, p + 34))
            }
            &&& p + 42 > s.len() ==> ev.last_committed is None && ev.sequence_number is None
        }),
{
    lemma_field_bytes(s, pos + 26);
    lemma_field_bytes(s, pos + 34);
}

/// Where the commit timestamps of the body at `p` end: the top bit of the first says whether a
/// second follows.
pub open spec fn behind_stamps(s: Seq<u8>, p: int) -> int {
    if s[p + 48] < 0x80 {
        p + 49
    } else {
        p + 56
    }
}

/// The commit timestamps are there exactly if the body has 49 bytes. Without the marker both
/// are the one number; with it, the first is what the lower 55 bits give and the second what
/// the next 7 bytes give.
pub proof fn lemma_gtid_stamp_bytes(s: Seq<u8>, pos: nat)
    requires
        gtid_event_at(s, pos).result is Ok,
    ensures
        ({
            let p = pos as int;
            let ev = gtid_event_at(s, pos).result->Ok_0;
            let immediate = ev.immediate_commit_timestamp;
            let original = ev.original_commit_timestamp;
            &&& p + 49 > s.len() ==> immediate is None && original is None
            &&& p + 49 <= s.len() ==> immediate is Some && original is Some
            &&& p + 49 <= s.len() && s[p + 48] < 0x80 ==> immediate->0 == seven(s, p + 42)
                && original->0 == seven(s, p + 42)
            &&& p + 49 <= s.len() && s[p + 48] >= 0x80 ==> immediate->0 + 0x80_0000_0000_0000
                == seven(s, p + 42) && original->0 == seven(s, p + 49)
        }),
{
    lemma_pow256_values();
    lemma_field_bytes(s, pos + 42);
    lemma_field_bytes(s, pos + 49);
    lemma_le_nat_bound(bytes_at(s, pos + 42, 7));
    lemma_le_nat_bound(bytes_at(s, pos + 49, 7));
}

/// How many bytes the packed number takes that starts with `first`.
pub open spec fn packed_width(first: u8) -> int {
    if first <= 250 {
        1
    } else if first == 252 {
        3
    } else if first == 253 {
        4
    } else {
        9
    }
}

/// A body is accepted exactly if its head is there, the original commit timestamp is there where
/// the marker announces it, and what follows them, if anything, is a whole packed number. Where
/// the latter starts with a byte that no number starts with, that byte is the error; else the
/// body ended too early.
pub proof fn lemma_gtid_accepted_bodies(s: Seq<u8>, pos: nat)
    ensures
        ({
            let p = pos as int;
            let b = behind_stamps(s, p);
            let event = gtid_event_at(s, pos);
            let odd = p + 49 <= s.len() && b < s.len() && (s[b] == 251 || s[b] == 255);
            &&& event.result is Ok <==> {
                &&& p + 25 <= s.len()
                &&& p + 49 <= s.len() ==> b <= s.len()
                &&& p + 49 <= s.len() && b < s.len() ==> !odd && b + packed_width(s[b]) <= s.len()
            }
            &&& event.result is Err && odd ==> event.pos == b + 1 && event.result == Err::<
                GtidEventView,
                BinlogError,
            >(BinlogError::InvalidPackedNumber(s[b]))
            &&& event.result is Err && !odd ==> event.pos == s.len() && event.result == Err::<
                GtidEventView,
                BinlogError,
            >(BinlogError::UnexpectedEof)
        }),
{
    let p = pos as int;
    lemma_pow256_values();
    lemma_field_bytes(s, pos + 42);
    lemma_le_nat_bound(bytes_at(s, pos + 42, 7));
    let b = behind_stamps(s, p);
    if p + 49 <= s.len() && b < s.len() {
        lemma_packed_number_bytes(s, b as nat);
    }
}

/// The transaction length is there exactly if a byte follows the commit timestamps, and is the
/// packed number that starts with this byte, whether or not anything follows it.
pub proof fn lemma_gtid_length_bytes(s: Seq<u8>, pos: nat)
    requires
        gtid_event_at(s, pos).result is Ok,
    ensures
        ({
            let p = pos as int;
            let b = behind_stamps(s, p);
            let length = gtid_event_at(s, pos).result->Ok_0.transaction_length;
            &&& length is Some <==> p + 49 <= s.len() && b < s.len()
            &&& length is Some && s[b] <= 250 ==> length->0 == s[b]
            &&& length is Some && s[b] == 252 ==> length->0 == two(s, b + 1)
            &&& length is Some && s[b] == 253 ==> length->0 == three(s, b + 1)
            &&& length is Some && s[b] == 254 ==> length->0 == eight(s, b + 1)
        }),
{
    let p = pos as int;
    lemma_pow256_values();
    lemma_field_bytes(s, pos + 42);
    lemma_le_nat_bound(bytes_at(s, pos + 42, 7));
    let b = behind_stamps(s, p);
    if p + 49 <= s.len() && b < s.len() {
        lemma_packed_number_bytes(s, b as nat);
    }
}

/// Whether `v` is the version that the lower 31 bits of `raw` give: none exactly if all of them
/// are set.
pub open spec fn is_version(v: Option<u32>, raw: int) -> bool {
    match v {
        Some(version) => version == raw % 0x8000_0000 && raw % 0x8000_0000 != 0x7fff_ffff,
        None => raw % 0x8000_0000 == 0x7fff_ffff,
    }
}

/// The server versions are there exactly if 4 bytes follow the transaction length. Without the
/// marker both are the one; with it, the second is what the next 4 bytes give, where these are
/// there.
#[verifier::rlimit(30)]
pub proof fn lemma_gtid_version_bytes(s: Seq<u8>, pos: nat)
    requires
        gtid_event_at(s, pos).result is Ok,
    ensures
        ({
            let p = pos as int;
            let b = behind_stamps(s, p);
            let c = b + packed_width(s[b]);
            let ev = gtid_event_at(s, pos).result->Ok_0;
            let immediate = ev.immediate_server_version;
            let original = ev.original_server_version;
            if p + 49 <= s.len() && b < s.len() && c + 4 <= s.len() {
                &&& is_version(immediate, four(s, c))
                &&& s[c + 3] < 0x80 ==> is_version(original, four(s, c))
                &&& s[c + 3] >= 0x80 && c + 8 <= s.len() ==> is_version(original, four(s, c + 4))
                &&& s[c + 3] >= 0x80 && c + 8 > s.len() ==> original is None
            } else {
                immediate is None && original is None
            }
        }),
{
    let p = pos as int;
    lemma_pow256_values();
    lemma_field_bytes(s, pos + 42);
    lemma_le_nat_bound(bytes_at(s, pos + 42, 7));
    let b = behind_stamps(s, p);
    if p + 49 <= s.len() && b < s.len() {
        lemma_packed_number_bytes(s, b as nat);
        let c = b + packed_width(s[b]);
        lemma_field_bytes(s, c as nat);
        lemma_field_bytes(s, (c + 4) as nat);
    }
}

/// An accepted body ends behind the last block that is complete.
#[verifier::rlimit(30)]
pub proof fn lemma_gtid_end(s: Seq<u8>, pos: nat)
    requires
        gtid_event_at(s, pos).result is Ok,
    ensures
        ({
            let p = pos as int;
            let b = behind_stamps(s, p);
            let c = b + packed_width(s[b]);
            gtid_event_at(s, pos).pos == (if p + 42 > s.len() {
                p + 25
            } else if p + 49 > s.len() {
                p + 42
            } else if b >= s.len() {
                b
            } else if c + 4 > s.len() {
                c
            } else if s[c + 3] >= 0x80 && c + 8 <= s.len() {
                c + 8
            } else {
                c + 4
            })
        }),
{
    let p = pos as int;
    lemma_pow256_values();
    lemma_field_bytes(s, pos + 42);
    lemma_le_nat_bound(bytes_at(s, pos + 42, 7));
    let b = behind_stamps(s, p);
    if p + 49 <= s.len() && b < s.len() {
        lemma_packed_number_bytes(s, b as nat);
        let c = b + packed_width(s[b]);
        lemma_field_bytes(s, c as nat);
    }
}

/// Whether `ev` has what a server wrote up to the transaction length, the timestamp that was
/// written once being in both fields.
pub open spec fn shows_written(
    ev: GtidEventView,
    flags: u8,
    uuid: Seq<u8>,
    gno: u64,
    last_committed: i64,
    sequence_number: i64,
    immediate: u64,
    original: Option<u64>,
    transaction_length: u64,
) -> bool {
    &&& ev.flags == flags
    &&& is_uuid(ev.gtid.take(36), uuid, 0)
    &&& ev.gtid[36] == ':'
    &&& is_decimal(ev.gtid.skip(37), gno as int)
    &&& ev.last_committed == Some(last_committed)
    &&& ev.sequence_number == Some(sequence_number)
    &&& ev.immediate_commit_timestamp == Some(immediate)
    &&& original is None ==> ev.original_commit_timestamp == Some(immediate)
    &&& original is Some ==> ev.original_commit_timestamp == original
    &&& ev.transaction_length == Some(transaction_length)
}

/// Whether `ev` has the versions that a server wrote: every one below `0x7fff_ffff`, which
/// stands for none. Of the original version only the lower 31 bits count; where it was not
/// written it is the immediate one.
pub open spec fn shows_versions(
    ev: GtidEventView,
    immediate: u32,
    original: Option<u32>,
) -> bool {
    &&& immediate < 0x7fff_ffff ==> ev.immediate_server_version == Some(immediate)
    &&& immediate == 0x7fff_ffff ==> ev.immediate_server_version is None
    &&& original is None ==> ev.original_server_version == ev.immediate_server_version
    &&& original matches Some(o) ==> is_version(ev.original_server_version, o as int)
}

/// What a server wrote is what is read of a body that ends with the transaction length,
/// whatever that is: it is given back, there are no versions, and the last byte is the end.
#[verifier::rlimit(30)]
pub proof fn lemma_gtid_round_trip_without_versions(
    flags: u8,
    uuid: Seq<u8>,
    gno: u64,
    clock_type: u8,
    last_committed: i64,
    sequence_number: i64,
    immediate: u64,
    original: Option<u64>,
    transaction_length: u64,
)
    requires
        uuid.len() == 16,
        immediate < 0x80_0000_0000_0000,
        original matches Some(o) ==> o < 0x100_0000_0000_0000,
    ensures
        ({
            let body = gtid_body_head(
                flags,
                uuid,
                gno,
                clock_type,
                last_committed,
                sequence_number,
            ) + stamp_bytes(immediate, original) + packed_bytes(transaction_length as nat);
            let event = gtid_event_at(body, 0);
            &&& event.pos == body.len()
            &&& event.result matches Ok(ev)
            &&& shows_written(
                ev,
                flags,
                uuid,
                gno,
                last_committed,
                sequence_number,
                immediate,
                original,
                transaction_length,
            )
            &&& ev.immediate_server_version is None
            &&& ev.original_server_version is None
        }),
{
    let head = gtid_body_head(flags, uuid, gno, clock_type, last_committed, sequence_number);
    let stamps = stamp_bytes(immediate, original);
    let length = packed_bytes(transaction_length as nat);
    let body = head + stamps + length;
    lemma_head_layout(
        flags,
        uuid,
        gno,
        clock_type,
        last_committed,
        sequence_number,
        stamps + length,
    );
    assert(body =~= head + (stamps + length));
    lemma_stamps_read_back(head, immediate, original, length);
    lemma_part(head + stamps, length, Seq::empty());
    assert(body =~= head + stamps + length + Seq::<u8>::empty());
    lemma_packed_round_trip(body, (head + stamps).len(), transaction_length);
    lemma_gtid_head_bytes(body, 0);
    lemma_field_bytes(body, 17);
    lemma_same_uuid(gtid_event_at(body, 0).result->Ok_0.gtid.take(36), body, 1, uuid);
}

proof fn lemma_same_uuid(t: Seq<char>, s: Seq<u8>, p: nat, uuid: Seq<u8>)
    requires
        uuid.len() == 16,
        p + 16 <= s.len(),
        bytes_at(s, p, 16) == uuid,
        is_uuid(t, s, p as int),
    ensures
        is_uuid(t, uuid, 0),
{
    assert forall|i: int| 0 <= i < 16 implies shows_byte(
        t,
        uuid_column(i),
        #[trigger] uuid[0 + i],
    ) by {
        assert(uuid[i] == s[p + i]);
    }
}

/// What a server wrote is what is read of a body with all blocks, up to its last byte.
#[verifier::spinoff_prover]
#[verifier::rlimit(30)]
pub proof fn lemma_gtid_round_trip_with_versions(
    flags: u8,
    uuid: Seq<u8>,
    gno: u64,
    clock_type: u8,
    last_committed: i64,
    sequence_number: i64,
    immediate: u64,
    original: Option<u64>,
    transaction_length: u64,
    immediate_version: u32,
    original_version: Option<u32>,
)
    requires
        uuid.len() == 16,
        immediate < 0x80_0000_0000_0000,
        original matches Some(o) ==> o < 0x100_0000_0000_0000,
        immediate_version < 0x8000_0000,
    ensures
        ({
            let body = gtid_body_head(
                flags,
                uuid,
                gno,
                clock_type,
                last_committed,
                sequence_number,
            ) + stamp_bytes(immediate, original) + packed_bytes(transaction_length as nat)
                + version_bytes(immediate_version, original_version);
            let event = gtid_event_at(body, 0);
            &&& event.pos == body.len()
            &&& event.result matches Ok(ev)
            &&& shows_written(
                ev,
                flags,
                uuid,
                gno,
                last_committed,
                sequence_number,
                immediate,
                original,
                transaction_length,
            )
            &&& shows_versions(ev, immediate_version, original_version)
        }),
{
    lemma_gtid_round_trip(
        flags,
        uuid,
        gno,
        clock_type,
        last_committed,
        sequence_number,
        immediate,
        original,
        transaction_length,
        immediate_version,
        original_version,
    );
    lemma_view_shows(
        gtid_event_at(
            gtid_body_head(flags, uuid, gno, clock_type, last_committed, sequence_number)
                + stamp_bytes(immediate, original) + packed_bytes(transaction_length as nat)
                + version_bytes(immediate_version, original_version),
            0,
        ),
        flags,
        uuid,
        gno,
        last_committed,
        sequence_number,
        immediate,
        original,
        transaction_length,
        immediate_version,
        original_version,
    );
}

proof fn lemma_view_shows(
    event: Outcome<GtidEventView>,
    flags: u8,
    uuid: Seq<u8>,
    gno: u64,
    last_committed: i64,
    sequence_number: i64,
    immediate: u64,
    original: Option<u64>,
    transaction_length: u64,
    immediate_version: u32,
    original_version: Option<u32>,
)
    requires
        uuid.len() == 16,
        immediate_version < 0x8000_0000,
        event.result == Ok::<GtidEventView, BinlogError>(
            GtidEventView {
                flags,
                gtid: uuid_text(uuid, 0) + seq![':'] + decimal_text(gno as nat),
                last_committed: Some(last_committed),
                sequence_number: Some(sequence_number),
                immediate_commit_timestamp: Some(immediate),
                original_commit_timestamp: match original {
                    Some(o) => Some(o),
                    None => Some(immediate),
                },
                transaction_length: Some(transaction_length),
                immediate_server_version: version_of(immediate_version as nat),
                original_server_version: version_of(
                    match original_version {
                        Some(o) => o as nat,
                        None => immediate_version as nat,
                    },
                ),
            },
        ),
    ensures
        event.result matches Ok(ev) && shows_written(
            ev,
            flags,
            uuid,
            gno,
            last_committed,
            sequence_number,
            immediate,
            original,
            transaction_length,
        ) && shows_versions(ev, immediate_version, original_version),
{
    lemma_rendered_gtid(uuid, gno);
}

proof fn lemma_rendered_gtid(uuid: Seq<u8>, gno: u64)
    requires
        uuid.len() == 16,
    ensures
        ({
            let t = uuid_text(uuid, 0) + seq![':'] + decimal_text(gno as nat);
            &&& is_uuid(t.take(36), uuid, 0)
            &&& t[36] == ':'
            &&& is_decimal(t.skip(37), gno as int)
        }),
{
    let t = uuid_text(uuid, 0) + seq![':'] + decimal_text(gno as nat);
    lemma_uuid_text_bytes(uuid, 0);
    lemma_decimal_text_is_read_back(gno as nat);
    assert(t.take(36) =~= uuid_text(uuid, 0));
    assert(t.skip(37) =~= decimal_text(gno as nat));
}

/// An event of which nothing else is known has its flags and its GTID, and no more.
pub proof fn lemma_gtid_bare_event(flags: u8, gtid: Seq<char>)
    ensures
        ({
            let ev = bare_event(flags, gtid);
            &&& ev.flags == flags
            &&& ev.gtid == gtid
            &&& ev.last_committed is None && ev.sequence_number is None
            &&& ev.immediate_commit_timestamp is None && ev.original_commit_timestamp is None
            &&& ev.transaction_length is None
            &&& ev.immediate_server_version is None && ev.original_server_version is None
        }),
{
}

/// The view of an event has the fields of the event.
pub proof fn lemma_gtid_view(ev: GtidEvent)
    ensures
        ev@.flags == ev.flags,
        ev@.gtid == ev.gtid@,
        ev@.last_committed == ev.last_committed,
        ev@.sequence_number == ev.sequence_number,
        ev@.immediate_commit_timestamp == ev.immediate_commit_timestamp,
        ev@.original_commit_timestamp == ev.original_commit_timestamp,
        ev@.transaction_length == ev.transaction_length,
        ev@.immediate_server_version == ev.immediate_server_version,
        ev@.original_server_version == ev.original_server_version,
{
}

} // verus!

//! Laws of the query event.

use vstd::prelude::*;
use vstd::utf8::{encode_utf8, encode_utf8_decode_utf8, encode_utf8_valid_utf8};

use crate::bytes::{
    byte_at, bytes_at, bytes_from, field, le_bytes, lemma_le_nat_bound, lemma_le_round_trip,
    lemma_part, lemma_pow256_values, lemma_same_bytes_behind, remaining,
};
use crate::cursor::terminated_string_at;
use crate::error::BinlogError;
use crate::event::query_event::{block_end, query_event_at, status_vars_at, QueryEventView};
use crate::laws::status_vars::{
    are_complete, block_bytes, last_fraction, lemma_complete_entries_are_accepted,
    lemma_status_vars_keep_alignment,
};

verus! {

/// Only the fraction depends on the status variables, on what is in them and on how long they
/// are: two bodies with the same head, the length of the block aside, and the same bytes behind
/// their blocks, both of which are accepted, give the same thread, times, error code, schema and
/// statement, and end equally far behind the block; or they give the same error.
pub proof fn lemma_rest_ignores_status_vars(s: Seq<u8>, p: nat, t: Seq<u8>, q: nat)
    requires
        s.len() <= i64::MAX,
        t.len() <= i64::MAX,
        remaining(s, p) >= 13,
        remaining(t, q) >= 13,
        bytes_at(s, p, 11) == bytes_at(t, q, 11),
        bytes_from(s, block_end(p + 13, field(s, p + 11, 2))) == bytes_from(
            t,
            block_end(q + 13, field(t, q + 11, 2)),
        ),
        status_vars_at(s, p + 13, field(s, p + 11, 2)).result is Ok,
        status_vars_at(t, q + 13, field(t, q + 11, 2)).result is Ok,
    ensures
        match query_event_at(s, p).result {
            Ok(a) => {
                &&& query_event_at(t, q).result matches Ok(b)
                &&& a == (QueryEventView { microsecond_fraction: a.microsecond_fraction, ..b })
                &&& query_event_at(s, p).pos - block_end(p + 13, field(s, p + 11, 2))
                    == query_event_at(t, q).pos - block_end(q + 13, field(t, q + 11, 2))
            },
            Err(e) => query_event_at(t, q).result == Err::<QueryEventView, BinlogError>(e),
        },
{
    let length_s = field(s, p + 11, 2);
    let length_t = field(t, q + 11, 2);
    let end_s = block_end(p + 13, length_s);
    let end_t = block_end(q + 13, length_t);
    let n = byte_at(s, p + 8) as nat;
    lemma_pow256_values();
    lemma_le_nat_bound(bytes_at(s, p + 11, 2));
    lemma_le_nat_bound(bytes_at(t, q + 11, 2));
    lemma_inside_head(s, p, t, q, 0, 4);
    lemma_inside_head(s, p, t, q, 4, 4);
    lemma_inside_head(s, p, t, q, 8, 1);
    lemma_inside_head(s, p, t, q, 9, 2);
    lemma_status_vars_keep_alignment(s, p + 13, length_s);
    lemma_status_vars_keep_alignment(t, q + 13, length_t);
    assert(remaining(s, end_s) == bytes_from(s, end_s).len());
    assert(remaining(t, end_t) == bytes_from(t, end_t).len());
    if n <= remaining(s, end_s) {
        lemma_same_bytes_behind(s, end_s, t, end_t, n + 1);
        assert(terminated_string_at(s, end_s, n).pos == end_s + n + 1);
        assert(terminated_string_at(t, end_t, n).pos == end_t + n + 1);
    }
}

/// Equal heads have equal fields.
proof fn lemma_inside_head(s: Seq<u8>, p: nat, t: Seq<u8>, q: nat, k: nat, n: nat)
    requires
        remaining(s, p) >= 11,
        remaining(t, q) >= 11,
        bytes_at(s, p, 11) == bytes_at(t, q, 11),
        0 < n,
        k + n <= 11,
    ensures
        field(s, p + k, n) == field(t, q + k, n),
        byte_at(s, p + k) == byte_at(t, q + k),
{
    let head = bytes_at(s, p, 11);
    assert(bytes_at(s, p + k, n) =~= head.subrange(k as int, (k + n) as int));
    assert(bytes_at(t, q + k, n) =~= head.subrange(k as int, (k + n) as int));
    assert(byte_at(s, p + k) == head[k as int]);
    assert(byte_at(t, q + k) == head[k as int]);
}

/// The body of a query event as a server writes it.
pub open spec fn query_body(
    thread_id: u32,
    exec_time: u32,
    error_code: u16,
    status_vars: Seq<u8>,
    schema: Seq<char>,
    query: Seq<char>,
) -> Seq<u8> {
    le_bytes(thread_id as nat, 4) + le_bytes(exec_time as nat, 4) + seq![
        encode_utf8(schema).len() as u8,
    ] + le_bytes(error_code as nat, 2) + le_bytes(status_vars.len(), 2) + status_vars
        + encode_utf8(schema) + seq![0u8] + encode_utf8(query)
}

proof fn lemma_query_body_layout(
    thread_id: u32,
    exec_time: u32,
    error_code: u16,
    status_vars: Seq<u8>,
    schema: Seq<char>,
    query: Seq<char>,
)
    requires
        encode_utf8(schema).len() <= u8::MAX,
        status_vars.len() <= u16::MAX,
    ensures
        ({
            let body = query_body(thread_id, exec_time, error_code, status_vars, schema, query);
            let v = status_vars.len();
            let n = encode_utf8(schema).len();
            &&& body.len() == 14 + v + n + encode_utf8(query).len()
            &&& field(body, 0, 4) == thread_id
            &&& field(body, 4, 4) == exec_time
            &&& byte_at(body, 8) == n
            &&& field(body, 9, 2) == error_code
            &&& field(body, 11, 2) == v
            &&& bytes_at(body, 13, v) == status_vars
            &&& bytes_at(body, 13 + v, n) == encode_utf8(schema)
            &&& bytes_from(body, 14 + v + n) == encode_utf8(query)
        }),
{
    let body = query_body(thread_id, exec_time, error_code, status_vars, schema, query);
    let name = encode_utf8(schema);
    let statement = encode_utf8(query);
    let thread = le_bytes(thread_id as nat, 4);
    let time = le_bytes(exec_time as nat, 4);
    let error = le_bytes(error_code as nat, 2);
    let length = le_bytes(status_vars.len(), 2);
    lemma_pow256_values();
    lemma_le_round_trip(thread_id as nat, 4);
    lemma_le_round_trip(exec_time as nat, 4);
    lemma_le_round_trip(error_code as nat, 2);
    lemma_le_round_trip(status_vars.len(), 2);
    let p1 = thread + time;
    let p2 = p1 + seq![name.len() as u8];
    let p3 = p2 + error;
    let p4 = p3 + length;
    let p5 = p4 + status_vars;
    let p6 = p5 + name + seq![0u8];
    let end = status_vars + name + seq![0u8] + statement;
    lemma_part(Seq::empty(), thread, time + seq![name.len() as u8] + error + length + end);
    assert(body =~= Seq::<u8>::empty() + thread + (time + seq![name.len() as u8] + error + length
        + end));
    lemma_part(thread, time, seq![name.len() as u8] + error + length + end);
    assert(body =~= thread + time + (seq![name.len() as u8] + error + length + end));
    lemma_part(p1, seq![name.len() as u8], error + length + end);
    assert(body =~= p1 + seq![name.len() as u8] + (error + length + end));
    assert(byte_at(body, 8) == bytes_at(body, 8, 1)[0]);
    lemma_part(p2, error, length + end);
    assert(body =~= p2 + error + (length + end));
    lemma_part(p3, length, end);
    assert(body =~= p3 + length + end);
    lemma_part(p4, status_vars, name + seq![0u8] + statement);
    assert(body =~= p4 + status_vars + (name + seq![0u8] + statement));
    lemma_part(p5, name, seq![0u8] + statement);
    assert(body =~= p5 + name + (seq![0u8] + statement));
    lemma_part(p6, statement, Seq::empty());
}

/// Whatever block of status variables stands in a body, if it is accepted then what a server
/// wrote is what is read: thread, time, error code, schema and statement, with the fraction of
/// the block.
pub proof fn lemma_query_round_trip_around_block(
    thread_id: u32,
    exec_time: u32,
    error_code: u16,
    status_vars: Seq<u8>,
    schema: Seq<char>,
    query: Seq<char>,
)
    requires
        encode_utf8(schema).len() <= u8::MAX,
        status_vars.len() <= u16::MAX,
        query_body(thread_id, exec_time, error_code, status_vars, schema, query).len() <= u64::MAX,
        status_vars_at(
            query_body(thread_id, exec_time, error_code, status_vars, schema, query),
            13,
            status_vars.len(),
        ).result is Ok,
    ensures
        ({
            let body = query_body(thread_id, exec_time, error_code, status_vars, schema, query);
            let event = query_event_at(body, 0);
            &&& event.pos == body.len()
            &&& event.result == Ok::<QueryEventView, BinlogError>(
                QueryEventView {
                    thread_id,
                    exec_time,
                    error_code,
                    schema,
                    query,
                    microsecond_fraction: status_vars_at(body, 13, status_vars.len()).result->Ok_0,
                },
            )
        }),
{
    let body = query_body(thread_id, exec_time, error_code, status_vars, schema, query);
    lemma_query_body_layout(thread_id, exec_time, error_code, status_vars, schema, query);
    lemma_status_vars_keep_alignment(body, 13, status_vars.len());
    encode_utf8_valid_utf8(schema);
    encode_utf8_valid_utf8(query);
    encode_utf8_decode_utf8(schema);
    encode_utf8_decode_utf8(query);
}

/// What a server wrote is what is read: the parser gives back thread, time, error code, schema
/// and statement, and, of whatever complete entries with known tags the server wrote as status
/// variables, the last fraction.
pub proof fn lemma_query_round_trip(
    thread_id: u32,
    exec_time: u32,
    error_code: u16,
    entries: Seq<Seq<u8>>,
    schema: Seq<char>,
    query: Seq<char>,
)
    requires
        are_complete(entries),
        encode_utf8(schema).len() <= u8::MAX,
        block_bytes(entries).len() <= u16::MAX,
        query_body(
            thread_id,
            exec_time,
            error_code,
            block_bytes(entries),
            schema,
            query,
        ).len() <= u64::MAX,
    ensures
        ({
            let body = query_body(
                thread_id,
                exec_time,
                error_code,
                block_bytes(entries),
                schema,
                query,
            );
            let event = query_event_at(body, 0);
            &&& event.pos == body.len()
            &&& event.result == Ok::<QueryEventView, BinlogError>(
                QueryEventView {
                    thread_id,
                    exec_time,
                    error_code,
                    schema,
                    query,
                    microsecond_fraction: last_fraction(entries),
                },
            )
        }),
{
    let vars = block_bytes(entries);
    let body = query_body(thread_id, exec_time, error_code, vars, schema, query);
    lemma_query_body_layout(thread_id, exec_time, error_code, vars, schema, query);
    lemma_complete_entries_are_accepted(entries, body, 13);
    lemma_query_round_trip_around_block(thread_id, exec_time, error_code, vars, schema, query);
}

} // verus!

//! Laws of the query event, byte by byte.

use vstd::prelude::*;
use vstd::utf8::encode_utf8;

use crate::cursor::{rest_string_at, terminated_string_at};
use crate::error::BinlogError;
use crate::event::query_event::{query_event_at, status_vars_at, QueryEvent, QueryEventView};
use crate::laws::reads::{
    four, lemma_field_bytes, lemma_sized_string, lemma_string_to_the_end, two,
};
use crate::laws::status_vars::lemma_status_vars_keep_alignment;

verus! {

/// Whether `b` is the encoding of a text.
pub open spec fn is_text(b: Seq<u8>) -> bool {
    exists|t: Seq<char>| #[trigger] encode_utf8(t) == b
}

/// The bytes of `s` from `i` up to `j`, as far as there are any.
pub open spec fn between(s: Seq<u8>, i: int, j: int) -> Seq<u8> {
    if 0 <= i <= j <= s.len() {
        s.subrange(i, j)
    } else {
        Seq::empty()
    }
}

/// Where the fields of a body stand, and what their bytes say: the numbers of the post-header
/// at their places, the schema behind the status variables, the statement behind the schema and
/// its terminator, up to the end. The fraction is that of the status variables.
pub proof fn lemma_query_bytes(s: Seq<u8>, pos: nat)
    requires
        s.len() <= i64::MAX,
        query_event_at(s, pos).result is Ok,
    ensures
        ({
            let p = pos as int;
            let v = p + 13 + two(s, p + 11);
            let n = s[p + 8] as int;
            let vars = status_vars_at(s, pos + 13, two(s, p + 11) as nat);
            let event = query_event_at(s, pos);
            let ev = event.result->Ok_0;
            &&& p + 13 <= s.len()
            &&& ev.thread_id == four(s, p)
            &&& ev.exec_time == four(s, p + 4)
            &&& ev.error_code == two(s, p + 9)
            &&& vars.result == Ok::<Option<u32>, BinlogError>(ev.microsecond_fraction)
            &&& n == 0 || v + n <= s.len()
            &&& encode_utf8(ev.schema) == between(s, v, v + n)
            &&& encode_utf8(ev.query) == between(s, v + n + 1, s.len() as int)
            &&& event.pos == (if v + n + 1 <= s.len() {
                s.len() as int
            } else {
                v + n + 1
            })
        }),
{
    let p = pos as int;
    let v = (p + 13 + two(s, p + 11)) as nat;
    let n = s[p + 8] as nat;
    let ev = query_event_at(s, pos).result->Ok_0;
    lemma_field_bytes(s, pos);
    lemma_field_bytes(s, pos + 4);
    lemma_field_bytes(s, pos + 9);
    lemma_field_bytes(s, pos + 11);
    lemma_status_vars_keep_alignment(s, pos + 13, two(s, p + 11) as nat);
    lemma_sized_string(s, v, n, ev.schema);
    assert(terminated_string_at(s, v, n).result == Ok::<Seq<char>, BinlogError>(ev.schema));
    lemma_string_to_the_end(s, v + n + 1, ev.query);
    assert(rest_string_at(s, v + n + 1).result == Ok::<Seq<char>, BinlogError>(ev.query));
    if v + n > s.len() {
        assert(encode_utf8(ev.schema) =~= Seq::empty());
    }
    if v + n + 1 > s.len() {
        assert(encode_utf8(ev.query) =~= Seq::empty());
    }
}

/// A body is refused with the first thing that is wrong with it: the post-header is not whole;
/// the status variables are refused; the schema is not all there, or is no text; the statement
/// is no text. Else it is accepted.
pub proof fn lemma_query_accepted_bodies(s: Seq<u8>, pos: nat)
    requires
        s.len() <= i64::MAX,
    ensures
        ({
            let p = pos as int;
            let v = p + 13 + two(s, p + 11);
            let n = s[p + 8] as int;
            let vars = status_vars_at(s, pos + 13, two(s, p + 11) as nat);
            let event = query_event_at(s, pos);
            if p + 13 > s.len() {
                is_refused_body(s, pos, BinlogError::UnexpectedEof, s.len() as int)
            } else if vars.result is Err {
                is_refused_body(s, pos, vars.result->Err_0, vars.pos as int)
            } else if n > 0 && v + n > s.len() {
                is_refused_body(s, pos, BinlogError::UnexpectedEof, s.len() as int)
            } else if !is_text(between(s, v, v + n)) || !is_text(
                between(s, v + n + 1, s.len() as int),
            ) {
                is_refused_body(s, pos, BinlogError::InvalidUtf8, v + n + 1)
            } else {
                event.result is Ok
            }
        }),
{
    let p = pos as int;
    let len = two(s, p + 11) as nat;
    let v = (p + 13 + len) as nat;
    let n = s[p + 8] as nat;
    lemma_field_bytes(s, pos + 11);
    if p + 13 <= s.len() && status_vars_at(s, pos + 13, len).result is Ok {
        lemma_status_vars_keep_alignment(s, pos + 13, len);
        if n == 0 || v + n <= s.len() {
            lemma_sized_is_text(s, v, n);
            lemma_rest_is_text(s, v + n + 1);
        }
    }
}

/// Whether the body at `pos` is refused with `e`, the cursor being left at `at`.
pub open spec fn is_refused_body(s: Seq<u8>, pos: nat, e: BinlogError, at: int) -> bool {
    &&& query_event_at(s, pos).result == Err::<QueryEventView, BinlogError>(e)
    &&& query_event_at(s, pos).pos == at
}

proof fn lemma_nothing_is_text()
    ensures
        is_text(Seq::empty()),
{
    assert(encode_utf8(Seq::empty()) =~= Seq::empty());
}

proof fn lemma_sized_is_text(s: Seq<u8>, at: nat, n: nat)
    requires
        s.len() <= i64::MAX,
        at < u64::MAX,
        n == 0 || at + n <= s.len(),
    ensures
        ({
            let read = terminated_string_at(s, at, n);
            &&& read.result is Ok <==> is_text(between(s, at as int, (at + n) as int))
            &&& read.result is Err ==> read.result == Err::<Seq<char>, BinlogError>(
                BinlogError::InvalidUtf8,
            )
            &&& read.pos == at + n + 1
        }),
{
    let b = between(s, at as int, (at + n) as int);
    lemma_nothing_is_text();
    lemma_sized_string(s, at, n, Seq::empty());
    if let Ok(t) = terminated_string_at(s, at, n).result {
        lemma_sized_string(s, at, n, t);
        if at + n <= s.len() {
            assert(encode_utf8(t) == b);
        }
    }
    if is_text(b) && at + n <= s.len() {
        let t = choose|t: Seq<char>| #[trigger] encode_utf8(t) == b;
        lemma_sized_string(s, at, n, t);
    }
}

proof fn lemma_rest_is_text(s: Seq<u8>, at: nat)
    ensures
        ({
            let read = rest_string_at(s, at);
            &&& read.result is Ok <==> is_text(between(s, at as int, s.len() as int))
            &&& read.result is Err ==> read.pos == at && read.result == Err::<
                Seq<char>,
                BinlogError,
            >(BinlogError::InvalidUtf8)
        }),
{
    let b = between(s, at as int, s.len() as int);
    lemma_nothing_is_text();
    lemma_string_to_the_end(s, at, Seq::empty());
    if at <= s.len() {
        if let Ok(t) = rest_string_at(s, at).result {
            lemma_string_to_the_end(s, at, t);
            assert(encode_utf8(t) == b);
        }
        if is_text(b) {
            let t = choose|t: Seq<char>| #[trigger] encode_utf8(t) == b;
            lemma_string_to_the_end(s, at, t);
        }
    }
}

/// The view of an event has the fields of the event.
pub proof fn lemma_query_view(ev: QueryEvent)
    ensures
        ev@.thread_id == ev.thread_id,
        ev@.exec_time == ev.exec_time,
        ev@.error_code == ev.error_code,
        ev@.schema == ev.schema@,
        ev@.query == ev.query@,
        ev@.microsecond_fraction == ev.microsecond_fraction,
{
}

} // verus!

//! Status variables as a server writes them, and what is read of them.

use vstd::prelude::*;
use vstd::utf8::{
    char_u32_cast, encode_scalar, encode_utf8, has_width_1_encoding,
    last_continuation_byte, leading_byte_width_1, leading_byte_width_2, leading_byte_width_3,
    leading_byte_width_4, second_last_continuation_byte, third_last_continuation_byte,
};

use crate::bytes::{
    bytes_at, le_bytes, lemma_le_round_trip, lemma_part, lemma_pow256_values,
};
use crate::cursor::{lemma_packed_round_trip, packed_bytes};
use crate::error::BinlogError;
use crate::event::query_event::{
    query_event_at, skip_names, status_var_at, status_vars_at, StatusVar,
};
use crate::laws::entries::{
    lemma_databases_entry_bytes, lemma_fixed_entry_bytes, lemma_invoker_entry_bytes,
    lemma_microseconds_entry_bytes, lemma_short_string_entry_bytes,
};
use crate::laws::query::{lemma_query_round_trip, query_body};
use crate::laws::reads::{lemma_field_bytes, lemma_first_zero, lemma_string_up_to_zero};
use crate::laws::status_vars::{
    are_complete, block_bytes, entry_fraction, is_complete_entry, last_fraction,
    lemma_complete_entries_are_accepted, lemma_complete_entry_is_read, names_are_complete,
};

verus! {

/// A status variable as a server has it before writing.
pub enum WrittenVar {
    /// One with a payload of fixed size.
    Sized { tag: u8, payload: Seq<u8> },
    /// A name behind its length: the time zone, or the catalog without a terminator.
    Named { tag: u8, name: Seq<u8> },
    /// The catalog as old servers write it, with a terminator.
    Catalog { name: Seq<u8> },
    /// The user and the host on whose behalf the statement runs.
    Invoker { user: Seq<u8>, host: Seq<u8> },
    /// The databases that the statement changes.
    Databases { names: Seq<Seq<char>> },
    /// That these databases are too many to be listed.
    DatabasesOmitted,
    /// The microsecond fraction of the start time, as MySQL or as MariaDB tags it.
    Microseconds { tag: u8, us: nat },
}

/// Whether there is such a variable: the payload has the size that the tag demands, lengths fit
/// their fields, and no name holds what ends a name.
pub open spec fn is_writable(v: WrittenVar) -> bool {
    match v {
        WrittenVar::Sized { tag, payload } => {
            ||| (tag == 0x00 || tag == 0x03 || tag == 0x0a) && payload.len() == 4
            ||| (tag == 0x01 || tag == 0x09 || tag == 0x11) && payload.len() == 8
            ||| tag == 0x04 && payload.len() == 6
            ||| (tag == 0x07 || tag == 0x08 || tag == 0x12) && payload.len() == 2
            ||| (tag == 0x10 || tag == 0x13 || tag == 0x14) && payload.len() == 1
        },
        WrittenVar::Named { tag, name } => (tag == 0x05 || tag == 0x06) && name.len() <= 255,
        WrittenVar::Catalog { name } => name.len() <= 255,
        WrittenVar::Invoker { user, host } => true,
        WrittenVar::Databases { names } => {
            &&& names.len() <= 255
            &&& names.len() != 254
            &&& forall|i: int| 0 <= i < names.len() ==> is_name(#[trigger] names[i])
        },
        WrittenVar::DatabasesOmitted => true,
        WrittenVar::Microseconds { tag, us } => (tag == 0x0d || tag == 0x80) && us < 0x100_0000,
    }
}

/// Whether `t` can be written with a zero byte behind it: it has no such character itself.
pub open spec fn is_name(t: Seq<char>) -> bool {
    forall|i: int| 0 <= i < t.len() ==> #[trigger] t[i] != '\0'
}

/// Names one behind the other, each with a zero byte behind it.
pub open spec fn name_bytes(names: Seq<Seq<char>>) -> Seq<u8>
    decreases names.len(),
{
    if names.len() == 0 {
        Seq::empty()
    } else {
        encode_utf8(names.first()) + seq![0u8] + name_bytes(names.drop_first())
    }
}

/// The bytes of a variable.
pub open spec fn wire(v: WrittenVar) -> Seq<u8> {
    match v {
        WrittenVar::Sized { tag, payload } => seq![tag] + payload,
        WrittenVar::Named { tag, name } => seq![tag, name.len() as u8] + name,
        WrittenVar::Catalog { name } => seq![0x02u8, name.len() as u8] + name + seq![0u8],
        WrittenVar::Invoker { user, host } => seq![0x0bu8] + packed_bytes(user.len()) + user
            + packed_bytes(host.len()) + host,
        WrittenVar::Databases { names } => seq![0x0cu8, names.len() as u8] + name_bytes(names),
        WrittenVar::DatabasesOmitted => seq![0x0cu8, 254u8],
        WrittenVar::Microseconds { tag, us } => seq![tag] + le_bytes(us, 3),
    }
}

/// The fraction of a second that a variable gives.
pub open spec fn given(v: WrittenVar) -> Option<u32> {
    match v {
        WrittenVar::Microseconds { tag, us } => if us < 1_000_000 {
            Some(us as u32)
        } else {
            None
        },
        _ => None,
    }
}

proof fn lemma_scalar_without_zero(c: u32)
    requires
        c != 0,
    ensures
        forall|i: int| 0 <= i < encode_scalar(c).len() ==> #[trigger] encode_scalar(c)[i] != 0,
{
    assert(has_width_1_encoding(c) && c != 0 ==> leading_byte_width_1(c) != 0) by (bit_vector);
    assert(leading_byte_width_2(c) != 0) by (bit_vector);
    assert(leading_byte_width_3(c) != 0) by (bit_vector);
    assert(leading_byte_width_4(c) != 0) by (bit_vector);
    assert(last_continuation_byte(c) != 0) by (bit_vector);
    assert(second_last_continuation_byte(c) != 0) by (bit_vector);
    assert(third_last_continuation_byte(c) != 0) by (bit_vector);
}

proof fn lemma_name_has_no_zero(t: Seq<char>)
    requires
        is_name(t),
    ensures
        forall|i: int| 0 <= i < encode_utf8(t).len() ==> #[trigger] encode_utf8(t)[i] != 0,
    decreases t.len(),
{
    if t.len() > 0 {
        let head = encode_scalar(t[0] as u32);
        let rest = t.drop_first();
        assert(t[0] != '\0');
        char_u32_cast(t[0], t[0] as u32);
        lemma_scalar_without_zero(t[0] as u32);
        assert forall|i: int| 0 <= i < rest.len() implies #[trigger] rest[i] != '\0' by {
            assert(rest[i] == t[i + 1]);
        }
        lemma_name_has_no_zero(rest);
        assert forall|i: int| 0 <= i < encode_utf8(t).len() implies #[trigger] encode_utf8(t)[i]
            != 0 by {
            if i >= head.len() {
                assert(encode_utf8(t)[i] == encode_utf8(rest)[i - head.len()]);
            } else {
                assert(encode_utf8(t)[i] == head[i]);
            }
        }
    }
}

proof fn lemma_names_are_read(e: Seq<u8>, k: nat, names: Seq<Seq<char>>)
    requires
        k <= e.len(),
        e.skip(k as int) == name_bytes(names),
        forall|i: int| 0 <= i < names.len() ==> is_name(#[trigger] names[i]),
    ensures
        names_are_complete(e, k, names.len()),
        skip_names(e, k, names.len()).result == Ok::<StatusVar, BinlogError>(StatusVar::Skipped),
        skip_names(e, k, names.len()).pos == e.len(),
    decreases names.len(),
{
    if names.len() > 0 {
        let first = encode_utf8(names.first());
        let rest = names.drop_first();
        let end = k + first.len();
        let behind = e.skip(k as int);
        assert(is_name(names[0]));
        lemma_name_has_no_zero(names.first());
        assert(behind[first.len() as int] == 0);
        assert(e[end as int] == 0);
        assert forall|i: int| k <= i < end implies #[trigger] e[i] != 0 by {
            assert(e[i] == behind[i - k]);
            assert(behind[i - k] == first[i - k]);
        }
        assert(e.subrange(k as int, end as int) =~= first);
        lemma_string_up_to_zero(e, k, end, names.first());
        lemma_first_zero(e, k, end);
        assert(behind.skip(first.len() as int + 1) =~= name_bytes(rest));
        assert(e.skip(end as int + 1) =~= behind.skip(first.len() as int + 1));
        assert forall|i: int| 0 <= i < rest.len() implies is_name(#[trigger] rest[i]) by {
            assert(rest[i] == names[i + 1]);
        }
        lemma_names_are_read(e, end + 1, rest);
    } else {
        assert(e.skip(k as int).len() == 0);
    }
}

proof fn lemma_invoker_is_read(user: Seq<u8>, host: Seq<u8>)
    requires
        wire(WrittenVar::Invoker { user, host }).len() <= i64::MAX,
    ensures
        is_complete_entry(wire(WrittenVar::Invoker { user, host })),
        status_var_at(wire(WrittenVar::Invoker { user, host }), 0).result == Ok::<
            StatusVar,
            BinlogError,
        >(StatusVar::Skipped),
{
    let e = wire(WrittenVar::Invoker { user, host });
    let a = packed_bytes(user.len());
    let b = packed_bytes(host.len());
    let tag = seq![0x0bu8];
    lemma_part(tag, a, user + b + host);
    assert(e =~= tag + a + (user + b + host));
    lemma_packed_round_trip(e, 1, user.len() as u64);
    let c = tag + a + user;
    lemma_part(c, b, host);
    assert(e =~= c + b + host);
    lemma_packed_round_trip(e, c.len(), host.len() as u64);
    lemma_invoker_entry_bytes(e, 0);
}

proof fn lemma_written_entry_is_complete(v: WrittenVar)
    requires
        is_writable(v),
        wire(v).len() <= i64::MAX,
    ensures
        is_complete_entry(wire(v)),
        status_var_at(wire(v), 0).result == Ok::<StatusVar, BinlogError>(
            match given(v) {
                Some(us) => StatusVar::Microseconds(us),
                None => StatusVar::Skipped,
            },
        ),
{
    let e = wire(v);
    match v {
        WrittenVar::Sized { tag, payload } => {
            lemma_fixed_entry_bytes(e, 0);
        },
        WrittenVar::Named { tag, name } => {
            lemma_short_string_entry_bytes(e, 0);
        },
        WrittenVar::Catalog { name } => {
            lemma_short_string_entry_bytes(e, 0);
        },
        WrittenVar::Invoker { user, host } => {
            lemma_invoker_is_read(user, host);
        },
        WrittenVar::Databases { names } => {
            lemma_databases_entry_bytes(e, 0);
            assert(e.skip(2) =~= name_bytes(names));
            lemma_names_are_read(e, 2, names);
        },
        WrittenVar::DatabasesOmitted => {
            lemma_databases_entry_bytes(e, 0);
        },
        WrittenVar::Microseconds { tag, us } => {
            lemma_pow256_values();
            lemma_le_round_trip(us, 3);
            lemma_part(seq![tag], le_bytes(us, 3), Seq::empty());
            assert(e =~= seq![tag] + le_bytes(us, 3) + Seq::<u8>::empty());
            lemma_field_bytes(e, 1);
            lemma_microseconds_entry_bytes(e, 0);
        },
    }
}

/// A variable that a server wrote is read to its last byte, wherever it stands and whatever
/// follows it, and gives its fraction or nothing.
pub proof fn lemma_written_entry(v: WrittenVar, s: Seq<u8>, pos: nat)
    requires
        is_writable(v),
        pos + wire(v).len() <= s.len() <= i64::MAX,
        s.subrange(pos as int, pos as int + wire(v).len()) == wire(v),
    ensures
        status_var_at(s, pos).pos == pos + wire(v).len(),
        status_var_at(s, pos).result == Ok::<StatusVar, BinlogError>(
            match given(v) {
                Some(us) => StatusVar::Microseconds(us),
                None => StatusVar::Skipped,
            },
        ),
{
    lemma_written_entry_is_complete(v);
    assert(bytes_at(s, pos, wire(v).len()) =~= wire(v));
    lemma_complete_entry_is_read(wire(v), s, pos);
}

/// Variables one behind the other.
pub open spec fn written_block(vars: Seq<WrittenVar>) -> Seq<u8>
    decreases vars.len(),
{
    if vars.len() == 0 {
        Seq::empty()
    } else {
        wire(vars.first()) + written_block(vars.drop_first())
    }
}

/// Whether `fraction` is what the last of `vars` gives that gives any.
pub open spec fn is_last_given(vars: Seq<WrittenVar>, fraction: Option<u32>) -> bool {
    match fraction {
        None => forall|i: int| 0 <= i < vars.len() ==> given(#[trigger] vars[i]) is None,
        Some(us) => exists|i: int|
            {
                &&& 0 <= i < vars.len()
                &&& given(#[trigger] vars[i]) == Some(us)
                &&& forall|j: int| i < j < vars.len() ==> given(#[trigger] vars[j]) is None
            },
    }
}

/// The wire form of each variable.
spec fn wires(vars: Seq<WrittenVar>) -> Seq<Seq<u8>> {
    Seq::new(vars.len(), |i: int| wire(vars[i]))
}

proof fn lemma_written_block_is_complete(vars: Seq<WrittenVar>)
    requires
        forall|i: int| 0 <= i < vars.len() ==> is_writable(#[trigger] vars[i]),
        written_block(vars).len() <= i64::MAX,
    ensures
        are_complete(wires(vars)),
        block_bytes(wires(vars)) == written_block(vars),
        is_last_given(vars, last_fraction(wires(vars))),
    decreases vars.len(),
{
    if vars.len() > 0 {
        let v = vars.first();
        let rest = vars.drop_first();
        assert(is_writable(vars[0]));
        assert forall|i: int| 0 <= i < rest.len() implies is_writable(#[trigger] rest[i]) by {
            assert(rest[i] == vars[i + 1]);
        }
        lemma_written_entry_is_complete(v);
        lemma_written_block_is_complete(rest);
        assert(wires(vars).drop_first() =~= wires(rest));
        assert(wires(vars).first() == wire(v));
        assert forall|i: int| 0 <= i < vars.len() implies is_complete_entry(
            #[trigger] wires(vars)[i],
        ) by {
            if i > 0 {
                assert(wires(vars)[i] == wires(rest)[i - 1]);
            }
        }
        let behind = last_fraction(wires(rest));
        assert(entry_fraction(wire(v)) == given(v));
        match behind {
            Some(us) => {
                let i = choose|i: int|
                    {
                        &&& 0 <= i < rest.len()
                        &&& given(#[trigger] rest[i]) == Some(us)
                        &&& forall|j: int| i < j < rest.len() ==> given(#[trigger] rest[j]) is None
                    };
                assert(given(vars[i + 1]) == Some(us));
                assert forall|j: int| i + 1 < j < vars.len() implies given(
                    #[trigger] vars[j],
                ) is None by {
                    assert(vars[j] == rest[j - 1]);
                }
            },
            None => {
                assert forall|j: int| 0 < j < vars.len() implies given(
                    #[trigger] vars[j],
                ) is None by {
                    assert(vars[j] == rest[j - 1]);
                }
                assert(vars[0] == v);
            },
        }
    } else {
        assert(wires(vars).len() == 0);
    }
}

/// A block that a server wrote is accepted, wherever it stands and whatever follows it: the
/// cursor ends behind it, with the last fraction that was written, if any was.
pub proof fn lemma_written_block(vars: Seq<WrittenVar>, s: Seq<u8>, pos: nat)
    requires
        forall|i: int| 0 <= i < vars.len() ==> is_writable(#[trigger] vars[i]),
        pos + written_block(vars).len() <= s.len() <= i64::MAX,
        s.subrange(pos as int, pos as int + written_block(vars).len()) == written_block(vars),
    ensures
        ({
            let block = status_vars_at(s, pos, written_block(vars).len());
            &&& block.pos == pos + written_block(vars).len()
            &&& block.result matches Ok(fraction)
            &&& is_last_given(vars, fraction)
        }),
{
    lemma_written_block_is_complete(vars);
    assert(bytes_at(s, pos, written_block(vars).len()) =~= written_block(vars));
    lemma_complete_entries_are_accepted(wires(vars), s, pos);
}

/// What a server wrote is what is read of a whole body: thread, time, error code, schema and
/// statement, and of the status variables the last fraction. The last byte is the end.
pub proof fn lemma_query_written(
    thread_id: u32,
    exec_time: u32,
    error_code: u16,
    vars: Seq<WrittenVar>,
    schema: Seq<char>,
    query: Seq<char>,
)
    requires
        forall|i: int| 0 <= i < vars.len() ==> is_writable(#[trigger] vars[i]),
        encode_utf8(schema).len() <= u8::MAX,
        written_block(vars).len() <= u16::MAX,
        query_body(
            thread_id,
            exec_time,
            error_code,
            written_block(vars),
            schema,
            query,
        ).len() <= i64::MAX,
    ensures
        ({
            let body = query_body(
                thread_id,
                exec_time,
                error_code,
                written_block(vars),
                schema,
                query,
            );
            let event = query_event_at(body, 0);
            &&& event.pos == body.len()
            &&& event.result matches Ok(ev)
            &&& ev.thread_id == thread_id
            &&& ev.exec_time == exec_time
            &&& ev.error_code == error_code
            &&& ev.schema == schema
            &&& ev.query == query
            &&& is_last_given(vars, ev.microsecond_fraction)
        }),
{
    lemma_written_block_is_complete(vars);
    lemma_query_round_trip(thread_id, exec_time, error_code, wires(vars), schema, query);
}

} // verus!

//! Laws of the status-variable block.

use vstd::prelude::*;
use vstd::set_lib::{lemma_int_range, lemma_len_subset, set_int_range};

use crate::bytes::{
    byte_at, bytes_at, bytes_from, field, le_nat, lemma_same_bytes_behind, remaining,
};
use crate::cursor::{null_terminated_string_at, packed_number_at, zero_from, Outcome};
use crate::error::BinlogError;
use crate::event::query_event::{
    block_end, skip_names, skip_packed_string, status_var_at, status_vars_at, walk,
    MICROSECONDS_PER_SECOND, OVER_MAX_DBS_IN_EVENT_MTS, Q_HRNOW_CODE, Q_MICROSECONDS_CODE,
    StatusVar,
};

verus! {

/// Of what two stretches of a block gave, what the later one gave, if anything.
pub open spec fn later_or(later: Option<u32>, earlier: Option<u32>) -> Option<u32> {
    if later is Some {
        later
    } else {
        earlier
    }
}

/// Whether the walk comes to an end, good or bad, within `limit` entries.
pub open spec fn stops(s: Seq<u8>, pos: nat, end: nat, limit: nat) -> bool {
    walk(s, pos, end, None, limit).result != Err::<Option<u32>, BinlogError>(
        BinlogError::EndlessStatusVars,
    )
}

proof fn lemma_names_error(s: Seq<u8>, pos: nat, count: nat)
    ensures
        skip_names(s, pos, count).result != Err::<StatusVar, BinlogError>(
            BinlogError::EndlessStatusVars,
        ),
    decreases count,
{
    if count > 0 {
        lemma_names_error(s, null_terminated_string_at(s, pos).pos, (count - 1) as nat);
    }
}

pub(crate) proof fn lemma_entry_error(s: Seq<u8>, pos: nat)
    ensures
        status_var_at(s, pos).result != Err::<StatusVar, BinlogError>(
            BinlogError::EndlessStatusVars,
        ),
{
    if remaining(s, pos) > 0 {
        lemma_names_error(s, pos + 2, byte_at(s, pos + 1) as nat);
    }
}

/// What was found before does not decide how far the walk goes, and stands only where the walk
/// finds nothing.
proof fn lemma_fraction_carried(s: Seq<u8>, pos: nat, end: nat, fraction: Option<u32>, limit: nat)
    ensures
        walk(s, pos, end, fraction, limit).pos == walk(s, pos, end, None, limit).pos,
        match walk(s, pos, end, None, limit).result {
            Ok(found) => walk(s, pos, end, fraction, limit).result == Ok::<
                Option<u32>,
                BinlogError,
            >(later_or(found, fraction)),
            Err(e) => walk(s, pos, end, fraction, limit).result == Err::<
                Option<u32>,
                BinlogError,
            >(e),
        },
    decreases limit,
{
    if pos < end && limit > 0 {
        let entry = status_var_at(s, pos);
        lemma_fraction_carried(s, entry.pos, end, fraction, (limit - 1) as nat);
        if let Ok(StatusVar::Microseconds(us)) = entry.result {
            lemma_fraction_carried(s, entry.pos, end, Some(us), (limit - 1) as nat);
        }
    }
}

/// A walk that stops within `n` entries gives the same with any larger limit.
proof fn lemma_larger_limit(
    s: Seq<u8>,
    pos: nat,
    end: nat,
    fraction: Option<u32>,
    n: nat,
    m: nat,
)
    requires
        n <= m,
        stops(s, pos, end, n),
    ensures
        walk(s, pos, end, fraction, n) == walk(s, pos, end, fraction, m),
    decreases n,
{
    lemma_fraction_carried(s, pos, end, fraction, n);
    if pos < end && n > 0 {
        let entry = status_var_at(s, pos);
        if entry.result is Ok && entry.result->Ok_0 != StatusVar::Unknown {
            let next: Option<u32> = match entry.result->Ok_0 {
                StatusVar::Microseconds(us) => Some(us),
                _ => fraction,
            };
            lemma_fraction_carried(s, entry.pos, end, next, (n - 1) as nat);
            lemma_larger_limit(s, entry.pos, end, next, (n - 1) as nat, (m - 1) as nat);
        }
    }
}

/// Entries met on a walk that takes `n` more to stop, all at different positions before the
/// end, leave no room for `n` to be large.
proof fn lemma_walk_is_short(s: Seq<u8>, pos: nat, end: nat, n: nat, visited: Set<int>)
    requires
        stops(s, pos, end, n),
        n > 0 ==> !stops(s, pos, end, (n - 1) as nat),
        visited.finite(),
        forall|v: int| #[trigger]
            visited.contains(v) ==> 0 <= v < end && !stops(s, v as nat, end, n),
    ensures
        n + visited.len() <= end,
    decreases n,
{
    lemma_int_range(0, end as int);
    if n == 0 {
        assert(visited.subset_of(set_int_range(0, end as int)));
        lemma_len_subset(visited, set_int_range(0, end as int));
    } else {
        let entry = status_var_at(s, pos);
        let here = visited.insert(pos as int);
        assert(!visited.contains(pos as int));
        assert(here.subset_of(set_int_range(0, end as int)));
        lemma_len_subset(here, set_int_range(0, end as int));
        lemma_entry_error(s, pos);
        if entry.result is Ok && entry.result->Ok_0 != StatusVar::Unknown {
            let next: Option<u32> = match entry.result->Ok_0 {
                StatusVar::Microseconds(us) => Some(us),
                _ => None,
            };
            lemma_fraction_carried(s, entry.pos, end, next, (n - 1) as nat);
            if n > 1 {
                lemma_fraction_carried(s, entry.pos, end, next, (n - 2) as nat);
            }
            assert forall|v: int| #[trigger] here.contains(v) implies 0 <= v < end && !stops(
                s,
                v as nat,
                end,
                (n - 1) as nat,
            ) by {
                if v != pos && stops(s, v as nat, end, (n - 1) as nat) {
                    lemma_larger_limit(s, v as nat, end, None, (n - 1) as nat, n);
                }
            }
            lemma_walk_is_short(s, entry.pos, end, (n - 1) as nat, here);
        } else if n > 1 {
            assert(stops(s, pos, end, (n - 1) as nat));
        }
    }
}

/// The bound on the number of entries takes nothing away: a walk that stops at all, after
/// however many entries, stops within the bound that [`status_vars_at`] sets and gives the
/// same. So `EndlessStatusVars` is the answer to a walk that never stops, and to no other.
pub proof fn lemma_bounded_walk_is_the_walk(
    s: Seq<u8>,
    pos: nat,
    end: nat,
    fraction: Option<u32>,
    n: nat,
)
    requires
        walk(s, pos, end, fraction, n).result != Err::<Option<u32>, BinlogError>(
            BinlogError::EndlessStatusVars,
        ),
    ensures
        walk(s, pos, end, fraction, end) == walk(s, pos, end, fraction, n),
    decreases n,
{
    lemma_fraction_carried(s, pos, end, fraction, n);
    if n > 0 && stops(s, pos, end, (n - 1) as nat) {
        lemma_fraction_carried(s, pos, end, fraction, (n - 1) as nat);
        lemma_larger_limit(s, pos, end, fraction, (n - 1) as nat, n);
        lemma_bounded_walk_is_the_walk(s, pos, end, fraction, (n - 1) as nat);
    } else {
        lemma_walk_is_short(s, pos, end, n, Set::empty());
        lemma_larger_limit(s, pos, end, fraction, n, end);
    }
}

proof fn lemma_walk_ends_at_end(
    s: Seq<u8>,
    pos: nat,
    end: nat,
    fraction: Option<u32>,
    limit: nat,
)
    ensures
        walk(s, pos, end, fraction, limit).result is Ok ==> walk(
            s,
            pos,
            end,
            fraction,
            limit,
        ).pos == end,
    decreases limit,
{
    if pos < end && limit > 0 {
        let entry = status_var_at(s, pos);
        if let Ok(var) = entry.result {
            let next: Option<u32> = match var {
                StatusVar::Microseconds(us) => Some(us),
                _ => fraction,
            };
            lemma_walk_ends_at_end(s, entry.pos, end, next, (limit - 1) as nat);
        }
    }
}

/// Whatever the status variables hold, a block that is accepted leaves the cursor at its end,
/// where the schema name starts.
pub proof fn lemma_status_vars_keep_alignment(s: Seq<u8>, pos: nat, total_len: nat)
    requires
        status_vars_at(s, pos, total_len).result is Ok,
    ensures
        status_vars_at(s, pos, total_len).pos == block_end(pos, total_len),
{
    let end = block_end(pos, total_len);
    lemma_walk_ends_at_end(s, pos, end, None, end);
}

/// Whether the parser knows no size for the payload of `tag`.
pub open spec fn is_unknown_tag(tag: u8) -> bool {
    tag >= 0x0e && tag != 0x10 && tag != 0x11 && tag != 0x12 && tag != 0x13 && tag != 0x14 && tag
        != Q_HRNOW_CODE
}

proof fn lemma_walk_fraction(s: Seq<u8>, pos: nat, end: nat, fraction: Option<u32>, limit: nat)
    ensures
        walk(s, pos, end, fraction, limit).result matches Ok(found) ==> {
            ||| found == fraction
            ||| exists|q: nat|
                {
                    &&& q < end
                    &&& #[trigger] is_fraction_at(s, q, found)
                }
        },
    decreases limit,
{
    if pos < end && limit > 0 {
        let entry = status_var_at(s, pos);
        if let Ok(var) = entry.result {
            match var {
                StatusVar::Microseconds(us) => {
                    lemma_entry_fraction(s, pos);
                    lemma_walk_fraction(s, entry.pos, end, Some(us), (limit - 1) as nat);
                    assert(is_fraction_at(s, pos, Some(us)));
                },
                StatusVar::Skipped => {
                    lemma_walk_fraction(s, entry.pos, end, fraction, (limit - 1) as nat);
                },
                StatusVar::Unknown => {},
            }
        }
    }
}

/// Whether `found` is the 3-byte number, below a million, behind a microsecond tag at `q`.
pub open spec fn is_fraction_at(s: Seq<u8>, q: nat, found: Option<u32>) -> bool {
    &&& remaining(s, q) >= 4
    &&& byte_at(s, q) == Q_MICROSECONDS_CODE || byte_at(s, q) == Q_HRNOW_CODE
    &&& field(s, q + 1, 3) < MICROSECONDS_PER_SECOND
    &&& found == Some(field(s, q + 1, 3) as u32)
}

proof fn lemma_names_skip(s: Seq<u8>, pos: nat, count: nat)
    ensures
        skip_names(s, pos, count).result matches Ok(v) ==> v == StatusVar::Skipped,
    decreases count,
{
    if count > 0 {
        lemma_names_skip(s, null_terminated_string_at(s, pos).pos, (count - 1) as nat);
    }
}

proof fn lemma_entry_fraction(s: Seq<u8>, pos: nat)
    ensures
        status_var_at(s, pos).result matches Ok(StatusVar::Microseconds(us)) ==> is_fraction_at(
            s,
            pos,
            Some(us),
        ),
{
    if remaining(s, pos) > 0 {
        lemma_names_skip(s, pos + 2, byte_at(s, pos + 1) as nat);
    }
}

/// A microsecond fraction comes from an entry of the block with one of the two microsecond
/// tags, and is below a million.
pub proof fn lemma_fraction_has_a_source(s: Seq<u8>, pos: nat, total_len: nat)
    requires
        status_vars_at(s, pos, total_len).result is Ok,
        status_vars_at(s, pos, total_len).result->Ok_0 is Some,
    ensures
        exists|q: nat|
            {
                &&& q < block_end(pos, total_len)
                &&& #[trigger] is_fraction_at(
                    s,
                    q,
                    status_vars_at(s, pos, total_len).result->Ok_0,
                )
            },
        status_vars_at(s, pos, total_len).result->Ok_0->0 < MICROSECONDS_PER_SECOND,
{
    let end = block_end(pos, total_len);
    lemma_walk_fraction(s, pos, end, None, end);
}

/// What an entry that is the whole of `e` gives.
pub open spec fn entry_fraction(e: Seq<u8>) -> Option<u32> {
    match status_var_at(e, 0).result {
        Ok(StatusVar::Microseconds(us)) => Some(us),
        _ => None,
    }
}

/// What the entry at `pos` does to the result, read in place: it decides only where the rest of
/// the block, from where the entry leads, gives no fraction. This holds of every entry, one that
/// leads backwards included.
pub proof fn lemma_entry_in_place(s: Seq<u8>, pos: nat, end: nat)
    requires
        pos < end,
        status_var_at(s, pos).result is Ok,
        status_var_at(s, pos).result->Ok_0 != StatusVar::Unknown,
    ensures
        ({
            let entry = status_var_at(s, pos);
            let given: Option<u32> = match entry.result->Ok_0 {
                StatusVar::Microseconds(us) => Some(us),
                _ => None,
            };
            let rest = walk(s, entry.pos, end, None, end);
            let whole = walk(s, pos, end, None, end);
            match rest.result {
                Ok(found) => whole.result == Ok::<Option<u32>, BinlogError>(
                    later_or(found, given),
                ) && whole.pos == rest.pos,
                Err(e) => whole.result == Err::<Option<u32>, BinlogError>(e) && (e
                    != BinlogError::EndlessStatusVars ==> whole.pos == rest.pos),
            }
        }),
{
    let entry = status_var_at(s, pos);
    let given: Option<u32> = match entry.result->Ok_0 {
        StatusVar::Microseconds(us) => Some(us),
        _ => None,
    };
    if stops(s, entry.pos, end, end) {
        lemma_fraction_carried(s, entry.pos, end, given, end);
        assert(walk(s, pos, end, None, end + 1) == walk(s, entry.pos, end, given, end));
        lemma_bounded_walk_is_the_walk(s, pos, end, None, end + 1);
    } else {
        lemma_fraction_carried(s, entry.pos, end, given, (end - 1) as nat);
        assert(walk(s, pos, end, None, end) == walk(s, entry.pos, end, given, (end - 1) as nat));
        if stops(s, pos, end, end) {
            lemma_larger_limit(s, entry.pos, end, None, (end - 1) as nat, end);
        }
    }
}

/// Whether no length in a `Q_INVOKER` entry at `pos` is so large that, as a signed number, it
/// would lead backwards. Of other entries nothing is asked.
pub open spec fn lengths_lead_forward(s: Seq<u8>, pos: nat) -> bool {
    remaining(s, pos) > 0 && byte_at(s, pos) == 0x0b ==> {
        let user = packed_number_at(s, pos + 1);
        user.result matches Ok(n) ==> {
            &&& n <= i64::MAX
            &&& packed_number_at(s, user.pos + n).result matches Ok(m) ==> m <= i64::MAX
        }
    }
}

proof fn lemma_zero_from_bounds(s: Seq<u8>, pos: nat)
    ensures
        zero_from(s, pos) >= pos,
        pos <= s.len() ==> zero_from(s, pos) <= s.len(),
    decreases s.len() - pos,
{
    if pos < s.len() && byte_at(s, pos) != 0 {
        lemma_zero_from_bounds(s, pos + 1);
    }
}

proof fn lemma_names_advance(s: Seq<u8>, pos: nat, count: nat)
    ensures
        skip_names(s, pos, count).result is Ok ==> skip_names(s, pos, count).pos >= pos,
    decreases count,
{
    if count > 0 {
        lemma_zero_from_bounds(s, pos);
        lemma_names_advance(s, null_terminated_string_at(s, pos).pos, (count - 1) as nat);
    }
}

/// Every entry that is accepted moves the cursor forward, unless a length in it leads back.
pub proof fn lemma_entry_advances(s: Seq<u8>, pos: nat)
    requires
        lengths_lead_forward(s, pos),
    ensures
        status_var_at(s, pos).result is Ok ==> status_var_at(s, pos).pos > pos,
{
    if remaining(s, pos) > 0 {
        lemma_names_advance(s, pos + 2, byte_at(s, pos + 1) as nat);
    }
}

/// Whether no `Q_INVOKER` length that the walk from `pos` up to `end` meets leads backwards.
pub open spec fn runs_forward(s: Seq<u8>, pos: nat, end: nat) -> bool
    decreases (if pos < end { end - pos } else { 0 }),
{
    if pos >= end {
        true
    } else if !lengths_lead_forward(s, pos) {
        false
    } else {
        proof {
            lemma_entry_advances(s, pos);
        }
        match status_var_at(s, pos).result {
            Ok(StatusVar::Skipped) | Ok(StatusVar::Microseconds(_)) => runs_forward(
                s,
                status_var_at(s, pos).pos,
                end,
            ),
            _ => true,
        }
    }
}

/// A walk that only runs forward stops: each entry has a byte at least.
proof fn lemma_forward_walk_stops(s: Seq<u8>, pos: nat, n: nat)
    requires
        runs_forward(s, pos, pos + n),
    ensures
        stops(s, pos, pos + n, n),
    decreases n,
{
    if n > 0 {
        let entry = status_var_at(s, pos);
        lemma_entry_advances(s, pos);
        lemma_entry_error(s, pos);
        if entry.result is Ok && entry.result->Ok_0 != StatusVar::Unknown {
            let next: Option<u32> = match entry.result->Ok_0 {
                StatusVar::Microseconds(us) => Some(us),
                _ => None,
            };
            lemma_fraction_carried(s, entry.pos, pos + n, next, (n - 1) as nat);
            if entry.pos < pos + n {
                let m = (pos + n - entry.pos) as nat;
                lemma_forward_walk_stops(s, entry.pos, m);
                lemma_larger_limit(s, entry.pos, pos + n, None, m, (n - 1) as nat);
            }
        }
    }
}

/// Whether a read at `p` of one buffer and one at `q` of another gave the same and went equally
/// far.
spec fn alike<T>(a: Outcome<T>, p: nat, b: Outcome<T>, q: nat) -> bool {
    &&& a.result == b.result
    &&& a.result is Ok ==> a.pos - p == b.pos - q
}

proof fn lemma_packed_relocated(s: Seq<u8>, p: nat, t: Seq<u8>, q: nat)
    requires
        bytes_from(s, p) == bytes_from(t, q),
    ensures
        alike(packed_number_at(s, p), p, packed_number_at(t, q), q),
{
    lemma_same_bytes_behind(s, p, t, q, 0);
    lemma_same_bytes_behind(s, p, t, q, 1);
}

proof fn lemma_packed_stays_inside(s: Seq<u8>, p: nat)
    ensures
        packed_number_at(s, p).result is Ok ==> p < packed_number_at(s, p).pos <= s.len(),
{
}

proof fn lemma_packed_string_relocated(s: Seq<u8>, p: nat, t: Seq<u8>, q: nat)
    requires
        bytes_from(s, p) == bytes_from(t, q),
        s.len() <= i64::MAX,
        t.len() <= i64::MAX,
        packed_number_at(t, q).result matches Ok(n) ==> n <= i64::MAX,
    ensures
        alike(skip_packed_string(s, p), p, skip_packed_string(t, q), q),
        skip_packed_string(t, q).result is Ok ==> packed_number_at(t, q).result is Ok
            && skip_packed_string(t, q).pos == packed_number_at(t, q).pos + packed_number_at(
            t,
            q,
        ).result->Ok_0,
{
    lemma_packed_relocated(s, p, t, q);
    lemma_packed_stays_inside(s, p);
    lemma_packed_stays_inside(t, q);
}

proof fn lemma_zero_relocated(s: Seq<u8>, p: nat, t: Seq<u8>, q: nat)
    requires
        bytes_from(s, p) == bytes_from(t, q),
    ensures
        zero_from(s, p) - p == zero_from(t, q) - q,
        zero_from(s, p) < s.len() <==> zero_from(t, q) < t.len(),
    decreases s.len() - p,
{
    lemma_same_bytes_behind(s, p, t, q, 0);
    if p < s.len() && byte_at(s, p) != 0 {
        lemma_same_bytes_behind(s, p, t, q, 1);
        lemma_zero_relocated(s, p + 1, t, q + 1);
    }
}

proof fn lemma_names_relocated(s: Seq<u8>, p: nat, t: Seq<u8>, q: nat, count: nat)
    requires
        bytes_from(s, p) == bytes_from(t, q),
    ensures
        alike(skip_names(s, p, count), p, skip_names(t, q, count), q),
    decreases count,
{
    if count > 0 {
        lemma_zero_from_bounds(s, p);
        lemma_zero_relocated(s, p, t, q);
        let a = null_terminated_string_at(s, p);
        let b = null_terminated_string_at(t, q);
        assert(alike(a, p, b, q));
        lemma_same_bytes_behind(s, p, t, q, (a.pos - p) as nat);
        lemma_names_relocated(s, a.pos, t, b.pos, (count - 1) as nat);
    }
}

proof fn lemma_entry_relocated(s: Seq<u8>, p: nat, t: Seq<u8>, q: nat)
    requires
        bytes_from(s, p) == bytes_from(t, q),
        s.len() <= i64::MAX,
        t.len() <= i64::MAX,
        lengths_lead_forward(t, q),
    ensures
        alike(status_var_at(s, p), p, status_var_at(t, q), q),
{
    lemma_same_bytes_behind(s, p, t, q, 0);
    lemma_same_bytes_behind(s, p, t, q, 1);
    lemma_same_bytes_behind(s, p, t, q, 2);
    if remaining(s, p) > 0 {
        let tag = byte_at(s, p);
        if tag == 0x0b {
            lemma_packed_string_relocated(s, p + 1, t, q + 1);
            let a = skip_packed_string(s, p + 1);
            let b = skip_packed_string(t, q + 1);
            if b.result is Ok {
                lemma_packed_stays_inside(t, q + 1);
                lemma_same_bytes_behind(s, p, t, q, (a.pos - p) as nat);
                lemma_packed_string_relocated(s, a.pos, t, b.pos);
            }
        } else if tag == 0x0c {
            lemma_names_relocated(s, p + 2, t, q + 2, byte_at(s, p + 1) as nat);
        }
    }
}

/// One step of a walk.
proof fn lemma_walk_step(s: Seq<u8>, pos: nat, end: nat, fraction: Option<u32>, limit: nat)
    requires
        pos < end,
        limit > 0,
        status_var_at(s, pos).result is Ok,
        status_var_at(s, pos).result->Ok_0 != StatusVar::Unknown,
    ensures
        walk(s, pos, end, fraction, limit) == walk(
            s,
            status_var_at(s, pos).pos,
            end,
            match status_var_at(s, pos).result->Ok_0 {
                StatusVar::Microseconds(us) => Some(us),
                _ => fraction,
            },
            (limit - 1) as nat,
        ),
{
}

#[verifier::spinoff_prover]
#[verifier::rlimit(40)]
proof fn lemma_walk_relocated(
    s: Seq<u8>,
    p: nat,
    t: Seq<u8>,
    q: nat,
    n: nat,
    fraction: Option<u32>,
    limit: nat,
)
    requires
        bytes_from(s, p) == bytes_from(t, q),
        s.len() <= i64::MAX,
        t.len() <= i64::MAX,
        runs_forward(t, q, q + n),
    ensures
        walk(s, p, p + n, fraction, limit).result == walk(t, q, q + n, fraction, limit).result,
    decreases limit,
{
    if n > 0 && limit > 0 {
        let a = status_var_at(s, p);
        let b = status_var_at(t, q);
        lemma_entry_relocated(s, p, t, q);
        if b.result is Ok && b.result->Ok_0 != StatusVar::Unknown {
            let next: Option<u32> = match b.result->Ok_0 {
                StatusVar::Microseconds(us) => Some(us),
                _ => fraction,
            };
            let less = (limit - 1) as nat;
            lemma_entry_advances(t, q);
            lemma_walk_step(s, p, p + n, fraction, limit);
            lemma_walk_step(t, q, q + n, fraction, limit);
            let k = (b.pos - q) as nat;
            if k < n {
                assert(runs_forward(t, b.pos, q + n));
                lemma_same_bytes_behind(s, p, t, q, k);
                lemma_walk_relocated(s, a.pos, t, b.pos, (n - k) as nat, next, less);
            }
        }
    }
}

/// A block gives the same wherever it stands: two buffers that hold the same bytes from `p` and
/// from `q` on give the same for the `n` bytes there, unless a `Q_INVOKER` length leads
/// backwards, out of the block.
pub proof fn lemma_block_means_the_same_anywhere(s: Seq<u8>, p: nat, t: Seq<u8>, q: nat, n: nat)
    requires
        bytes_from(s, p) == bytes_from(t, q),
        s.len() <= i64::MAX,
        t.len() <= i64::MAX,
        p + n <= u64::MAX,
        q + n <= u64::MAX,
        runs_forward(t, q, q + n),
    ensures
        status_vars_at(s, p, n).result == status_vars_at(t, q, n).result,
{
    lemma_forward_walk_stops(t, q, n);
    lemma_walk_relocated(s, p, t, q, n, None, n);
    lemma_larger_limit(s, p, p + n, None, n, p + n);
    lemma_larger_limit(t, q, q + n, None, n, q + n);
}

/// Whether `e` from `pos` on is `count` null-terminated strings in UTF-8 and nothing else.
pub open spec fn names_are_complete(e: Seq<u8>, pos: nat, count: nat) -> bool
    decreases count,
{
    if count == 0 {
        pos == e.len()
    } else {
        &&& zero_from(e, pos) < e.len()
        &&& null_terminated_string_at(e, pos).result is Ok
        &&& names_are_complete(e, null_terminated_string_at(e, pos).pos, (count - 1) as nat)
    }
}

/// Whether `e` is one entry with a known tag and the whole of its payload: the entry ends where
/// `e` does, and its names, if it holds any, have their terminators.
pub open spec fn is_complete_entry(e: Seq<u8>) -> bool {
    &&& status_var_at(e, 0).result is Ok
    &&& status_var_at(e, 0).result->Ok_0 != StatusVar::Unknown
    &&& status_var_at(e, 0).pos == e.len()
    &&& lengths_lead_forward(e, 0)
    &&& byte_at(e, 0) == 0x0c && byte_at(e, 1) != OVER_MAX_DBS_IN_EVENT_MTS
        ==> names_are_complete(e, 2, byte_at(e, 1) as nat)
}

/// Whether `e` stands in `s` at `pos`.
pub open spec fn stands_at(e: Seq<u8>, s: Seq<u8>, pos: nat) -> bool {
    &&& e.len() <= remaining(s, pos)
    &&& bytes_at(s, pos, e.len()) == e
}

proof fn lemma_inside(e: Seq<u8>, s: Seq<u8>, pos: nat, k: nat, n: nat)
    requires
        stands_at(e, s, pos),
        k + n <= e.len(),
    ensures
        bytes_at(s, pos + k, n) == bytes_at(e, k, n),
        n > 0 ==> byte_at(s, pos + k) == byte_at(e, k),
{
    assert(bytes_at(s, pos + k, n) =~= bytes_at(e, k, n)) by {
        assert forall|i: int| 0 <= i < n implies bytes_at(s, pos + k, n)[i] == bytes_at(
            e,
            k,
            n,
        )[i] by {
            assert(bytes_at(s, pos, e.len())[k + i] == e[k + i]);
        }
    }
    if n > 0 {
        assert(bytes_at(s, pos, e.len())[k as int] == e[k as int]);
    }
}

proof fn lemma_packed_inside(e: Seq<u8>, s: Seq<u8>, pos: nat, k: nat)
    requires
        stands_at(e, s, pos),
        packed_number_at(e, k).result is Ok,
    ensures
        packed_number_at(s, pos + k).result == packed_number_at(e, k).result,
        packed_number_at(s, pos + k).pos == pos + packed_number_at(e, k).pos,
{
    lemma_inside(e, s, pos, k, 1);
    let first = byte_at(e, k);
    if first == 0xfc {
        lemma_inside(e, s, pos, k + 1, 2);
    } else if first == 0xfd {
        lemma_inside(e, s, pos, k + 1, 3);
    } else if first == 0xfe {
        lemma_inside(e, s, pos, k + 1, 8);
    }
}

proof fn lemma_zero_inside(e: Seq<u8>, s: Seq<u8>, pos: nat, k: nat)
    requires
        stands_at(e, s, pos),
        zero_from(e, k) < e.len(),
    ensures
        zero_from(s, pos + k) == pos + zero_from(e, k),
    decreases e.len() - k,
{
    lemma_zero_from_bounds(e, k);
    lemma_inside(e, s, pos, k, 1);
    if byte_at(e, k) != 0 {
        lemma_zero_inside(e, s, pos, k + 1);
    }
}

proof fn lemma_names_inside(e: Seq<u8>, s: Seq<u8>, pos: nat, k: nat, count: nat)
    requires
        stands_at(e, s, pos),
        names_are_complete(e, k, count),
    ensures
        skip_names(s, pos + k, count).result == Ok::<StatusVar, BinlogError>(StatusVar::Skipped),
        skip_names(s, pos + k, count).pos == pos + e.len(),
        skip_names(e, k, count).result == Ok::<StatusVar, BinlogError>(StatusVar::Skipped),
    decreases count,
{
    if count > 0 {
        let name = null_terminated_string_at(e, k);
        lemma_zero_from_bounds(e, k);
        lemma_zero_inside(e, s, pos, k);
        lemma_inside(e, s, pos, k, (zero_from(e, k) - k) as nat);
        lemma_names_inside(e, s, pos, name.pos, (count - 1) as nat);
        assert(null_terminated_string_at(s, pos + k).pos == pos + name.pos);
    }
}

/// A complete entry is read the same in any buffer, whatever follows it.
pub proof fn lemma_complete_entry_is_read(e: Seq<u8>, s: Seq<u8>, pos: nat)
    requires
        is_complete_entry(e),
        stands_at(e, s, pos),
        s.len() <= u64::MAX,
    ensures
        e.len() > 0,
        status_var_at(s, pos).result == status_var_at(e, 0).result,
        status_var_at(s, pos).pos == pos + e.len(),
{
    lemma_inside(e, s, pos, 0, 1);
    lemma_entry_advances(e, 0);
    let tag = byte_at(e, 0);
    if tag == 0x02 || tag == 0x05 || tag == 0x06 {
        lemma_inside(e, s, pos, 1, 1);
    } else if tag == 0x0b {
        let user = packed_number_at(e, 1);
        lemma_packed_inside(e, s, pos, 1);
        lemma_packed_inside(e, s, pos, user.pos + user.result->Ok_0);
    } else if tag == 0x0c {
        lemma_names_advance(e, 2, byte_at(e, 1) as nat);
        lemma_inside(e, s, pos, 1, 1);
        if byte_at(e, 1) != OVER_MAX_DBS_IN_EVENT_MTS {
            lemma_names_inside(e, s, pos, 2, byte_at(e, 1) as nat);
        }
    } else if tag == Q_MICROSECONDS_CODE || tag == Q_HRNOW_CODE {
        lemma_inside(e, s, pos, 1, 3);
    }
}

/// What a complete entry in front of a block does: the fraction that the block gives stays, and
/// where it gives none the entry's own is given. What is wrong with the block stays wrong.
#[verifier::rlimit(30)]
pub proof fn lemma_entry_before_block(
    e: Seq<u8>,
    s: Seq<u8>,
    pos: nat,
    t: Seq<u8>,
    q: nat,
    n: nat,
)
    requires
        is_complete_entry(e),
        bytes_from(s, pos) == e + bytes_from(t, q),
        s.len() <= i64::MAX,
        t.len() <= i64::MAX,
        pos + e.len() + n <= u64::MAX,
        q + n <= u64::MAX,
        runs_forward(t, q, q + n),
    ensures
        match status_vars_at(t, q, n).result {
            Ok(found) => status_vars_at(s, pos, e.len() + n).result == Ok::<
                Option<u32>,
                BinlogError,
            >(later_or(found, entry_fraction(e))),
            Err(err) => status_vars_at(s, pos, e.len() + n).result == Err::<
                Option<u32>,
                BinlogError,
            >(err),
        },
{
    let end = pos + e.len() + n;
    assert(bytes_at(s, pos, e.len()) =~= e);
    assert(bytes_from(s, pos).len() == remaining(s, pos));
    lemma_entry_advances(e, 0);
    lemma_complete_entry_is_read(e, s, pos);
    assert(bytes_from(s, pos + e.len()) =~= bytes_from(s, pos).skip(e.len() as int));
    assert(bytes_from(s, pos).skip(e.len() as int) =~= bytes_from(t, q));
    lemma_entry_in_place(s, pos, end);
    lemma_block_means_the_same_anywhere(s, pos + e.len(), t, q, n);
}

/// An entry that is not a fraction has no influence: put in front of a block, one complete entry
/// with a known tag other than the two microsecond tags changes neither whether the block is
/// accepted, nor the fraction, nor the error.
pub proof fn lemma_other_entry_changes_nothing(
    e: Seq<u8>,
    s: Seq<u8>,
    pos: nat,
    t: Seq<u8>,
    q: nat,
    n: nat,
)
    requires
        is_complete_entry(e),
        byte_at(e, 0) != Q_MICROSECONDS_CODE,
        byte_at(e, 0) != Q_HRNOW_CODE,
        bytes_from(s, pos) == e + bytes_from(t, q),
        s.len() <= i64::MAX,
        t.len() <= i64::MAX,
        pos + e.len() + n <= u64::MAX,
        q + n <= u64::MAX,
        runs_forward(t, q, q + n),
    ensures
        status_vars_at(s, pos, e.len() + n).result == status_vars_at(t, q, n).result,
{
    lemma_entry_fraction(e, 0);
    lemma_entry_before_block(e, s, pos, t, q, n);
}

/// The last fraction wins: a fraction entry in front of a block gives its number where the block
/// gives none, and is overruled where the block gives one. A number that is no fraction of a
/// second gives nothing. An error in the block stays.
pub proof fn lemma_last_fraction_wins(
    tag: u8,
    b0: u8,
    b1: u8,
    b2: u8,
    s: Seq<u8>,
    pos: nat,
    t: Seq<u8>,
    q: nat,
    n: nat,
)
    requires
        tag == Q_MICROSECONDS_CODE || tag == Q_HRNOW_CODE,
        bytes_from(s, pos) == seq![tag, b0, b1, b2] + bytes_from(t, q),
        s.len() <= i64::MAX,
        t.len() <= i64::MAX,
        pos + 4 + n <= u64::MAX,
        q + n <= u64::MAX,
        runs_forward(t, q, q + n),
    ensures
        ({
            let v = b0 + 256 * b1 + 65536 * b2;
            let own = if v < MICROSECONDS_PER_SECOND {
                Some(v as u32)
            } else {
                None
            };
            match status_vars_at(t, q, n).result {
                Ok(found) => status_vars_at(s, pos, 4 + n).result == Ok::<
                    Option<u32>,
                    BinlogError,
                >(
                    if found is Some {
                        found
                    } else {
                        own
                    },
                ),
                Err(err) => status_vars_at(s, pos, 4 + n).result == Err::<
                    Option<u32>,
                    BinlogError,
                >(err),
            }
        }),
{
    let e = seq![tag, b0, b1, b2];
    assert(bytes_at(e, 1, 3) =~= seq![b0, b1, b2]);
    assert(seq![b0, b1, b2].drop_first() =~= seq![b1, b2]);
    assert(seq![b1, b2].drop_first() =~= seq![b2]);
    reveal_with_fuel(le_nat, 4);
    assert(field(e, 1, 3) == b0 + 256 * b1 + 65536 * b2);
    lemma_entry_before_block(e, s, pos, t, q, n);
}

/// Entries one behind the other.
pub open spec fn block_bytes(entries: Seq<Seq<u8>>) -> Seq<u8>
    decreases entries.len(),
{
    if entries.len() == 0 {
        Seq::empty()
    } else {
        entries.first() + block_bytes(entries.drop_first())
    }
}

/// The fraction of the last entry that gives one.
pub open spec fn last_fraction(entries: Seq<Seq<u8>>) -> Option<u32>
    decreases entries.len(),
{
    if entries.len() == 0 {
        None
    } else {
        later_or(last_fraction(entries.drop_first()), entry_fraction(entries.first()))
    }
}

/// Whether each one is a complete entry with a known tag.
pub open spec fn are_complete(entries: Seq<Seq<u8>>) -> bool {
    forall|i: int| 0 <= i < entries.len() ==> is_complete_entry(#[trigger] entries[i])
}

/// A walk comes to the end of complete entries, with the last fraction that they give.
#[verifier::rlimit(30)]
proof fn lemma_walk_over_entries(
    entries: Seq<Seq<u8>>,
    s: Seq<u8>,
    pos: nat,
    end: nat,
    fraction: Option<u32>,
    limit: nat,
)
    requires
        are_complete(entries),
        stands_at(block_bytes(entries), s, pos),
        s.len() <= u64::MAX,
        pos + block_bytes(entries).len() <= end,
        block_bytes(entries).len() <= limit,
    ensures
        entries.len() <= block_bytes(entries).len(),
        walk(s, pos, end, fraction, limit) == walk(
            s,
            pos + block_bytes(entries).len(),
            end,
            later_or(last_fraction(entries), fraction),
            (limit - entries.len()) as nat,
        ),
    decreases entries.len(),
{
    if entries.len() > 0 {
        let e = entries.first();
        let rest = entries.drop_first();
        let block = block_bytes(entries);
        assert(is_complete_entry(entries[0]));
        lemma_inside(block, s, pos, 0, e.len());
        assert(bytes_at(block, 0, e.len()) =~= e);
        lemma_complete_entry_is_read(e, s, pos);
        lemma_inside(block, s, pos, e.len(), block_bytes(rest).len());
        assert(bytes_at(block, e.len(), block_bytes(rest).len()) =~= block_bytes(rest));
        let next = later_or(entry_fraction(e), fraction);
        lemma_walk_over_entries(rest, s, pos + e.len(), end, next, (limit - 1) as nat);
        lemma_walk_step(s, pos, end, fraction, limit);
    }
}

/// A block of complete entries with known tags is accepted, and gives the last fraction among
/// them.
pub proof fn lemma_complete_entries_are_accepted(entries: Seq<Seq<u8>>, s: Seq<u8>, pos: nat)
    requires
        are_complete(entries),
        stands_at(block_bytes(entries), s, pos),
        s.len() <= u64::MAX,
        pos <= u64::MAX,
    ensures
        status_vars_at(s, pos, block_bytes(entries).len()).result == Ok::<
            Option<u32>,
            BinlogError,
        >(last_fraction(entries)),
        status_vars_at(s, pos, block_bytes(entries).len()).pos == block_end(
            pos,
            block_bytes(entries).len(),
        ),
{
    let end = pos + block_bytes(entries).len();
    lemma_walk_over_entries(entries, s, pos, end, None, end);
}

/// An unknown tag ends the walk cleanly wherever it stands: behind complete entries the rest of
/// the block is skipped, whatever it holds, and the fraction found so far stays.
pub proof fn lemma_unknown_tag_skips_block(
    entries: Seq<Seq<u8>>,
    s: Seq<u8>,
    pos: nat,
    total_len: nat,
)
    requires
        are_complete(entries),
        stands_at(block_bytes(entries), s, pos),
        s.len() <= u64::MAX,
        block_bytes(entries).len() < total_len,
        remaining(s, pos + block_bytes(entries).len()) > 0,
        is_unknown_tag(byte_at(s, pos + block_bytes(entries).len())),
    ensures
        status_vars_at(s, pos, total_len).result == Ok::<Option<u32>, BinlogError>(
            last_fraction(entries),
        ),
        status_vars_at(s, pos, total_len).pos == block_end(pos, total_len),
{
    let end = block_end(pos, total_len);
    let n = block_bytes(entries).len();
    lemma_walk_over_entries(entries, s, pos, end, None, end);
    assert(status_var_at(s, pos + n).result == Ok::<StatusVar, BinlogError>(StatusVar::Unknown));
}

} // verus!

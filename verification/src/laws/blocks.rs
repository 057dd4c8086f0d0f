//! Laws of the status-variable block, from what its entries are.

use vstd::prelude::*;

use crate::error::BinlogError;
use crate::event::query_event::{status_var_at, status_vars_at, walk, StatusVar};
use crate::laws::status_vars::{
    lemma_entry_error, lemma_entry_in_place, lemma_status_vars_keep_alignment, stops,
};

verus! {

/// A block without a byte gives nothing and leaves the cursor.
pub proof fn lemma_empty_block(s: Seq<u8>, pos: nat)
    requires
        pos <= u64::MAX,
    ensures
        status_vars_at(s, pos, 0).result == Ok::<Option<u32>, BinlogError>(None),
        status_vars_at(s, pos, 0).pos == pos,
{
}

/// A block that would end behind the last position ends at the last position.
pub proof fn lemma_block_ends_at_a_position(s: Seq<u8>, pos: nat, total_len: nat)
    requires
        pos <= u64::MAX < pos + total_len,
    ensures
        status_vars_at(s, pos, total_len) == status_vars_at(s, pos, (u64::MAX - pos) as nat),
{
}

/// A block that is accepted leaves the cursor `total_len` bytes on.
pub proof fn lemma_block_length(s: Seq<u8>, pos: nat, total_len: nat)
    requires
        pos + total_len <= u64::MAX,
        status_vars_at(s, pos, total_len).result is Ok,
    ensures
        status_vars_at(s, pos, total_len).pos == pos + total_len,
{
    lemma_status_vars_keep_alignment(s, pos, total_len);
}

/// A block whose first entry is refused is refused with the same error, at the same place.
pub proof fn lemma_refused_entry_refuses_block(s: Seq<u8>, pos: nat, total_len: nat)
    requires
        total_len > 0,
        pos + total_len <= u64::MAX,
        status_var_at(s, pos).result is Err,
    ensures
        status_vars_at(s, pos, total_len).result == Err::<Option<u32>, BinlogError>(
            status_var_at(s, pos).result->Err_0,
        ),
        status_vars_at(s, pos, total_len).pos == status_var_at(s, pos).pos,
{
}

/// A block whose first tag is unknown is skipped whole.
pub proof fn lemma_unknown_entry_skips_block(s: Seq<u8>, pos: nat, total_len: nat)
    requires
        total_len > 0,
        pos + total_len <= u64::MAX,
        status_var_at(s, pos).result == Ok::<StatusVar, BinlogError>(StatusVar::Unknown),
    ensures
        status_vars_at(s, pos, total_len).result == Ok::<Option<u32>, BinlogError>(None),
        status_vars_at(s, pos, total_len).pos == pos + total_len,
{
}

/// A block is its first entry and the block that starts where this leads and has the same end:
/// what the latter gives is given, and where it gives nothing, what the entry gives; an error in
/// it stays, and stays where it is. Where the entry leads to the end or beyond, nothing is left
/// to read.
pub proof fn lemma_block_is_entry_and_block(s: Seq<u8>, pos: nat, total_len: nat)
    requires
        total_len > 0,
        pos + total_len <= u64::MAX,
        status_var_at(s, pos).result is Ok,
        status_var_at(s, pos).result->Ok_0 != StatusVar::Unknown,
    ensures
        ({
            let end = pos + total_len;
            let entry = status_var_at(s, pos);
            let block = status_vars_at(s, pos, total_len);
            let rest = status_vars_at(s, entry.pos, (end - entry.pos) as nat);
            let own = match entry.result->Ok_0 {
                StatusVar::Microseconds(us) => Some(us),
                _ => None,
            };
            &&& entry.pos >= end ==> block.pos == end && block.result == Ok::<
                Option<u32>,
                BinlogError,
            >(own)
            &&& entry.pos < end ==> match rest.result {
                Ok(found) => block.pos == end && block.result == Ok::<Option<u32>, BinlogError>(
                    if found is Some {
                        found
                    } else {
                        own
                    },
                ),
                Err(e) => block.result == Err::<Option<u32>, BinlogError>(e) && (e
                    != BinlogError::EndlessStatusVars ==> block.pos == rest.pos),
            }
        }),
{
    let end = pos + total_len;
    let entry = status_var_at(s, pos);
    lemma_entry_in_place(s, pos, end);
    if entry.pos < end {
        let rest = (end - entry.pos) as nat;
        if status_vars_at(s, entry.pos, rest).result is Ok {
            lemma_status_vars_keep_alignment(s, entry.pos, rest);
        }
    }
}

/// Whether entries never lead out of the positions in `round`, all of which are before `end`.
pub open spec fn goes_round(s: Seq<u8>, end: nat, round: Set<nat>) -> bool {
    forall|v: nat| #[trigger]
        round.contains(v) ==> {
            &&& v < end
            &&& status_var_at(s, v).result is Ok
            &&& status_var_at(s, v).result->Ok_0 != StatusVar::Unknown
            &&& round.contains(status_var_at(s, v).pos)
        }
}

proof fn lemma_round_never_stops(
    s: Seq<u8>,
    pos: nat,
    end: nat,
    round: Set<nat>,
    f: Option<u32>,
    n: nat,
)
    requires
        goes_round(s, end, round),
        round.contains(pos),
    ensures
        walk(s, pos, end, f, n).result == Err::<Option<u32>, BinlogError>(
            BinlogError::EndlessStatusVars,
        ),
    decreases n,
{
    if n > 0 {
        let entry = status_var_at(s, pos);
        let next: Option<u32> = match entry.result->Ok_0 {
            StatusVar::Microseconds(us) => Some(us),
            _ => f,
        };
        lemma_round_never_stops(s, entry.pos, end, round, next, (n - 1) as nat);
    }
}

/// A block whose entries lead round and round is refused as endless.
pub proof fn lemma_round_is_endless(s: Seq<u8>, pos: nat, total_len: nat, round: Set<nat>)
    requires
        pos + total_len <= u64::MAX,
        goes_round(s, pos + total_len, round),
        round.contains(pos),
    ensures
        status_vars_at(s, pos, total_len).result == Err::<Option<u32>, BinlogError>(
            BinlogError::EndlessStatusVars,
        ),
{
    lemma_round_never_stops(s, pos, pos + total_len, round, None, pos + total_len);
}

/// The positions from which the walk does not stop.
spec fn endless_positions(s: Seq<u8>, end: nat) -> Set<nat> {
    Set::new(|v: nat| !stops(s, v, end, end))
}

/// No other block is refused as endless: of one that is, the positions are handed back that its
/// entries never lead out of.
pub proof fn lemma_endless_goes_round(s: Seq<u8>, pos: nat, total_len: nat) -> (round: Set<nat>)
    requires
        pos + total_len <= u64::MAX,
        status_vars_at(s, pos, total_len).result == Err::<Option<u32>, BinlogError>(
            BinlogError::EndlessStatusVars,
        ),
    ensures
        goes_round(s, pos + total_len, round),
        round.contains(pos),
{
    let end = pos + total_len;
    let round = endless_positions(s, end);
    assert forall|v: nat| #[trigger] round.contains(v) implies {
        &&& v < end
        &&& status_var_at(s, v).result is Ok
        &&& status_var_at(s, v).result->Ok_0 != StatusVar::Unknown
        &&& round.contains(status_var_at(s, v).pos)
    } by {
        assert(!stops(s, v, end, end));
        lemma_entry_error(s, v);
        lemma_entry_in_place_applies(s, v, end);
    }
    round
}

proof fn lemma_entry_in_place_applies(s: Seq<u8>, v: nat, end: nat)
    requires
        !stops(s, v, end, end),
        status_var_at(s, v).result != Err::<StatusVar, BinlogError>(
            BinlogError::EndlessStatusVars,
        ),
    ensures
        v < end,
        status_var_at(s, v).result is Ok,
        status_var_at(s, v).result->Ok_0 != StatusVar::Unknown,
        !stops(s, status_var_at(s, v).pos, end, end),
{
    if v < end && status_var_at(s, v).result is Ok && status_var_at(s, v).result->Ok_0
        != StatusVar::Unknown {
        lemma_entry_in_place(s, v, end);
    }
}

} // verus!

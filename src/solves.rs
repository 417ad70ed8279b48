//! The solve ledger: a team's solved challenges as a 64-bit mask.
//!
//! Challenge `id` owns bit `id - 1`. The top bit is never used, so at most
//! `MAX_CHALLENGE_ID` challenges can exist; this bound is structural.

use vstd::prelude::*;

verus! {

/// The largest challenge id that a solve mask can record.
pub const MAX_CHALLENGE_ID: u64 = 63;

/// A challenge id that owns a bit of the mask.
pub open spec fn valid_id(id: u64) -> bool {
    1 <= id <= MAX_CHALLENGE_ID
}

/// The mask bit of challenge `id`.
pub open spec fn bit_of(id: u64) -> u64 {
    1u64 << ((id - 1) as u64)
}

/// Challenge `id` is recorded as solved in `mask`.
pub open spec fn solved(mask: u64, id: u64) -> bool {
    mask & bit_of(id) != 0
}

/// `mask` with challenge `id` recorded as solved.
pub open spec fn marked(mask: u64, id: u64) -> u64 {
    mask | bit_of(id)
}

/// Tests whether challenge `id` is solved in `mask`.
pub fn is_solved(mask: u64, id: u64) -> (r: bool)
    requires
        valid_id(id),
    ensures
        r == solved(mask, id),
{
    mask & (1u64 << (id - 1)) != 0
}

/// Records challenge `id` as solved in `mask`.
pub fn mark_solved(mask: u64, id: u64) -> (r: u64)
    requires
        valid_id(id),
    ensures
        r == marked(mask, id),
        solved(r, id),
        forall|j: u64| valid_id(j) && j != id ==> solved(r, j) == solved(mask, j),
{
    proof {
        lemma_mark_sets(mask, id);
        lemma_mark_keeps_others(mask, id);
    }
    mask | (1u64 << (id - 1))
}

proof fn lemma_mark_sets_bits(mask: u64, s: u64)
    by (bit_vector)
    requires
        s < 63,
    ensures
        (mask | (1u64 << s)) & (1u64 << s) != 0,
        ((mask | (1u64 << s)) | (1u64 << s)) == (mask | (1u64 << s)),
{
}

proof fn lemma_mark_other_bit(mask: u64, s: u64, t: u64)
    by (bit_vector)
    requires
        s < 63,
        t < 63,
        s != t,
    ensures
        ((mask | (1u64 << s)) & (1u64 << t) != 0) == (mask & (1u64 << t) != 0),
{
}

proof fn lemma_mask_monotone_bit(mask: u64, s: u64, t: u64)
    by (bit_vector)
    requires
        s < 63,
        t < 63,
    ensures
        mask & (1u64 << t) != 0 ==> (mask | (1u64 << s)) & (1u64 << t) != 0,
{
}

/// Marking sets the bit, and marking twice is marking once.
pub proof fn lemma_mark_sets(mask: u64, id: u64)
    requires
        valid_id(id),
    ensures
        solved(marked(mask, id), id),
        marked(marked(mask, id), id) == marked(mask, id),
{
    lemma_mark_sets_bits(mask, (id - 1) as u64);
}

/// Marking one challenge leaves every other challenge as it was.
pub proof fn lemma_mark_keeps_others(mask: u64, id: u64)
    requires
        valid_id(id),
    ensures
        forall|j: u64| valid_id(j) && j != id ==> solved(#[trigger] marked(mask, id), j) == solved(mask, j),
{
    assert forall|j: u64| valid_id(j) && j != id implies solved(#[trigger] marked(mask, id), j) == solved(mask, j) by {
        lemma_mark_other_bit(mask, (id - 1) as u64, (j - 1) as u64);
    }
}

/// Marking never clears a solved challenge.
pub proof fn lemma_mark_monotone(mask: u64, id: u64, j: u64)
    requires
        valid_id(id),
        valid_id(j),
        solved(mask, j),
    ensures
        solved(marked(mask, id), j),
{
    lemma_mask_monotone_bit(mask, (id - 1) as u64, (j - 1) as u64);
}

} // verus!

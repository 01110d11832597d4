//! Words that hold, side by side, which jobs are ready and which are locked.

use vstd::prelude::*;

verus! {

/// The ready bits of a word: its upper half.
pub open spec fn ready_of(word: u64) -> u32 {
    (word >> 32) as u32
}

/// The lock bits of a word: its lower half.
pub open spec fn lock_of(word: u64) -> u32 {
    word as u32
}

/// Whether bit `index` of a mask is set.
pub open spec fn mask_bit(mask: u32, index: int) -> bool {
    mask & (1u32 << (index as u32)) != 0
}

/// The word with the given ready and lock bits.
pub fn recompose(ready: u32, lock: u32) -> (word: u64)
    ensures
        ready_of(word) == ready,
        lock_of(word) == lock,
{
    let word = (ready as u64) << 32 | lock as u64;
    assert((((ready as u64) << 32 | lock as u64) >> 32) as u32 == ready) by (bit_vector);
    assert(((ready as u64) << 32 | lock as u64) as u32 == lock) by (bit_vector);
    word
}

/// The ready and lock bits of a word.
pub fn decompose(word: u64) -> (halves: (u32, u32))
    ensures
        halves.0 == ready_of(word),
        halves.1 == lock_of(word),
{
    ((word >> 32) as u32, word as u32)
}

/// A word is made up of its halves.
pub proof fn halves_make_the_word(left: u64, right: u64)
    requires
        ready_of(left) == ready_of(right),
        lock_of(left) == lock_of(right),
    ensures
        left == right,
{
    assert((left >> 32) as u32 == (right >> 32) as u32 && left as u32 == right as u32 ==> left
        == right) by (bit_vector);
}

pub(crate) proof fn lemma_mask_join(left: u32, right: u32, index: u32)
    by (bit_vector)
    requires
        index < 32,
    ensures
        ((left | right) & (1u32 << index) != 0) == (left & (1u32 << index) != 0 || right & (1u32
            << index) != 0),
        ((left & !right) & (1u32 << index) != 0) == (left & (1u32 << index) != 0 && right & (1u32
            << index) == 0),
        0u32 & (1u32 << index) == 0,
{
}

pub(crate) proof fn lemma_mask_single(set: u32, index: u32)
    by (bit_vector)
    requires
        set < 32,
        index < 32,
    ensures
        ((1u32 << set) & (1u32 << index) != 0) == (set == index),
{
}

pub(crate) proof fn lemma_masks_disjoint(left: u32, right: u32, index: u32)
    by (bit_vector)
    requires
        index < 32,
        left & right == 0,
    ensures
        !(left & (1u32 << index) != 0 && right & (1u32 << index) != 0),
{
}

/// Two masks that have a bit in common have one slot in common.
pub(crate) proof fn lemma_common_slot(left: u32, right: u32) -> (index: u32)
    requires
        left & right != 0,
    ensures
        index < 32,
        mask_bit(left, index as int),
        mask_bit(right, index as int),
{
    let index = lemma_set_slot(left & right);
    assert((left & right) & (1u32 << index) != 0 ==> left & (1u32 << index) != 0 && right & (1u32
        << index) != 0) by (bit_vector);
    index
}

/// A mask that is not empty has a bit that is set.
pub(crate) proof fn lemma_set_slot(mask: u32) -> (index: u32)
    requires
        mask != 0,
    ensures
        index < 32,
        mask & (1u32 << index) != 0,
{
    lemma_some_bit(mask, 32)
}

proof fn lemma_some_bit(mask: u32, until: u32) -> (index: u32)
    requires
        mask != 0,
        until <= 32,
        until == 32 || mask < (1u32 << until),
    ensures
        index < 32,
        mask & (1u32 << index) != 0,
    decreases until,
{
    if until == 0 {
        assert(1u32 << 0u32 == 1) by (bit_vector);
        0
    } else {
        let last = (until - 1) as u32;
        if mask & (1u32 << last) != 0 {
            last
        } else {
            assert(mask & (1u32 << last) == 0 && until == last + 1 && last < 32 && (until == 32
                || mask < (1u32 << until)) ==> mask < (1u32 << last)) by (bit_vector);
            lemma_some_bit(mask, last)
        }
    }
}

/// Locks the bits of `mask` and clears the ready bits of `clear_ready`, unless one of the bits of
/// `mask` is locked already.
pub fn reserve_page(state: &mut u64, mask: u32, clear_ready: u32) -> (reserved: bool)
    ensures
        reserved == (lock_of(*old(state)) & mask == 0),
        !reserved ==> *final(state) == *old(state),
        reserved ==> {
            &&& lock_of(*final(state)) == lock_of(*old(state)) | mask
            &&& ready_of(*final(state)) == ready_of(*old(state)) & !clear_ready
        },
{
    let current = *state;
    assert(((current as u32) & mask == 0) == (current & (mask as u64) == 0)) by (bit_vector);
    if current & (mask as u64) != 0 {
        return false;
    }
    let next = (current | mask as u64) & !((clear_ready as u64) << 32);
    assert(next as u32 == (current as u32) | mask && (next >> 32) as u32 == ((current >> 32) as u32)
        & !clear_ready) by (bit_vector)
        requires
            next == (current | mask as u64) & !((clear_ready as u64) << 32),
    ;
    *state = next;
    true
}

/// Unlocks the bits of `mask`.
pub fn release_mask(state: &mut u64, mask: u32)
    ensures
        lock_of(*final(state)) == lock_of(*old(state)) & !mask,
        ready_of(*final(state)) == ready_of(*old(state)),
{
    let current = *state;
    let keep = 0xffff_ffff_0000_0000u64 | (!mask) as u64;
    let next = current & keep;
    assert(next as u32 == (current as u32) & !mask && (next >> 32) as u32 == (current >> 32) as u32)
        by (bit_vector)
        requires
            keep == 0xffff_ffff_0000_0000u64 | (!mask) as u64,
            next == current & keep,
    ;
    *state = next;
}

/// Sets the ready bits of `bit`.
pub fn mark_ready(state: &mut u64, bit: u32)
    ensures
        lock_of(*final(state)) == lock_of(*old(state)),
        ready_of(*final(state)) == ready_of(*old(state)) | bit,
{
    let current = *state;
    let next = current | ((bit as u64) << 32);
    assert(next as u32 == current as u32 && (next >> 32) as u32 == ((current >> 32) as u32) | bit)
        by (bit_vector)
        requires
            next == current | ((bit as u64) << 32),
    ;
    *state = next;
}

/// The ready bits of a word are its upper half and the lock bits its lower one, and putting the halves
/// together gives the word.
pub proof fn words_are_their_two_halves(word: u64, halves: (u32, u32), whole: u64)
    requires
        call_ensures(decompose, (word,), halves),
        call_ensures(recompose, (halves.0, halves.1), whole),
    ensures
        whole == word,
        word == halves.0 * 0x1_0000_0000 + halves.1,
{
    assert(word == ((word >> 32) as u32) as u64 * 0x1_0000_0000u64 + (word as u32) as u64)
        by (bit_vector);
    halves_make_the_word(word, whole);
}

/// A page is reserved exactly where none of the bits asked for is locked. All of them are locked
/// then, the ready bits named are cleared, and no other bit changes; otherwise nothing does.
pub proof fn reserving_locks_all_or_nothing(
    state: &mut u64,
    mask: u32,
    clear_ready: u32,
    reserved: bool,
    index: u32,
)
    requires
        call_ensures(reserve_page, (state, mask, clear_ready), reserved),
        index < 32,
    ensures
        !reserved ==> *final(state) == *old(state),
        reserved ==> {
            &&& !(mask_bit(lock_of(*old(state)), index as int) && mask_bit(mask, index as int))
            &&& mask_bit(lock_of(*final(state)), index as int) == (mask_bit(
                lock_of(*old(state)),
                index as int,
            ) || mask_bit(mask, index as int))
            &&& mask_bit(ready_of(*final(state)), index as int) == (mask_bit(
                ready_of(*old(state)),
                index as int,
            ) && !mask_bit(clear_ready, index as int))
        },
        !reserved ==> exists|locked: u32|
            locked < 32 && #[trigger] mask_bit(mask, locked as int) && mask_bit(
                lock_of(*old(state)),
                locked as int,
            ),
{
    lemma_mask_join(lock_of(*old(state)), mask, index);
    lemma_mask_join(ready_of(*old(state)), clear_ready, index);
    if reserved {
        lemma_masks_disjoint(lock_of(*old(state)), mask, index);
    } else {
        let locked = lemma_common_slot(lock_of(*old(state)), mask);
        assert(mask_bit(mask, locked as int));
    }
}

} // verus!

//! A lock over many resources, of which any selection is taken at once.
//!
//! Each resource is known by its index and stands for a bit. A lock is a word, or a row of words,
//! in which the bits of the resources that are taken are set.

use crate::bits::{
    lemma_join_bits, lemma_part_of, lemma_set_bit, lemma_some_word_bit, lemma_without_bits,
    word_bit,
};
use vstd::prelude::*;

verus! {

/// Why a selection of resources cannot be made.
#[derive(Clone, Copy, PartialEq, Eq, Structural, PartialOrd, Ord, Debug)]
pub enum IndexError {
    /// The lock has no bit for the index.
    OutOfBounds(usize),
    /// The index is part of the selection already.
    Duplicate(usize),
}

/// A selection of resources that can be locked.
pub trait Selection: Sized + Copy {
    /// Which resources are taken.
    type State: Copy;

    /// How many resources there are.
    spec fn width() -> int;

    /// Whether a selection holds a resource.
    spec fn marks(mask: Self, index: int) -> bool;

    /// Whether a resource is taken.
    spec fn held(state: Self::State, index: int) -> bool;

    /// Whether the times that waiting threads were woken are counted.
    spec fn counts() -> bool;

    /// How often waiting threads were woken.
    spec fn turn(state: Self::State) -> u32;

    /// Which resource an index stands for.
    spec fn place(index: usize) -> Option<int>;

    /// The index as it is named where it is given twice.
    spec fn named(index: usize) -> usize;

    /// Whether a selection counts as locked, in part or as a whole.
    spec fn locked(state: Self::State, mask: Self, partial: bool) -> bool;

    /// Whether the resources can be counted.
    spec fn fits() -> bool;

    /// The selection of all resources.
    spec fn whole() -> Self;

    /// Only resources are selected or taken, and an index of a resource stands for it.
    proof fn lemma_width()
        ensures
            Self::width() >= 0,
            Self::fits() ==> Self::width() <= usize::MAX,
            forall|index: int| #[trigger]
                Self::marks(Self::whole(), index) == (0 <= index < Self::width()),
            forall|mask: Self, index: int| #[trigger]
                Self::marks(mask, index) ==> 0 <= index < Self::width(),
            forall|state: Self::State, index: int| #[trigger]
                Self::held(state, index) ==> 0 <= index < Self::width(),
            forall|index: usize| index < Self::width() ==> #[trigger] Self::place(index) == Some(
                index as int,
            ),
    ;
}

/// A selection of resources, and what it takes to lock them.
pub trait Lock: Selection {
    /// The empty selection.
    fn zero() -> (mask: Self)
        ensures
            forall|index: int| !#[trigger] Self::marks(mask, index),
    ;

    /// The selection of all resources.
    fn max() -> (mask: Self)
        ensures
            mask == Self::whole(),
    ;

    /// How many resources there are.
    fn bits() -> (bits: usize)
        requires
            Self::fits(),
        ensures
            bits == Self::width(),
    ;

    /// A lock of which nothing is taken.
    fn free() -> (state: Self::State)
        ensures
            forall|index: int| !#[trigger] Self::held(state, index),
            Self::turn(state) == 0,
    ;

    /// Takes a selection of resources, as [`takes`] says, where that can be done at once.
    fn lock(state: &mut Self::State, mask: Self, partial: bool) -> (taken: Option<Self>)
        ensures
            takes::<Self>(*old(state), *final(state), mask, partial, taken),
    ;

    /// Gives a selection of resources back, as [`gives`] says, and tells whether waiting threads
    /// are to be woken.
    fn unlock(state: &mut Self::State, mask: Self, wake: bool) -> (woken: bool)
        ensures
            gives::<Self>(*old(state), *final(state), mask, wake, woken),
    ;

    /// Whether a selection counts as locked.
    fn is_locked(state: &Self::State, mask: Self, partial: bool) -> (locked: bool)
        ensures
            locked == Self::locked(*state, mask, partial),
    ;

    /// Adds a resource to a selection.
    fn add(mask: Self, index: usize) -> (joined: Result<Self, IndexError>)
        requires
            Self::fits(),
        ensures
            adds::<Self>(mask, index, joined),
    ;

    /// Whether a selection holds the resource that an index stands for.
    fn has(mask: Self, index: usize) -> (held: bool)
        requires
            Self::fits(),
        ensures
            held == chosen::<Self>(mask, index),
    ;
}

/// Whether a resource of a selection is taken.
pub open spec fn clashes<L: Selection>(state: L::State, mask: L) -> bool {
    exists|index: int| #[trigger] L::marks(mask, index) && L::held(state, index)
}

/// Whether an index stands for a resource of a selection.
pub open spec fn chosen<L: Selection>(mask: L, index: usize) -> bool {
    match L::place(index) {
        Some(place) => L::marks(mask, place),
        None => false,
    }
}

/// What a counter is after one more turn.
pub open spec fn turned(turn: u32) -> u32 {
    if turn == u32::MAX {
        0
    } else {
        (turn + 1) as u32
    }
}

/// Whether a selection is the part of another that is free.
pub open spec fn frees<L: Selection>(state: L::State, mask: L, part: L) -> bool {
    forall|index: int| #[trigger]
        L::marks(part, index) == (L::marks(mask, index) && !L::held(state, index))
}

/// Whether a selection was taken. As a whole it is taken only where all of it is free. In part it
/// is taken as far as it is free. What was not free is not among what was taken.
pub open spec fn takes<L: Selection>(
    before: L::State,
    after: L::State,
    mask: L,
    partial: bool,
    taken: Option<L>,
) -> bool {
    match taken {
        Some(taken) => {
            &&& partial || !clashes(before, mask)
            &&& L::turn(after) == L::turn(before)
            &&& frees(before, mask, taken)
            &&& forall|index: int| #[trigger]
                L::held(after, index) == (L::held(before, index) || L::marks(mask, index))
        },
        None => {
            &&& !partial
            &&& clashes(before, mask)
            &&& L::turn(after) == if L::counts() {
                turned(L::turn(before))
            } else {
                L::turn(before)
            }
            &&& forall|index: int| #[trigger] L::held(after, index) == L::held(before, index)
        },
    }
}

/// Whether a selection was given back, and waiting threads are to be woken.
pub open spec fn gives<L: Selection>(
    before: L::State,
    after: L::State,
    mask: L,
    wake: bool,
    woken: bool,
) -> bool {
    &&& woken == (wake && (L::counts() || exists|index: int| #[trigger] L::marks(mask, index)))
    &&& L::turn(after) == if L::counts() && wake {
        turned(L::turn(before))
    } else {
        L::turn(before)
    }
    &&& forall|index: int| #[trigger]
        L::held(after, index) == (L::held(before, index) && !L::marks(mask, index))
}

/// Whether a resource was added to a selection that did not hold it yet.
pub open spec fn adds<L: Selection>(mask: L, index: usize, joined: Result<L, IndexError>) -> bool {
    match L::place(index) {
        None => joined == Err::<L, IndexError>(IndexError::OutOfBounds(index)),
        Some(place) => if L::marks(mask, place) {
            joined == Err::<L, IndexError>(IndexError::Duplicate(L::named(index)))
        } else {
            joined matches Ok(joined) && forall|other: int| #[trigger]
                L::marks(joined, other) == (L::marks(mask, other) || other == place)
        },
    }
}

/// Whether a word of the given width holds a bit.
pub open spec fn word_marks(word: u64, width: int, index: int) -> bool {
    0 <= index < width && word_bit(word, index)
}

/// The bit of a word of the given width that an index stands for. Only the low half of the index
/// counts.
pub open spec fn word_place(index: usize, width: int) -> Option<int> {
    if index as int % 0x1_0000_0000 < width {
        Some(index as int % 0x1_0000_0000)
    } else {
        None
    }
}

/// Whether `limit` is the largest word of the given width.
pub(crate) open spec fn widest(limit: u64, width: int) -> bool {
    ||| limit == 0xff && width == 8
    ||| limit == 0xffff && width == 16
    ||| limit == 0xffff_ffff && width == 32
    ||| limit == 0xffff_ffff_ffff_ffff && width == 64
}

proof fn lemma_narrow_bits(limit: u64, width: u64, left: u64, right: u64, index: u64)
    by (bit_vector)
    requires
        (limit == 0xff && width == 8) || (limit == 0xffff && width == 16) || (limit == 0xffff_ffff
            && width == 32) || (limit == 0xffff_ffff_ffff_ffff && width == 64),
        left <= limit,
        right <= limit,
        index < 64,
    ensures
        left | right <= limit,
        left & !right <= left,
        index < width ==> (1u64 << index) <= limit && limit & (1u64 << index) != 0,
        index >= width ==> left & (1u64 << index) == 0,
{
}

proof fn lemma_narrow_at(limit: u64, width: int, left: u64, right: u64, index: int)
    requires
        widest(limit, width),
        left <= limit,
        right <= limit,
        0 <= index < 64,
    ensures
        word_bit(left, index) ==> index < width,
        word_bit(right, index) ==> index < width,
        index < width ==> word_bit(limit, index),
        !word_bit(0, index),
        word_bit(left | right, index) == (word_bit(left, index) || word_bit(right, index)),
        word_bit(left & right, index) == (word_bit(left, index) && word_bit(right, index)),
        word_bit(left & !right, index) == (word_bit(left, index) && !word_bit(right, index)),
{
    lemma_narrow_bits(limit, width as u64, left, right, index as u64);
    lemma_narrow_bits(limit, width as u64, right, left, index as u64);
    lemma_join_bits(left, right, index as u64);
    lemma_without_bits(left, right, index as u64);
}

pub(crate) proof fn lemma_narrow(limit: u64, width: int, left: u64, right: u64)
    requires
        widest(limit, width),
        left <= limit,
        right <= limit,
    ensures
        left | right <= limit,
        left & !right <= left,
        forall|index: int| 0 <= index < 64 && #[trigger] word_bit(left, index) ==> index < width,
        forall|index: int| 0 <= index < 64 && #[trigger] word_bit(right, index) ==> index < width,
        forall|index: int| #[trigger] word_marks(limit, width, index) == (0 <= index < width),
        forall|index: int| !#[trigger] word_marks(0, width, index),
        left != 0 ==> exists|index: int| #[trigger] word_marks(left, width, index),
        forall|index: int| #[trigger]
            word_marks(left | right, width, index) == (word_marks(left, width, index) || word_marks(
                right,
                width,
                index,
            )),
        forall|index: int| #[trigger]
            word_marks(left & !right, width, index) == (word_marks(left, width, index)
                && !word_marks(right, width, index)),
        (left & right == 0) == forall|index: int| #[trigger]
            word_marks(right, width, index) ==> !word_marks(left, width, index),
        (left & right == right) == forall|index: int| #[trigger]
            word_marks(right, width, index) ==> word_marks(left, width, index),
{
    lemma_narrow_bits(limit, width as u64, left, right, 0);
    assert forall|index: int| 0 <= index < 64 && #[trigger] word_bit(left, index) implies index
        < width by {
        lemma_narrow_at(limit, width, left, right, index);
    }
    assert forall|index: int| 0 <= index < 64 && #[trigger] word_bit(right, index) implies index
        < width by {
        lemma_narrow_at(limit, width, left, right, index);
    }
    assert forall|index: int| #[trigger] word_marks(limit, width, index) == (0 <= index < width) by {
        if 0 <= index < width {
            lemma_narrow_at(limit, width, left, right, index);
        }
    }
    assert forall|index: int| !#[trigger] word_marks(0, width, index) by {
        if 0 <= index < width {
            lemma_narrow_at(limit, width, left, right, index);
        }
    }
    assert forall|index: int| #[trigger]
        word_marks(left | right, width, index) == (word_marks(left, width, index) || word_marks(
            right,
            width,
            index,
        )) by {
        if 0 <= index < width {
            lemma_narrow_at(limit, width, left, right, index);
        }
    }
    assert forall|index: int| #[trigger]
        word_marks(left & !right, width, index) == (word_marks(left, width, index) && !word_marks(
            right,
            width,
            index,
        )) by {
        if 0 <= index < width {
            lemma_narrow_at(limit, width, left, right, index);
        }
    }
    if left != 0 {
        let index = lemma_some_word_bit(left);
        assert(word_marks(left, width, index));
    }
    if left & right != 0 {
        let index = lemma_some_word_bit(left & right);
        lemma_narrow_at(limit, width, left, right, index);
        assert(word_marks(right, width, index) && word_marks(left, width, index));
    } else {
        assert forall|index: int| #[trigger] word_marks(right, width, index) implies !word_marks(
            left,
            width,
            index,
        ) by {
            lemma_narrow_at(limit, width, left, right, index);
        }
    }
    lemma_part_of(left, right);
    if left & right == right {
        assert forall|index: int| #[trigger] word_marks(right, width, index) implies word_marks(
            left,
            width,
            index,
        ) by {
            assert(word_bit(right, index));
        }
    } else {
        let index = choose|index: int|
            0 <= index < 64 && #[trigger] word_bit(right, index) && !word_bit(left, index);
        assert(word_marks(right, width, index) && !word_marks(left, width, index));
    }
}

fn lock_word(before: u64, mask: u64, partial: bool) -> (outcome: (u64, Option<u64>))
    ensures
        ({
            let (after, taken) = outcome;
            if partial || before & mask == 0 {
                &&& after == if mask == 0 {
                    before
                } else {
                    before | mask
                }
                &&& taken == Some(
                    if mask == 0 || !partial {
                        mask
                    } else {
                        mask & !before
                    },
                )
            } else {
                &&& after == before
                &&& taken is None
            }
        }),
{
    if mask == 0 {
        assert(before & 0u64 == 0) by (bit_vector);
        (before, Some(mask))
    } else if partial {
        (before | mask, Some(mask & !before))
    } else if before & mask == 0 {
        (before | mask, Some(mask))
    } else {
        (before, None)
    }
}

fn add_word(mask: u64, index: usize, width: usize, limit: u64) -> (joined: Result<u64, IndexError>)
    requires
        widest(limit, width as int),
        mask <= limit,
    ensures
        match word_place(index, width as int) {
            None => joined == Err::<u64, IndexError>(IndexError::OutOfBounds(index)),
            Some(place) => if word_marks(mask, width as int, place) {
                joined == Err::<u64, IndexError>(IndexError::Duplicate(index))
            } else {
                &&& joined matches Ok(joined)
                &&& joined <= limit
                &&& forall|other: int| #[trigger]
                    word_marks(joined, width as int, other) == (word_marks(
                        mask,
                        width as int,
                        other,
                    ) || other == place)
            },
        },
{
    let bit: u32 = low_half(index);
    if bit as usize >= width {
        return Err(IndexError::OutOfBounds(index));
    }
    let next: u64 = mask | (1u64 << bit);
    proof {
        lemma_narrow_bits(limit, width as u64, mask, 0, bit as u64);
        lemma_narrow_bits(limit, width as u64, mask, 1u64 << bit, bit as u64);
        assert forall|other: int| 0 <= other < 64 implies #[trigger] word_bit(next, other) == (
        word_bit(mask, other) || other == bit) by {
            lemma_set_bit(mask, bit as u64, other as u64);
        }
        if word_bit(mask, bit as int) {
            assert(mask & (1u64 << bit) != 0 && bit < 64 ==> mask | (1u64 << bit) == mask)
                by (bit_vector);
        } else {
            assert(word_bit(next, bit as int));
        }
    }
    if mask == next {
        Err(IndexError::Duplicate(index))
    } else {
        Ok(next)
    }
}

fn has_word(mask: u64, index: usize, width: usize) -> (held: bool)
    requires
        width <= 64,
    ensures
        held == match word_place(index, width as int) {
            Some(place) => word_marks(mask, width as int, place),
            None => false,
        },
{
    let bit: u32 = low_half(index);
    if bit as usize >= width {
        return false;
    }
    mask & (1u64 << bit) != 0
}

fn low_half(index: usize) -> (bit: u32)
    ensures
        bit == index as int % 0x1_0000_0000,
{
    let whole: u64 = index as u64;
    assert(whole as u32 == whole % 0x1_0000_0000) by (bit_vector);
    #[verifier::truncate]
    (whole as u32)
}

impl Selection for u8 {
    type State = u8;

    open spec fn width() -> int {
        8 as int
    }

    open spec fn marks(mask: Self, index: int) -> bool {
        word_marks(mask as u64, 8 as int, index)
    }

    open spec fn held(state: u8, index: int) -> bool {
        word_marks(state as u64, 8 as int, index)
    }

    open spec fn counts() -> bool {
        false
    }

    open spec fn turn(state: u8) -> u32 {
        0
    }

    open spec fn place(index: usize) -> Option<int> {
        word_place(index, 8 as int)
    }

    open spec fn named(index: usize) -> usize {
        index
    }

    open spec fn fits() -> bool {
        true
    }

    open spec fn locked(state: u8, mask: Self, partial: bool) -> bool {
        if partial {
            exists|index: int| #[trigger] Self::marks(mask, index) && Self::held(state, index)
        } else {
            &&& exists|index: int| #[trigger] Self::marks(mask, index)
            &&& forall|index: int| #[trigger] Self::marks(mask, index) ==> Self::held(state, index)
        }
    }

    open spec fn whole() -> Self {
        u8::MAX
    }

    proof fn lemma_width() {
        lemma_narrow(u8::MAX as u64, 8 as int, 0, 0);
    }
}

impl Lock for u8 {
    fn zero() -> (mask: Self) {
        proof {
            lemma_narrow(u8::MAX as u64, 8 as int, 0, 0);
        }
        0
    }

    fn max() -> (mask: Self) {
        u8::MAX
    }

    fn bits() -> (bits: usize) {
        8
    }

    fn free() -> (state: u8) {
        proof {
            lemma_narrow(u8::MAX as u64, 8 as int, 0, 0);
        }
        0
    }

    fn lock(state: &mut u8, mask: Self, partial: bool) -> (taken: Option<Self>) {
        proof {
            lemma_narrow(u8::MAX as u64, 8 as int, *state as u64, mask as u64);
            lemma_narrow(u8::MAX as u64, 8 as int, mask as u64, *state as u64);
            assert(forall|index: int| #[trigger]
                word_marks(mask as u64, 8 as int, index) == Self::marks(mask, index));
        }
        let (after, taken) = lock_word(*state as u64, mask as u64, partial);
        *state = after as u8;
        match taken {
            Some(taken) => Some(taken as u8),
            None => None,
        }
    }

    fn unlock(state: &mut u8, mask: Self, wake: bool) -> (woken: bool) {
        proof {
            lemma_narrow(u8::MAX as u64, 8 as int, *state as u64, mask as u64);
            lemma_narrow(u8::MAX as u64, 8 as int, mask as u64, *state as u64);
            assert(forall|index: int| #[trigger]
                word_marks(mask as u64, 8 as int, index) == Self::marks(mask, index));
        }
        if mask != 0 {
            *state = (*state as u64 & !(mask as u64)) as u8;
        }
        wake && mask != 0
    }

    fn is_locked(state: &u8, mask: Self, partial: bool) -> (locked: bool) {
        proof {
            lemma_narrow(u8::MAX as u64, 8 as int, *state as u64, mask as u64);
            lemma_narrow(u8::MAX as u64, 8 as int, mask as u64, *state as u64);
            assert(forall|index: int| #[trigger]
                word_marks(mask as u64, 8 as int, index) == Self::marks(mask, index));
        }
        let common: u64 = (*state as u64) & (mask as u64);
        if mask == 0 {
            false
        } else if partial {
            common != 0
        } else {
            common == mask as u64
        }
    }

    fn add(mask: Self, index: usize) -> (joined: Result<Self, IndexError>) {
        match add_word(mask as u64, index, 8, u8::MAX as u64) {
            Ok(joined) => Ok(joined as u8),
            Err(error) => Err(error),
        }
    }

    fn has(mask: Self, index: usize) -> (held: bool) {
        has_word(mask as u64, index, 8)
    }
}

impl Selection for u16 {
    type State = u16;

    open spec fn width() -> int {
        16 as int
    }

    open spec fn marks(mask: Self, index: int) -> bool {
        word_marks(mask as u64, 16 as int, index)
    }

    open spec fn held(state: u16, index: int) -> bool {
        word_marks(state as u64, 16 as int, index)
    }

    open spec fn counts() -> bool {
        false
    }

    open spec fn turn(state: u16) -> u32 {
        0
    }

    open spec fn place(index: usize) -> Option<int> {
        word_place(index, 16 as int)
    }

    open spec fn named(index: usize) -> usize {
        index
    }

    open spec fn fits() -> bool {
        true
    }

    open spec fn locked(state: u16, mask: Self, partial: bool) -> bool {
        if partial {
            exists|index: int| #[trigger] Self::marks(mask, index) && Self::held(state, index)
        } else {
            &&& exists|index: int| #[trigger] Self::marks(mask, index)
            &&& forall|index: int| #[trigger] Self::marks(mask, index) ==> Self::held(state, index)
        }
    }

    open spec fn whole() -> Self {
        u16::MAX
    }

    proof fn lemma_width() {
        lemma_narrow(u16::MAX as u64, 16 as int, 0, 0);
    }
}

impl Lock for u16 {
    fn zero() -> (mask: Self) {
        proof {
            lemma_narrow(u16::MAX as u64, 16 as int, 0, 0);
        }
        0
    }

    fn max() -> (mask: Self) {
        u16::MAX
    }

    fn bits() -> (bits: usize) {
        16
    }

    fn free() -> (state: u16) {
        proof {
            lemma_narrow(u16::MAX as u64, 16 as int, 0, 0);
        }
        0
    }

    fn lock(state: &mut u16, mask: Self, partial: bool) -> (taken: Option<Self>) {
        proof {
            lemma_narrow(u16::MAX as u64, 16 as int, *state as u64, mask as u64);
            lemma_narrow(u16::MAX as u64, 16 as int, mask as u64, *state as u64);
            assert(forall|index: int| #[trigger]
                word_marks(mask as u64, 16 as int, index) == Self::marks(mask, index));
        }
        let (after, taken) = lock_word(*state as u64, mask as u64, partial);
        *state = after as u16;
        match taken {
            Some(taken) => Some(taken as u16),
            None => None,
        }
    }

    fn unlock(state: &mut u16, mask: Self, wake: bool) -> (woken: bool) {
        proof {
            lemma_narrow(u16::MAX as u64, 16 as int, *state as u64, mask as u64);
            lemma_narrow(u16::MAX as u64, 16 as int, mask as u64, *state as u64);
            assert(forall|index: int| #[trigger]
                word_marks(mask as u64, 16 as int, index) == Self::marks(mask, index));
        }
        if mask != 0 {
            *state = (*state as u64 & !(mask as u64)) as u16;
        }
        wake && mask != 0
    }

    fn is_locked(state: &u16, mask: Self, partial: bool) -> (locked: bool) {
        proof {
            lemma_narrow(u16::MAX as u64, 16 as int, *state as u64, mask as u64);
            lemma_narrow(u16::MAX as u64, 16 as int, mask as u64, *state as u64);
            assert(forall|index: int| #[trigger]
                word_marks(mask as u64, 16 as int, index) == Self::marks(mask, index));
        }
        let common: u64 = (*state as u64) & (mask as u64);
        if mask == 0 {
            false
        } else if partial {
            common != 0
        } else {
            common == mask as u64
        }
    }

    fn add(mask: Self, index: usize) -> (joined: Result<Self, IndexError>) {
        match add_word(mask as u64, index, 16, u16::MAX as u64) {
            Ok(joined) => Ok(joined as u16),
            Err(error) => Err(error),
        }
    }

    fn has(mask: Self, index: usize) -> (held: bool) {
        has_word(mask as u64, index, 16)
    }
}

impl Selection for u32 {
    type State = u32;

    open spec fn width() -> int {
        32 as int
    }

    open spec fn marks(mask: Self, index: int) -> bool {
        word_marks(mask as u64, 32 as int, index)
    }

    open spec fn held(state: u32, index: int) -> bool {
        word_marks(state as u64, 32 as int, index)
    }

    open spec fn counts() -> bool {
        false
    }

    open spec fn turn(state: u32) -> u32 {
        0
    }

    open spec fn place(index: usize) -> Option<int> {
        word_place(index, 32 as int)
    }

    open spec fn named(index: usize) -> usize {
        index
    }

    open spec fn fits() -> bool {
        true
    }

    open spec fn locked(state: u32, mask: Self, partial: bool) -> bool {
        if partial {
            exists|index: int| #[trigger] Self::marks(mask, index) && Self::held(state, index)
        } else {
            &&& exists|index: int| #[trigger] Self::marks(mask, index)
            &&& forall|index: int| #[trigger] Self::marks(mask, index) ==> Self::held(state, index)
        }
    }

    open spec fn whole() -> Self {
        u32::MAX
    }

    proof fn lemma_width() {
        lemma_narrow(u32::MAX as u64, 32 as int, 0, 0);
    }
}

impl Lock for u32 {
    fn zero() -> (mask: Self) {
        proof {
            lemma_narrow(u32::MAX as u64, 32 as int, 0, 0);
        }
        0
    }

    fn max() -> (mask: Self) {
        u32::MAX
    }

    fn bits() -> (bits: usize) {
        32
    }

    fn free() -> (state: u32) {
        proof {
            lemma_narrow(u32::MAX as u64, 32 as int, 0, 0);
        }
        0
    }

    fn lock(state: &mut u32, mask: Self, partial: bool) -> (taken: Option<Self>) {
        proof {
            lemma_narrow(u32::MAX as u64, 32 as int, *state as u64, mask as u64);
            lemma_narrow(u32::MAX as u64, 32 as int, mask as u64, *state as u64);
            assert(forall|index: int| #[trigger]
                word_marks(mask as u64, 32 as int, index) == Self::marks(mask, index));
        }
        let (after, taken) = lock_word(*state as u64, mask as u64, partial);
        *state = after as u32;
        match taken {
            Some(taken) => Some(taken as u32),
            None => None,
        }
    }

    fn unlock(state: &mut u32, mask: Self, wake: bool) -> (woken: bool) {
        proof {
            lemma_narrow(u32::MAX as u64, 32 as int, *state as u64, mask as u64);
            lemma_narrow(u32::MAX as u64, 32 as int, mask as u64, *state as u64);
            assert(forall|index: int| #[trigger]
                word_marks(mask as u64, 32 as int, index) == Self::marks(mask, index));
        }
        if mask != 0 {
            *state = (*state as u64 & !(mask as u64)) as u32;
        }
        wake && mask != 0
    }

    fn is_locked(state: &u32, mask: Self, partial: bool) -> (locked: bool) {
        proof {
            lemma_narrow(u32::MAX as u64, 32 as int, *state as u64, mask as u64);
            lemma_narrow(u32::MAX as u64, 32 as int, mask as u64, *state as u64);
            assert(forall|index: int| #[trigger]
                word_marks(mask as u64, 32 as int, index) == Self::marks(mask, index));
        }
        let common: u64 = (*state as u64) & (mask as u64);
        if mask == 0 {
            false
        } else if partial {
            common != 0
        } else {
            common == mask as u64
        }
    }

    fn add(mask: Self, index: usize) -> (joined: Result<Self, IndexError>) {
        match add_word(mask as u64, index, 32, u32::MAX as u64) {
            Ok(joined) => Ok(joined as u32),
            Err(error) => Err(error),
        }
    }

    fn has(mask: Self, index: usize) -> (held: bool) {
        has_word(mask as u64, index, 32)
    }
}

impl Selection for u64 {
    type State = u64;

    open spec fn width() -> int {
        64 as int
    }

    open spec fn marks(mask: Self, index: int) -> bool {
        word_marks(mask as u64, 64 as int, index)
    }

    open spec fn held(state: u64, index: int) -> bool {
        word_marks(state as u64, 64 as int, index)
    }

    open spec fn counts() -> bool {
        false
    }

    open spec fn turn(state: u64) -> u32 {
        0
    }

    open spec fn place(index: usize) -> Option<int> {
        word_place(index, 64 as int)
    }

    open spec fn named(index: usize) -> usize {
        index
    }

    open spec fn fits() -> bool {
        true
    }

    open spec fn locked(state: u64, mask: Self, partial: bool) -> bool {
        if partial {
            exists|index: int| #[trigger] Self::marks(mask, index) && Self::held(state, index)
        } else {
            &&& exists|index: int| #[trigger] Self::marks(mask, index)
            &&& forall|index: int| #[trigger] Self::marks(mask, index) ==> Self::held(state, index)
        }
    }

    open spec fn whole() -> Self {
        u64::MAX
    }

    proof fn lemma_width() {
        lemma_narrow(u64::MAX as u64, 64 as int, 0, 0);
    }
}

impl Lock for u64 {
    fn zero() -> (mask: Self) {
        proof {
            lemma_narrow(u64::MAX as u64, 64 as int, 0, 0);
        }
        0
    }

    fn max() -> (mask: Self) {
        u64::MAX
    }

    fn bits() -> (bits: usize) {
        64
    }

    fn free() -> (state: u64) {
        proof {
            lemma_narrow(u64::MAX as u64, 64 as int, 0, 0);
        }
        0
    }

    fn lock(state: &mut u64, mask: Self, partial: bool) -> (taken: Option<Self>) {
        proof {
            lemma_narrow(u64::MAX as u64, 64 as int, *state as u64, mask as u64);
            lemma_narrow(u64::MAX as u64, 64 as int, mask as u64, *state as u64);
            assert(forall|index: int| #[trigger]
                word_marks(mask as u64, 64 as int, index) == Self::marks(mask, index));
        }
        let (after, taken) = lock_word(*state, mask, partial);
        *state = after;
        match taken {
            Some(taken) => Some(taken),
            None => None,
        }
    }

    fn unlock(state: &mut u64, mask: Self, wake: bool) -> (woken: bool) {
        proof {
            lemma_narrow(u64::MAX as u64, 64 as int, *state as u64, mask as u64);
            lemma_narrow(u64::MAX as u64, 64 as int, mask as u64, *state as u64);
            assert(forall|index: int| #[trigger]
                word_marks(mask as u64, 64 as int, index) == Self::marks(mask, index));
        }
        if mask != 0 {
            *state = *state & !mask;
        }
        wake && mask != 0
    }

    fn is_locked(state: &u64, mask: Self, partial: bool) -> (locked: bool) {
        proof {
            lemma_narrow(u64::MAX as u64, 64 as int, *state as u64, mask as u64);
            lemma_narrow(u64::MAX as u64, 64 as int, mask as u64, *state as u64);
            assert(forall|index: int| #[trigger]
                word_marks(mask as u64, 64 as int, index) == Self::marks(mask, index));
        }
        let common: u64 = *state & mask;
        if mask == 0 {
            false
        } else if partial {
            common != 0
        } else {
            common == mask
        }
    }

    fn add(mask: Self, index: usize) -> (joined: Result<Self, IndexError>) {
        match add_word(mask, index, 64, u64::MAX) {
            Ok(joined) => Ok(joined),
            Err(error) => Err(error),
        }
    }

    fn has(mask: Self, index: usize) -> (held: bool) {
        has_word(mask, index, 64)
    }
}

impl Selection for usize {
    type State = usize;

    open spec fn width() -> int {
        usize::BITS as int
    }

    open spec fn marks(mask: Self, index: int) -> bool {
        word_marks(mask as u64, usize::BITS as int, index)
    }

    open spec fn held(state: usize, index: int) -> bool {
        word_marks(state as u64, usize::BITS as int, index)
    }

    open spec fn counts() -> bool {
        false
    }

    open spec fn turn(state: usize) -> u32 {
        0
    }

    open spec fn place(index: usize) -> Option<int> {
        word_place(index, usize::BITS as int)
    }

    open spec fn named(index: usize) -> usize {
        index
    }

    open spec fn fits() -> bool {
        true
    }

    open spec fn locked(state: usize, mask: Self, partial: bool) -> bool {
        if partial {
            exists|index: int| #[trigger] Self::marks(mask, index) && Self::held(state, index)
        } else {
            &&& exists|index: int| #[trigger] Self::marks(mask, index)
            &&& forall|index: int| #[trigger] Self::marks(mask, index) ==> Self::held(state, index)
        }
    }

    open spec fn whole() -> Self {
        usize::MAX
    }

    proof fn lemma_width() {
        lemma_narrow(usize::MAX as u64, usize::BITS as int, 0, 0);
    }
}

impl Lock for usize {
    fn zero() -> (mask: Self) {
        proof {
            lemma_narrow(usize::MAX as u64, usize::BITS as int, 0, 0);
        }
        0
    }

    fn max() -> (mask: Self) {
        usize::MAX
    }

    fn bits() -> (bits: usize) {
        usize::BITS as usize
    }

    fn free() -> (state: usize) {
        proof {
            lemma_narrow(usize::MAX as u64, usize::BITS as int, 0, 0);
        }
        0
    }

    fn lock(state: &mut usize, mask: Self, partial: bool) -> (taken: Option<Self>) {
        proof {
            lemma_narrow(usize::MAX as u64, usize::BITS as int, *state as u64, mask as u64);
            lemma_narrow(usize::MAX as u64, usize::BITS as int, mask as u64, *state as u64);
            assert(forall|index: int| #[trigger]
                word_marks(mask as u64, usize::BITS as int, index) == Self::marks(mask, index));
        }
        let (after, taken) = lock_word(*state as u64, mask as u64, partial);
        *state = after as usize;
        match taken {
            Some(taken) => Some(taken as usize),
            None => None,
        }
    }

    fn unlock(state: &mut usize, mask: Self, wake: bool) -> (woken: bool) {
        proof {
            lemma_narrow(usize::MAX as u64, usize::BITS as int, *state as u64, mask as u64);
            lemma_narrow(usize::MAX as u64, usize::BITS as int, mask as u64, *state as u64);
            assert(forall|index: int| #[trigger]
                word_marks(mask as u64, usize::BITS as int, index) == Self::marks(mask, index));
        }
        if mask != 0 {
            *state = (*state as u64 & !(mask as u64)) as usize;
        }
        wake && mask != 0
    }

    fn is_locked(state: &usize, mask: Self, partial: bool) -> (locked: bool) {
        proof {
            lemma_narrow(usize::MAX as u64, usize::BITS as int, *state as u64, mask as u64);
            lemma_narrow(usize::MAX as u64, usize::BITS as int, mask as u64, *state as u64);
            assert(forall|index: int| #[trigger]
                word_marks(mask as u64, usize::BITS as int, index) == Self::marks(mask, index));
        }
        let common: u64 = (*state as u64) & (mask as u64);
        if mask == 0 {
            false
        } else if partial {
            common != 0
        } else {
            common == mask as u64
        }
    }

    fn add(mask: Self, index: usize) -> (joined: Result<Self, IndexError>) {
        match add_word(mask as u64, index, usize::BITS as usize, usize::MAX as u64) {
            Ok(joined) => Ok(joined as usize),
            Err(error) => Err(error),
        }
    }

    fn has(mask: Self, index: usize) -> (held: bool) {
        has_word(mask as u64, index, usize::BITS as usize)
    }
}

proof fn lemma_split(index: int, width: int, count: int)
    requires
        0 <= index < width * count,
        0 <= width,
        0 <= count,
    ensures
        0 < width,
        0 <= index / width < count,
        0 <= index % width < width,
        index == (index / width) * width + index % width,
{
    assert(0 < width) by (nonlinear_arith)
        requires
            0 <= index < width * count,
            0 <= width,
            0 <= count,
    ;
    vstd::arithmetic::div_mod::lemma_fundamental_div_mod(index, width);
    assert(0 <= index / width < count && 0 <= index % width < width) by (nonlinear_arith)
        requires
            0 <= index < width * count,
            0 < width,
    ;
    assert(width * (index / width) == (index / width) * width) by (nonlinear_arith);
}

proof fn lemma_place_in_row(word: int, index: int, width: int, count: int)
    requires
        0 <= word < count,
        0 <= index < width,
    ensures
        0 <= word * width + index < width * count,
        (word * width + index) / width == word,
        (word * width + index) % width == index,
{
    assert(0 <= word * width + index < width * count) by (nonlinear_arith)
        requires
            0 <= word < count,
            0 <= index < width,
    ;
    vstd::arithmetic::div_mod::lemma_fundamental_div_mod_converse(
        word * width + index,
        width,
        word,
        index,
    );
}

/// The state of a lock that is a row of locks, and how often waiting threads were woken.
#[derive(Clone, Copy)]
pub struct Row<S: Copy, const N: usize> {
    pub words: [S; N],
    pub turn: u32,
}

impl<L: Lock, const N: usize> Selection for [L; N] {
    type State = Row<L::State, N>;

    open spec fn width() -> int {
        L::width() * N
    }

    open spec fn marks(mask: Self, index: int) -> bool {
        &&& 0 <= index < L::width() * N
        &&& L::marks(mask[index / L::width()], index % L::width())
    }

    open spec fn held(state: Row<L::State, N>, index: int) -> bool {
        &&& 0 <= index < L::width() * N
        &&& L::held(state.words[index / L::width()], index % L::width())
    }

    open spec fn counts() -> bool {
        true
    }

    open spec fn turn(state: Row<L::State, N>) -> u32 {
        state.turn
    }

    open spec fn place(index: usize) -> Option<int> {
        if index < L::width() * N {
            Some(index as int)
        } else {
            None
        }
    }

    open spec fn named(index: usize) -> usize {
        L::named((index as int % L::width()) as usize)
    }

    open spec fn fits() -> bool {
        &&& L::fits()
        &&& 0 < L::width()
        &&& L::width() * N <= usize::MAX
    }

    open spec fn locked(state: Row<L::State, N>, mask: Self, partial: bool) -> bool {
        exists|word: int| 0 <= word < N && #[trigger] L::locked(state.words[word], mask[word], partial)
    }

    open spec fn whole() -> Self {
        [L::whole();N]
    }

    proof fn lemma_width() {
        L::lemma_width();
        assert forall|index: int| #[trigger]
            Self::marks(Self::whole(), index) == (0 <= index < Self::width()) by {
            if 0 <= index < L::width() * N {
                lemma_split(index, L::width(), N as int);
            }
        }
        assert(0 <= L::width() * N) by (nonlinear_arith)
            requires
                0 <= L::width(),
                0 <= N,
        ;
    }
}

proof fn lemma_taken<L: Selection>(
    before: L::State,
    after: L::State,
    mask: L,
    partial: bool,
    taken: L,
    index: int,
)
    requires
        takes::<L>(before, after, mask, partial, Some(taken)),
    ensures
        L::marks(taken, index) == (L::marks(mask, index) && !L::held(before, index)),
        L::held(after, index) == (L::held(before, index) || L::marks(mask, index)),
{
    assert(frees::<L>(before, mask, taken));
}

impl<L: Lock, const N: usize> Lock for [L; N] {
    fn zero() -> (mask: Self) {
        let mask = [L::zero();N];
        proof {
            L::lemma_width();
            assert forall|index: int| !#[trigger] Self::marks(mask, index) by {
                if 0 <= index < L::width() * N {
                    lemma_split(index, L::width(), N as int);
                }
            }
        }
        mask
    }

    fn max() -> (mask: Self) {
        [L::max();N]
    }

    fn bits() -> (bits: usize) {
        L::bits() * N
    }

    fn free() -> (state: Row<L::State, N>) {
        let state = Row { words: [L::free();N], turn: 0u32 };
        proof {
            L::lemma_width();
            assert forall|index: int| !#[trigger] Self::held(state, index) by {
                if 0 <= index < L::width() * N {
                    lemma_split(index, L::width(), N as int);
                }
            }
        }
        state
    }

    fn lock(state: &mut Row<L::State, N>, mask: Self, partial: bool) -> (taken: Option<Self>) {
        let ghost before = *state;
        let mut masks = Self::zero();
        let ghost none = masks;
        let mut index: usize = 0;
        proof {
            L::lemma_width();
        }
        while index < N
            invariant
                index <= N,
                before == *old(state),
                state.turn == before.turn,
                forall|bit: int| !#[trigger] Self::marks(none, bit),
                forall|word: int|
                    index <= word < N ==> (#[trigger] state.words[word]) == before.words[word],
                forall|word: int| index <= word < N ==> (#[trigger] masks[word]) == none[word],
                forall|word: int|
                    0 <= word < index ==> takes::<L>(
                        before.words[word],
                        #[trigger] state.words[word],
                        mask[word],
                        partial,
                        Some(masks[word]),
                    ),
            decreases N - index,
        {
            let ghost earlier = *state;
            let mut word: L::State = state.words[index];
            let part: Option<L> = L::lock(&mut word, mask[index], partial);
            state.words.set(index, word);
            match part {
                Some(part) => {
                    masks.set(index, part);
                },
                None => {
                    let ghost middle = *state;
                    let _ = Self::unlock(state, masks, true);
                    proof {
                        L::lemma_width();
                        assert forall|bit: int| #[trigger]
                            Self::held(*state, bit) == Self::held(before, bit) by {
                            if 0 <= bit < L::width() * N {
                                lemma_split(bit, L::width(), N as int);
                                let at = bit / L::width();
                                let low = bit % L::width();
                                assert(!Self::marks(none, bit));
                                assert(Self::marks(masks, bit) == L::marks(masks[at], low));
                                assert(Self::held(before, bit) == L::held(before.words[at], low));
                                assert(Self::held(middle, bit) == L::held(middle.words[at], low));
                                assert(Self::held(*state, bit) == (Self::held(middle, bit)
                                    && !Self::marks(masks, bit)));
                                if at < index {
                                    assert(takes::<L>(
                                        before.words[at],
                                        earlier.words[at],
                                        mask[at],
                                        partial,
                                        Some(masks[at]),
                                    ));
                                    assert(middle.words[at] == earlier.words[at]);
                                    lemma_taken::<L>(
                                        before.words[at],
                                        earlier.words[at],
                                        mask[at],
                                        partial,
                                        masks[at],
                                        low,
                                    );
                                }
                            }
                        }
                        let low = choose|low: int| #[trigger]
                            L::marks(mask[index as int], low) && L::held(
                                before.words[index as int],
                                low,
                            );
                        let bit = index * L::width() + low;
                        lemma_place_in_row(index as int, low, L::width(), N as int);
                        assert(Self::marks(mask, bit) && Self::held(before, bit));
                        assert(clashes::<Self>(before, mask));
                    }
                    return None;
                },
            }
            index = index + 1;
        }
        proof {
            L::lemma_width();
            assert forall|bit: int| #[trigger]
                Self::marks(masks, bit) == (Self::marks(mask, bit) && !Self::held(before, bit)) by {
                if 0 <= bit < L::width() * N {
                    lemma_split(bit, L::width(), N as int);
                    let at = bit / L::width();
                    assert(takes::<L>(
                        before.words[at],
                        state.words[at],
                        mask[at],
                        partial,
                        Some(masks[at]),
                    ));
                    let low = bit % L::width();
                    lemma_taken::<L>(
                        before.words[at],
                        state.words[at],
                        mask[at],
                        partial,
                        masks[at],
                        low,
                    );
                    assert(Self::marks(masks, bit) == L::marks(masks[at], low));
                    assert(Self::marks(mask, bit) == L::marks(mask[at], low));
                    assert(Self::held(before, bit) == L::held(before.words[at], low));
                }
            }
            assert forall|bit: int| #[trigger]
                Self::held(*state, bit) == (Self::held(before, bit) || Self::marks(mask, bit)) by {
                if 0 <= bit < L::width() * N {
                    lemma_split(bit, L::width(), N as int);
                    let at = bit / L::width();
                    assert(takes::<L>(
                        before.words[at],
                        state.words[at],
                        mask[at],
                        partial,
                        Some(masks[at]),
                    ));
                }
            }
            if !partial && clashes::<Self>(before, mask) {
                let bit = choose|bit: int| #[trigger]
                    Self::marks(mask, bit) && Self::held(before, bit);
                lemma_split(bit, L::width(), N as int);
                let at = bit / L::width();
                assert(takes::<L>(before.words[at], state.words[at], mask[at], partial, Some(masks[at])));
                assert(L::marks(mask[at], bit % L::width()));
            }
        }
        Some(masks)
    }

    fn unlock(state: &mut Row<L::State, N>, mask: Self, wake: bool) -> (woken: bool) {
        let ghost before = *state;
        let mut index: usize = 0;
        while index < N
            invariant
                index <= N,
                before == *old(state),
                state.turn == before.turn,
                forall|word: int| index <= word < N ==> (#[trigger] state.words[word]) == before.words[word],
                forall|word: int, bit: int|
                    0 <= word < index ==> #[trigger] L::held(state.words[word], bit) == (L::held(
                        before.words[word],
                        bit,
                    ) && !L::marks(mask[word], bit)),
            decreases N - index,
        {
            let mut word: L::State = state.words[index];
            let _ = L::unlock(&mut word, mask[index], false);
            state.words.set(index, word);
            index = index + 1;
        }
        if wake {
            state.turn = state.turn.wrapping_add(1);
        }
        proof {
            L::lemma_width();
            assert forall|bit: int| #[trigger]
                Self::held(*state, bit) == (Self::held(before, bit) && !Self::marks(mask, bit)) by {
                if 0 <= bit < L::width() * N {
                    lemma_split(bit, L::width(), N as int);
                }
            }
        }
        wake
    }

    fn is_locked(state: &Row<L::State, N>, mask: Self, partial: bool) -> (locked: bool) {
        let mut index: usize = 0;
        while index < N
            invariant
                index <= N,
                forall|word: int|
                    0 <= word < index ==> !#[trigger] L::locked(state.words[word], mask[word], partial),
            decreases N - index,
        {
            if L::is_locked(&state.words[index], mask[index], partial) {
                return true;
            }
            index = index + 1;
        }
        false
    }

    fn add(mask: Self, index: usize) -> (joined: Result<Self, IndexError>) {
        proof {
            L::lemma_width();
        }
        let bits: usize = L::bits();
        let word: usize = index / bits;
        if word >= N {
            assert(index >= L::width() * N) by (nonlinear_arith)
                requires
                    index as int / L::width() >= N,
                    0 < L::width(),
            ;
            return Err(IndexError::OutOfBounds(index));
        }
        let low: usize = index % bits;
        proof {
            vstd::arithmetic::div_mod::lemma_fundamental_div_mod(index as int, L::width());
            lemma_place_in_row(word as int, low as int, L::width(), N as int);
            assert(L::width() * word == word * L::width()) by (nonlinear_arith);
            assert(L::place(low) == Some(low as int));
        }
        match L::add(mask[word], low) {
            Ok(part) => {
                let mut joined = mask;
                joined.set(word, part);
                proof {
                    assert forall|other: int| #[trigger]
                        Self::marks(joined, other) == (Self::marks(mask, other) || other == index) by {
                        if 0 <= other < L::width() * N {
                            lemma_split(other, L::width(), N as int);
                            if other / L::width() == word {
                                assert(L::marks(part, other % L::width()) == (L::marks(
                                    mask[word as int],
                                    other % L::width(),
                                ) || other % L::width() == low));
                            }
                        }
                    }
                }
                Ok(joined)
            },
            Err(error) => Err(error),
        }
    }

    fn has(mask: Self, index: usize) -> (held: bool) {
        proof {
            L::lemma_width();
        }
        let bits: usize = L::bits();
        let word: usize = index / bits;
        if word >= N {
            assert(index >= L::width() * N) by (nonlinear_arith)
                requires
                    index as int / L::width() >= N,
                    0 < L::width(),
            ;
            return false;
        }
        let low: usize = index % bits;
        proof {
            vstd::arithmetic::div_mod::lemma_fundamental_div_mod(index as int, L::width());
            lemma_place_in_row(word as int, low as int, L::width(), N as int);
            assert(L::width() * word == word * L::width()) by (nonlinear_arith);
            assert(L::place(low) == Some(low as int));
        }
        L::has(mask[word], low)
    }
}

} // verus!

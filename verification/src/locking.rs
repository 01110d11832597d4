//! What locks do to their words and rows of words, and what a locked value lets through.

use crate::bits::{lemma_part_of, lemma_set_bit, word_bit};
use crate::lock::{gives, lemma_narrow, takes, word_marks, IndexError, Lock, Row, Selection};
use crate::multex::{
    selectable, stops, At1, At2, AtN, DynamicAt, Guard, Key, Multex, StaticAt,
};
use vstd::prelude::*;

verus! {

/// Words with the same bits are the same.
proof fn lemma_same_word(left: u64, right: u64)
    requires
        forall|index: int| 0 <= index < 64 ==> #[trigger] word_bit(left, index) == word_bit(
            right,
            index,
        ),
    ensures
        left == right,
{
    lemma_part_of(left, right);
    lemma_part_of(right, left);
    assert(left & right == right & left) by (bit_vector);
}

/// The bits that a word has once another has been joined to it, or taken out of it.
proof fn lemma_word_after(
    limit: u64,
    width: int,
    before: u64,
    mask: u64,
    joined: u64,
    parted: u64,
    rest: u64,
)
    requires
        limit == 0xff && width == 8 || limit == 0xffff && width == 16 || limit == 0xffff_ffff && width
            == 32 || limit == 0xffff_ffff_ffff_ffff && width == 64,
        before <= limit,
        mask <= limit,
        joined <= limit,
        parted <= limit,
        rest <= limit,
    ensures
        (forall|index: int| #[trigger]
            word_marks(joined, width, index) == (word_marks(before, width, index) || word_marks(
                mask,
                width,
                index,
            ))) ==> joined == before | mask,
        (forall|index: int| #[trigger]
            word_marks(parted, width, index) == (word_marks(before, width, index) && !word_marks(
                mask,
                width,
                index,
            ))) ==> parted == before & !mask,
        (forall|index: int| #[trigger]
            word_marks(rest, width, index) == word_marks(before, width, index)) ==> rest == before,
        (exists|index: int| #[trigger] word_marks(mask, width, index)) == (mask != 0),
        (exists|index: int| #[trigger]
            word_marks(mask, width, index) && word_marks(before, width, index)) == (before & mask
            != 0),
        (forall|index: int| #[trigger]
            word_marks(mask, width, index) ==> word_marks(before, width, index)) == (before & mask
            == mask),
{
    lemma_narrow(limit, width, before, mask);
    lemma_narrow(limit, width, mask, before);
    lemma_narrow(limit, width, joined, parted);
    lemma_narrow(limit, width, rest, before | mask);
    lemma_narrow(limit, width, rest, before & !mask);
    assert forall|index: int| 0 <= index < width implies #[trigger] word_bit(0, index)
        == false by {
        assert(!word_marks(0, width, index));
    }
    if forall|index: int| #[trigger]
        word_marks(joined, width, index) == (word_marks(before, width, index) || word_marks(
            mask,
            width,
            index,
        )) {
        assert forall|index: int| 0 <= index < 64 implies #[trigger] word_bit(joined, index)
            == word_bit(before | mask, index) by {
            if index < width {
                assert(word_marks(joined, width, index) == word_marks(before | mask, width, index));
            }
        }
        lemma_same_word(joined, before | mask);
    }
    if forall|index: int| #[trigger]
        word_marks(parted, width, index) == (word_marks(before, width, index) && !word_marks(
            mask,
            width,
            index,
        )) {
        assert forall|index: int| 0 <= index < 64 implies #[trigger] word_bit(parted, index)
            == word_bit(before & !mask, index) by {
            if index < width {
                assert(word_marks(parted, width, index) == word_marks(
                    before & !mask,
                    width,
                    index,
                ));
            }
        }
        lemma_same_word(parted, before & !mask);
    }
    if forall|index: int| #[trigger]
        word_marks(rest, width, index) == word_marks(before, width, index) {
        assert forall|index: int| 0 <= index < 64 implies #[trigger] word_bit(rest, index)
            == word_bit(before, index) by {
            if index < width {
                assert(word_marks(rest, width, index) == word_marks(before, width, index));
            }
        }
        lemma_same_word(rest, before);
    }
}

/// The word to which one bit was added.
proof fn lemma_word_with(limit: u64, width: int, before: u64, joined: u64, place: int)
    requires
        limit == 0xff && width == 8 || limit == 0xffff && width == 16 || limit == 0xffff_ffff && width
            == 32 || limit == 0xffff_ffff_ffff_ffff && width == 64,
        before <= limit,
        joined <= limit,
        0 <= place < width,
        forall|other: int| #[trigger]
            word_marks(joined, width, other) == (word_marks(before, width, other) || other == place),
    ensures
        joined == before | (1u64 << (place as u64)),
{
    lemma_narrow(limit, width, before, joined);
    let after = before | (1u64 << (place as u64));
    assert forall|index: int| 0 <= index < 64 implies #[trigger] word_bit(joined, index)
        == word_bit(after, index) by {
        lemma_set_bit(before, place as u64, index as u64);
        assert((place as u64 == index as u64) == (place == index));
        assert(word_bit(after, index) == (place == index || word_bit(before, index)));
        if index < width {
            assert(word_marks(joined, width, index) == (word_marks(before, width, index) || index
                == place));
        } else {
            assert(!word_bit(before, index));
            assert(!word_bit(joined, index));
        }
    }
    lemma_same_word(joined, after);
}

/// A lock that is a `u8` takes all the bits that are asked for, or none where one of them is taken.
/// Where a part is enough, it takes those that are free.
pub proof fn u8_locks_take_their_bits(
    state: &mut u8,
    mask: u8,
    partial: bool,
    taken: Option<u8>,
)
    requires
        call_ensures(<u8 as Lock>::lock, (state, mask, partial), taken),
    ensures
        taken is Some == (partial || *old(state) as u64 & mask as u64 == 0),
        match taken {
            Some(taken) => {
                &&& taken as u64 == mask as u64 & !(*old(state) as u64)
                &&& *final(state) as u64 == *old(state) as u64 | mask as u64
            },
            None => *final(state) == *old(state),
        },
{
    let before = *old(state);
    let after = *final(state);
    let part = match taken {
        Some(taken) => taken,
        None => mask,
    };
    assert forall|index: int| #[trigger] word_marks(mask as u64, 8, index)
        == <u8 as Selection>::marks(mask, index) by {}
    assert forall|index: int| #[trigger] word_marks(after as u64, 8, index)
        == <u8 as Selection>::held(after, index) by {}
    assert forall|index: int| #[trigger] word_marks(part as u64, 8, index)
        == <u8 as Selection>::marks(part, index) by {}
    lemma_word_after(
        u8::MAX as u64,
        8,
        before as u64,
        mask as u64,
        after as u64,
        after as u64,
        after as u64,
    );
    lemma_word_after(
        u8::MAX as u64,
        8,
        mask as u64,
        before as u64,
        part as u64,
        part as u64,
        part as u64,
    );
}

/// A lock that is a `u8` gives back the bits that it is told to, and wakes where there are any. It
/// counts as locked in part where one of the bits is taken, and as a whole where all of them are.
pub proof fn u8_locks_give_their_bits_back(
    state: &mut u8,
    mask: u8,
    wake: bool,
    woken: bool,
    partial: bool,
    locked: bool,
)
    requires
        call_ensures(<u8 as Lock>::unlock, (state, mask, wake), woken),
        call_ensures(<u8 as Lock>::is_locked, (&*old(state), mask, partial), locked),
    ensures
        *final(state) as u64 == *old(state) as u64 & !(mask as u64),
        woken == (wake && mask != 0),
        locked == (mask != 0 && if partial {
            *old(state) as u64 & mask as u64 != 0
        } else {
            *old(state) as u64 & mask as u64 == mask as u64
        }),
{
    let before = *old(state);
    let after = *final(state);
    assert forall|index: int| #[trigger] word_marks(mask as u64, 8, index)
        == <u8 as Selection>::marks(mask, index) by {}
    assert forall|index: int| #[trigger] word_marks(after as u64, 8, index)
        == <u8 as Selection>::held(after, index) by {}
    lemma_word_after(
        u8::MAX as u64,
        8,
        before as u64,
        mask as u64,
        after as u64,
        after as u64,
        after as u64,
    );
    if before as u64 & mask as u64 != 0 {
        let index = choose|index: int| #[trigger]
            word_marks(mask as u64, 8, index) && word_marks(before as u64, 8, index);
        assert(<u8 as Selection>::marks(mask, index));
    }
    if mask != 0 {
        let index = choose|index: int| #[trigger] word_marks(mask as u64, 8, index);
        assert(<u8 as Selection>::marks(mask, index));
    }
}

/// A resource is added to a selection that is a `u8` by its bit, which is told by the low half of its
/// index, unless there is no such bit or it is set already.
pub proof fn u8_selections_gather_bits(
    mask: u8,
    index: usize,
    joined: Result<u8, IndexError>,
    has: bool,
)
    requires
        call_ensures(<u8 as Lock>::add, (mask, index), joined),
        call_ensures(<u8 as Lock>::has, (mask, index), has),
    ensures
        ({
            let place = index as int % 0x1_0000_0000;
            let set = mask as u64 & (1u64 << (place as u64)) != 0;
            &&& has == (place < 8 && set)
            &&& place >= 8 ==> joined == Err::<u8, IndexError>(
                IndexError::OutOfBounds(index),
            )
            &&& place < 8 && set ==> joined == Err::<u8, IndexError>(
                IndexError::Duplicate(index),
            )
            &&& place < 8 && !set ==> (joined matches Ok(joined) && joined as u64 == mask as u64
                | (1u64 << (place as u64)))
        }),
{
    let place = index as int % 0x1_0000_0000;
    assert(word_bit(mask as u64, place) == (mask as u64 & (1u64 << (place as u64)) != 0));
    assert(word_marks(mask as u64, 8, place) == <u8 as Selection>::marks(mask, place));
    if let Ok(after) = joined {
        assert forall|other: int| #[trigger] word_marks(after as u64, 8, other) == (word_marks(
            mask as u64,
            8,
            other,
        ) || other == place) by {
            assert(<u8 as Selection>::marks(after, other) == (<u8 as Selection>::marks(
                mask,
                other,
            ) || other == place));
        }
        lemma_word_with(u8::MAX as u64, 8, mask as u64, after as u64, place);
    }
}

/// A lock that is a `u8` has a resource for each bit, of which none is taken at first.
pub proof fn u8_locks_have_a_bit_for_each_resource(
    zero: u8,
    max: u8,
    bits: usize,
    free: u8,
)
    requires
        call_ensures(<u8 as Lock>::zero, (), zero),
        call_ensures(<u8 as Lock>::max, (), max),
        call_ensures(<u8 as Lock>::bits, (), bits),
        call_ensures(<u8 as Lock>::free, (), free),
    ensures
        zero == 0,
        max == u8::MAX,
        bits == u8::BITS,
        free == 0,
{
    assert forall|index: int| #[trigger] word_marks(zero as u64, 8, index)
        == <u8 as Selection>::marks(zero, index) by {}
    assert forall|index: int| #[trigger] word_marks(free as u64, 8, index)
        == <u8 as Selection>::held(free, index) by {}
    lemma_word_after(u8::MAX as u64, 8, 0, zero as u64, 0, 0, 0);
    lemma_word_after(u8::MAX as u64, 8, 0, free as u64, 0, 0, 0);
}

/// A lock that is a `u16` takes all the bits that are asked for, or none where one of them is taken.
/// Where a part is enough, it takes those that are free.
pub proof fn u16_locks_take_their_bits(
    state: &mut u16,
    mask: u16,
    partial: bool,
    taken: Option<u16>,
)
    requires
        call_ensures(<u16 as Lock>::lock, (state, mask, partial), taken),
    ensures
        taken is Some == (partial || *old(state) as u64 & mask as u64 == 0),
        match taken {
            Some(taken) => {
                &&& taken as u64 == mask as u64 & !(*old(state) as u64)
                &&& *final(state) as u64 == *old(state) as u64 | mask as u64
            },
            None => *final(state) == *old(state),
        },
{
    let before = *old(state);
    let after = *final(state);
    let part = match taken {
        Some(taken) => taken,
        None => mask,
    };
    assert forall|index: int| #[trigger] word_marks(mask as u64, 16, index)
        == <u16 as Selection>::marks(mask, index) by {}
    assert forall|index: int| #[trigger] word_marks(after as u64, 16, index)
        == <u16 as Selection>::held(after, index) by {}
    assert forall|index: int| #[trigger] word_marks(part as u64, 16, index)
        == <u16 as Selection>::marks(part, index) by {}
    lemma_word_after(
        u16::MAX as u64,
        16,
        before as u64,
        mask as u64,
        after as u64,
        after as u64,
        after as u64,
    );
    lemma_word_after(
        u16::MAX as u64,
        16,
        mask as u64,
        before as u64,
        part as u64,
        part as u64,
        part as u64,
    );
}

/// A lock that is a `u16` gives back the bits that it is told to, and wakes where there are any. It
/// counts as locked in part where one of the bits is taken, and as a whole where all of them are.
pub proof fn u16_locks_give_their_bits_back(
    state: &mut u16,
    mask: u16,
    wake: bool,
    woken: bool,
    partial: bool,
    locked: bool,
)
    requires
        call_ensures(<u16 as Lock>::unlock, (state, mask, wake), woken),
        call_ensures(<u16 as Lock>::is_locked, (&*old(state), mask, partial), locked),
    ensures
        *final(state) as u64 == *old(state) as u64 & !(mask as u64),
        woken == (wake && mask != 0),
        locked == (mask != 0 && if partial {
            *old(state) as u64 & mask as u64 != 0
        } else {
            *old(state) as u64 & mask as u64 == mask as u64
        }),
{
    let before = *old(state);
    let after = *final(state);
    assert forall|index: int| #[trigger] word_marks(mask as u64, 16, index)
        == <u16 as Selection>::marks(mask, index) by {}
    assert forall|index: int| #[trigger] word_marks(after as u64, 16, index)
        == <u16 as Selection>::held(after, index) by {}
    lemma_word_after(
        u16::MAX as u64,
        16,
        before as u64,
        mask as u64,
        after as u64,
        after as u64,
        after as u64,
    );
    if before as u64 & mask as u64 != 0 {
        let index = choose|index: int| #[trigger]
            word_marks(mask as u64, 16, index) && word_marks(before as u64, 16, index);
        assert(<u16 as Selection>::marks(mask, index));
    }
    if mask != 0 {
        let index = choose|index: int| #[trigger] word_marks(mask as u64, 16, index);
        assert(<u16 as Selection>::marks(mask, index));
    }
}

/// A resource is added to a selection that is a `u16` by its bit, which is told by the low half of its
/// index, unless there is no such bit or it is set already.
pub proof fn u16_selections_gather_bits(
    mask: u16,
    index: usize,
    joined: Result<u16, IndexError>,
    has: bool,
)
    requires
        call_ensures(<u16 as Lock>::add, (mask, index), joined),
        call_ensures(<u16 as Lock>::has, (mask, index), has),
    ensures
        ({
            let place = index as int % 0x1_0000_0000;
            let set = mask as u64 & (1u64 << (place as u64)) != 0;
            &&& has == (place < 16 && set)
            &&& place >= 16 ==> joined == Err::<u16, IndexError>(
                IndexError::OutOfBounds(index),
            )
            &&& place < 16 && set ==> joined == Err::<u16, IndexError>(
                IndexError::Duplicate(index),
            )
            &&& place < 16 && !set ==> (joined matches Ok(joined) && joined as u64 == mask as u64
                | (1u64 << (place as u64)))
        }),
{
    let place = index as int % 0x1_0000_0000;
    assert(word_bit(mask as u64, place) == (mask as u64 & (1u64 << (place as u64)) != 0));
    assert(word_marks(mask as u64, 16, place) == <u16 as Selection>::marks(mask, place));
    if let Ok(after) = joined {
        assert forall|other: int| #[trigger] word_marks(after as u64, 16, other) == (word_marks(
            mask as u64,
            16,
            other,
        ) || other == place) by {
            assert(<u16 as Selection>::marks(after, other) == (<u16 as Selection>::marks(
                mask,
                other,
            ) || other == place));
        }
        lemma_word_with(u16::MAX as u64, 16, mask as u64, after as u64, place);
    }
}

/// A lock that is a `u16` has a resource for each bit, of which none is taken at first.
pub proof fn u16_locks_have_a_bit_for_each_resource(
    zero: u16,
    max: u16,
    bits: usize,
    free: u16,
)
    requires
        call_ensures(<u16 as Lock>::zero, (), zero),
        call_ensures(<u16 as Lock>::max, (), max),
        call_ensures(<u16 as Lock>::bits, (), bits),
        call_ensures(<u16 as Lock>::free, (), free),
    ensures
        zero == 0,
        max == u16::MAX,
        bits == u16::BITS,
        free == 0,
{
    assert forall|index: int| #[trigger] word_marks(zero as u64, 16, index)
        == <u16 as Selection>::marks(zero, index) by {}
    assert forall|index: int| #[trigger] word_marks(free as u64, 16, index)
        == <u16 as Selection>::held(free, index) by {}
    lemma_word_after(u16::MAX as u64, 16, 0, zero as u64, 0, 0, 0);
    lemma_word_after(u16::MAX as u64, 16, 0, free as u64, 0, 0, 0);
}

/// A lock that is a `u32` takes all the bits that are asked for, or none where one of them is taken.
/// Where a part is enough, it takes those that are free.
pub proof fn u32_locks_take_their_bits(
    state: &mut u32,
    mask: u32,
    partial: bool,
    taken: Option<u32>,
)
    requires
        call_ensures(<u32 as Lock>::lock, (state, mask, partial), taken),
    ensures
        taken is Some == (partial || *old(state) as u64 & mask as u64 == 0),
        match taken {
            Some(taken) => {
                &&& taken as u64 == mask as u64 & !(*old(state) as u64)
                &&& *final(state) as u64 == *old(state) as u64 | mask as u64
            },
            None => *final(state) == *old(state),
        },
{
    let before = *old(state);
    let after = *final(state);
    let part = match taken {
        Some(taken) => taken,
        None => mask,
    };
    assert forall|index: int| #[trigger] word_marks(mask as u64, 32, index)
        == <u32 as Selection>::marks(mask, index) by {}
    assert forall|index: int| #[trigger] word_marks(after as u64, 32, index)
        == <u32 as Selection>::held(after, index) by {}
    assert forall|index: int| #[trigger] word_marks(part as u64, 32, index)
        == <u32 as Selection>::marks(part, index) by {}
    lemma_word_after(
        u32::MAX as u64,
        32,
        before as u64,
        mask as u64,
        after as u64,
        after as u64,
        after as u64,
    );
    lemma_word_after(
        u32::MAX as u64,
        32,
        mask as u64,
        before as u64,
        part as u64,
        part as u64,
        part as u64,
    );
}

/// A lock that is a `u32` gives back the bits that it is told to, and wakes where there are any. It
/// counts as locked in part where one of the bits is taken, and as a whole where all of them are.
pub proof fn u32_locks_give_their_bits_back(
    state: &mut u32,
    mask: u32,
    wake: bool,
    woken: bool,
    partial: bool,
    locked: bool,
)
    requires
        call_ensures(<u32 as Lock>::unlock, (state, mask, wake), woken),
        call_ensures(<u32 as Lock>::is_locked, (&*old(state), mask, partial), locked),
    ensures
        *final(state) as u64 == *old(state) as u64 & !(mask as u64),
        woken == (wake && mask != 0),
        locked == (mask != 0 && if partial {
            *old(state) as u64 & mask as u64 != 0
        } else {
            *old(state) as u64 & mask as u64 == mask as u64
        }),
{
    let before = *old(state);
    let after = *final(state);
    assert forall|index: int| #[trigger] word_marks(mask as u64, 32, index)
        == <u32 as Selection>::marks(mask, index) by {}
    assert forall|index: int| #[trigger] word_marks(after as u64, 32, index)
        == <u32 as Selection>::held(after, index) by {}
    lemma_word_after(
        u32::MAX as u64,
        32,
        before as u64,
        mask as u64,
        after as u64,
        after as u64,
        after as u64,
    );
    if before as u64 & mask as u64 != 0 {
        let index = choose|index: int| #[trigger]
            word_marks(mask as u64, 32, index) && word_marks(before as u64, 32, index);
        assert(<u32 as Selection>::marks(mask, index));
    }
    if mask != 0 {
        let index = choose|index: int| #[trigger] word_marks(mask as u64, 32, index);
        assert(<u32 as Selection>::marks(mask, index));
    }
}

/// A resource is added to a selection that is a `u32` by its bit, which is told by the low half of its
/// index, unless there is no such bit or it is set already.
pub proof fn u32_selections_gather_bits(
    mask: u32,
    index: usize,
    joined: Result<u32, IndexError>,
    has: bool,
)
    requires
        call_ensures(<u32 as Lock>::add, (mask, index), joined),
        call_ensures(<u32 as Lock>::has, (mask, index), has),
    ensures
        ({
            let place = index as int % 0x1_0000_0000;
            let set = mask as u64 & (1u64 << (place as u64)) != 0;
            &&& has == (place < 32 && set)
            &&& place >= 32 ==> joined == Err::<u32, IndexError>(
                IndexError::OutOfBounds(index),
            )
            &&& place < 32 && set ==> joined == Err::<u32, IndexError>(
                IndexError::Duplicate(index),
            )
            &&& place < 32 && !set ==> (joined matches Ok(joined) && joined as u64 == mask as u64
                | (1u64 << (place as u64)))
        }),
{
    let place = index as int % 0x1_0000_0000;
    assert(word_bit(mask as u64, place) == (mask as u64 & (1u64 << (place as u64)) != 0));
    assert(word_marks(mask as u64, 32, place) == <u32 as Selection>::marks(mask, place));
    if let Ok(after) = joined {
        assert forall|other: int| #[trigger] word_marks(after as u64, 32, other) == (word_marks(
            mask as u64,
            32,
            other,
        ) || other == place) by {
            assert(<u32 as Selection>::marks(after, other) == (<u32 as Selection>::marks(
                mask,
                other,
            ) || other == place));
        }
        lemma_word_with(u32::MAX as u64, 32, mask as u64, after as u64, place);
    }
}

/// A lock that is a `u32` has a resource for each bit, of which none is taken at first.
pub proof fn u32_locks_have_a_bit_for_each_resource(
    zero: u32,
    max: u32,
    bits: usize,
    free: u32,
)
    requires
        call_ensures(<u32 as Lock>::zero, (), zero),
        call_ensures(<u32 as Lock>::max, (), max),
        call_ensures(<u32 as Lock>::bits, (), bits),
        call_ensures(<u32 as Lock>::free, (), free),
    ensures
        zero == 0,
        max == u32::MAX,
        bits == u32::BITS,
        free == 0,
{
    assert forall|index: int| #[trigger] word_marks(zero as u64, 32, index)
        == <u32 as Selection>::marks(zero, index) by {}
    assert forall|index: int| #[trigger] word_marks(free as u64, 32, index)
        == <u32 as Selection>::held(free, index) by {}
    lemma_word_after(u32::MAX as u64, 32, 0, zero as u64, 0, 0, 0);
    lemma_word_after(u32::MAX as u64, 32, 0, free as u64, 0, 0, 0);
}

/// A lock that is a `u64` takes all the bits that are asked for, or none where one of them is taken.
/// Where a part is enough, it takes those that are free.
pub proof fn u64_locks_take_their_bits(
    state: &mut u64,
    mask: u64,
    partial: bool,
    taken: Option<u64>,
)
    requires
        call_ensures(<u64 as Lock>::lock, (state, mask, partial), taken),
    ensures
        taken is Some == (partial || *old(state) as u64 & mask as u64 == 0),
        match taken {
            Some(taken) => {
                &&& taken as u64 == mask as u64 & !(*old(state) as u64)
                &&& *final(state) as u64 == *old(state) as u64 | mask as u64
            },
            None => *final(state) == *old(state),
        },
{
    let before = *old(state);
    let after = *final(state);
    let part = match taken {
        Some(taken) => taken,
        None => mask,
    };
    assert forall|index: int| #[trigger] word_marks(mask as u64, 64, index)
        == <u64 as Selection>::marks(mask, index) by {}
    assert forall|index: int| #[trigger] word_marks(after as u64, 64, index)
        == <u64 as Selection>::held(after, index) by {}
    assert forall|index: int| #[trigger] word_marks(part as u64, 64, index)
        == <u64 as Selection>::marks(part, index) by {}
    lemma_word_after(
        u64::MAX as u64,
        64,
        before as u64,
        mask as u64,
        after as u64,
        after as u64,
        after as u64,
    );
    lemma_word_after(
        u64::MAX as u64,
        64,
        mask as u64,
        before as u64,
        part as u64,
        part as u64,
        part as u64,
    );
}

/// A lock that is a `u64` gives back the bits that it is told to, and wakes where there are any. It
/// counts as locked in part where one of the bits is taken, and as a whole where all of them are.
pub proof fn u64_locks_give_their_bits_back(
    state: &mut u64,
    mask: u64,
    wake: bool,
    woken: bool,
    partial: bool,
    locked: bool,
)
    requires
        call_ensures(<u64 as Lock>::unlock, (state, mask, wake), woken),
        call_ensures(<u64 as Lock>::is_locked, (&*old(state), mask, partial), locked),
    ensures
        *final(state) as u64 == *old(state) as u64 & !(mask as u64),
        woken == (wake && mask != 0),
        locked == (mask != 0 && if partial {
            *old(state) as u64 & mask as u64 != 0
        } else {
            *old(state) as u64 & mask as u64 == mask as u64
        }),
{
    let before = *old(state);
    let after = *final(state);
    assert forall|index: int| #[trigger] word_marks(mask as u64, 64, index)
        == <u64 as Selection>::marks(mask, index) by {}
    assert forall|index: int| #[trigger] word_marks(after as u64, 64, index)
        == <u64 as Selection>::held(after, index) by {}
    lemma_word_after(
        u64::MAX as u64,
        64,
        before as u64,
        mask as u64,
        after as u64,
        after as u64,
        after as u64,
    );
    if before as u64 & mask as u64 != 0 {
        let index = choose|index: int| #[trigger]
            word_marks(mask as u64, 64, index) && word_marks(before as u64, 64, index);
        assert(<u64 as Selection>::marks(mask, index));
    }
    if mask != 0 {
        let index = choose|index: int| #[trigger] word_marks(mask as u64, 64, index);
        assert(<u64 as Selection>::marks(mask, index));
    }
}

/// A resource is added to a selection that is a `u64` by its bit, which is told by the low half of its
/// index, unless there is no such bit or it is set already.
pub proof fn u64_selections_gather_bits(
    mask: u64,
    index: usize,
    joined: Result<u64, IndexError>,
    has: bool,
)
    requires
        call_ensures(<u64 as Lock>::add, (mask, index), joined),
        call_ensures(<u64 as Lock>::has, (mask, index), has),
    ensures
        ({
            let place = index as int % 0x1_0000_0000;
            let set = mask as u64 & (1u64 << (place as u64)) != 0;
            &&& has == (place < 64 && set)
            &&& place >= 64 ==> joined == Err::<u64, IndexError>(
                IndexError::OutOfBounds(index),
            )
            &&& place < 64 && set ==> joined == Err::<u64, IndexError>(
                IndexError::Duplicate(index),
            )
            &&& place < 64 && !set ==> (joined matches Ok(joined) && joined as u64 == mask as u64
                | (1u64 << (place as u64)))
        }),
{
    let place = index as int % 0x1_0000_0000;
    assert(word_bit(mask as u64, place) == (mask as u64 & (1u64 << (place as u64)) != 0));
    assert(word_marks(mask as u64, 64, place) == <u64 as Selection>::marks(mask, place));
    if let Ok(after) = joined {
        assert forall|other: int| #[trigger] word_marks(after as u64, 64, other) == (word_marks(
            mask as u64,
            64,
            other,
        ) || other == place) by {
            assert(<u64 as Selection>::marks(after, other) == (<u64 as Selection>::marks(
                mask,
                other,
            ) || other == place));
        }
        lemma_word_with(u64::MAX as u64, 64, mask as u64, after as u64, place);
    }
}

/// A lock that is a `u64` has a resource for each bit, of which none is taken at first.
pub proof fn u64_locks_have_a_bit_for_each_resource(
    zero: u64,
    max: u64,
    bits: usize,
    free: u64,
)
    requires
        call_ensures(<u64 as Lock>::zero, (), zero),
        call_ensures(<u64 as Lock>::max, (), max),
        call_ensures(<u64 as Lock>::bits, (), bits),
        call_ensures(<u64 as Lock>::free, (), free),
    ensures
        zero == 0,
        max == u64::MAX,
        bits == u64::BITS,
        free == 0,
{
    assert forall|index: int| #[trigger] word_marks(zero as u64, 64, index)
        == <u64 as Selection>::marks(zero, index) by {}
    assert forall|index: int| #[trigger] word_marks(free as u64, 64, index)
        == <u64 as Selection>::held(free, index) by {}
    lemma_word_after(u64::MAX as u64, 64, 0, zero as u64, 0, 0, 0);
    lemma_word_after(u64::MAX as u64, 64, 0, free as u64, 0, 0, 0);
}

/// A lock that is a `usize` takes all the bits that are asked for, or none where one of them is taken.
/// Where a part is enough, it takes those that are free.
pub proof fn usize_locks_take_their_bits(
    state: &mut usize,
    mask: usize,
    partial: bool,
    taken: Option<usize>,
)
    requires
        call_ensures(<usize as Lock>::lock, (state, mask, partial), taken),
    ensures
        taken is Some == (partial || *old(state) as u64 & mask as u64 == 0),
        match taken {
            Some(taken) => {
                &&& taken as u64 == mask as u64 & !(*old(state) as u64)
                &&& *final(state) as u64 == *old(state) as u64 | mask as u64
            },
            None => *final(state) == *old(state),
        },
{
    let before = *old(state);
    let after = *final(state);
    let part = match taken {
        Some(taken) => taken,
        None => mask,
    };
    assert forall|index: int| #[trigger] word_marks(mask as u64, usize::BITS as int, index)
        == <usize as Selection>::marks(mask, index) by {}
    assert forall|index: int| #[trigger] word_marks(after as u64, usize::BITS as int, index)
        == <usize as Selection>::held(after, index) by {}
    assert forall|index: int| #[trigger] word_marks(part as u64, usize::BITS as int, index)
        == <usize as Selection>::marks(part, index) by {}
    lemma_word_after(
        usize::MAX as u64,
        usize::BITS as int,
        before as u64,
        mask as u64,
        after as u64,
        after as u64,
        after as u64,
    );
    lemma_word_after(
        usize::MAX as u64,
        usize::BITS as int,
        mask as u64,
        before as u64,
        part as u64,
        part as u64,
        part as u64,
    );
}

/// A lock that is a `usize` gives back the bits that it is told to, and wakes where there are any. It
/// counts as locked in part where one of the bits is taken, and as a whole where all of them are.
pub proof fn usize_locks_give_their_bits_back(
    state: &mut usize,
    mask: usize,
    wake: bool,
    woken: bool,
    partial: bool,
    locked: bool,
)
    requires
        call_ensures(<usize as Lock>::unlock, (state, mask, wake), woken),
        call_ensures(<usize as Lock>::is_locked, (&*old(state), mask, partial), locked),
    ensures
        *final(state) as u64 == *old(state) as u64 & !(mask as u64),
        woken == (wake && mask != 0),
        locked == (mask != 0 && if partial {
            *old(state) as u64 & mask as u64 != 0
        } else {
            *old(state) as u64 & mask as u64 == mask as u64
        }),
{
    let before = *old(state);
    let after = *final(state);
    assert forall|index: int| #[trigger] word_marks(mask as u64, usize::BITS as int, index)
        == <usize as Selection>::marks(mask, index) by {}
    assert forall|index: int| #[trigger] word_marks(after as u64, usize::BITS as int, index)
        == <usize as Selection>::held(after, index) by {}
    lemma_word_after(
        usize::MAX as u64,
        usize::BITS as int,
        before as u64,
        mask as u64,
        after as u64,
        after as u64,
        after as u64,
    );
    if before as u64 & mask as u64 != 0 {
        let index = choose|index: int| #[trigger]
            word_marks(mask as u64, usize::BITS as int, index) && word_marks(before as u64, usize::BITS as int, index);
        assert(<usize as Selection>::marks(mask, index));
    }
    if mask != 0 {
        let index = choose|index: int| #[trigger] word_marks(mask as u64, usize::BITS as int, index);
        assert(<usize as Selection>::marks(mask, index));
    }
}

/// A resource is added to a selection that is a `usize` by its bit, which is told by the low half of its
/// index, unless there is no such bit or it is set already.
pub proof fn usize_selections_gather_bits(
    mask: usize,
    index: usize,
    joined: Result<usize, IndexError>,
    has: bool,
)
    requires
        call_ensures(<usize as Lock>::add, (mask, index), joined),
        call_ensures(<usize as Lock>::has, (mask, index), has),
    ensures
        ({
            let place = index as int % 0x1_0000_0000;
            let set = mask as u64 & (1u64 << (place as u64)) != 0;
            &&& has == (place < usize::BITS as int && set)
            &&& place >= usize::BITS as int ==> joined == Err::<usize, IndexError>(
                IndexError::OutOfBounds(index),
            )
            &&& place < usize::BITS as int && set ==> joined == Err::<usize, IndexError>(
                IndexError::Duplicate(index),
            )
            &&& place < usize::BITS as int && !set ==> (joined matches Ok(joined) && joined as u64 == mask as u64
                | (1u64 << (place as u64)))
        }),
{
    let place = index as int % 0x1_0000_0000;
    assert(word_bit(mask as u64, place) == (mask as u64 & (1u64 << (place as u64)) != 0));
    assert(word_marks(mask as u64, usize::BITS as int, place) == <usize as Selection>::marks(mask, place));
    if let Ok(after) = joined {
        assert forall|other: int| #[trigger] word_marks(after as u64, usize::BITS as int, other) == (word_marks(
            mask as u64,
            usize::BITS as int,
            other,
        ) || other == place) by {
            assert(<usize as Selection>::marks(after, other) == (<usize as Selection>::marks(
                mask,
                other,
            ) || other == place));
        }
        lemma_word_with(usize::MAX as u64, usize::BITS as int, mask as u64, after as u64, place);
    }
}

/// A lock that is a `usize` has a resource for each bit, of which none is taken at first.
pub proof fn usize_locks_have_a_bit_for_each_resource(
    zero: usize,
    max: usize,
    bits: usize,
    free: usize,
)
    requires
        call_ensures(<usize as Lock>::zero, (), zero),
        call_ensures(<usize as Lock>::max, (), max),
        call_ensures(<usize as Lock>::bits, (), bits),
        call_ensures(<usize as Lock>::free, (), free),
    ensures
        zero == 0,
        max == usize::MAX,
        bits == usize::BITS,
        free == 0,
{
    assert forall|index: int| #[trigger] word_marks(zero as u64, usize::BITS as int, index)
        == <usize as Selection>::marks(zero, index) by {}
    assert forall|index: int| #[trigger] word_marks(free as u64, usize::BITS as int, index)
        == <usize as Selection>::held(free, index) by {}
    lemma_word_after(usize::MAX as u64, usize::BITS as int, 0, zero as u64, 0, 0, 0);
    lemma_word_after(usize::MAX as u64, usize::BITS as int, 0, free as u64, 0, 0, 0);
}

/// A row of locks has the resources of each lock, one lock after the other: an index stands for the
/// resource of the lock that it reaches, and adding it changes nothing else.
pub proof fn rows_add_to_one_of_their_locks<L: Lock, const N: usize>(
    mask: [L; N],
    index: usize,
    inner: usize,
    bits: usize,
    joined: Result<[L; N], IndexError>,
    word: int,
    bit: int,
)
    requires
        <[L; N] as Selection>::fits(),
        call_ensures(L::bits, (), inner),
        call_ensures(<[L; N] as Lock>::bits, (), bits),
        call_ensures(<[L; N] as Lock>::add, (mask, index), joined),
        0 <= word < N,
        0 <= bit < inner,
    ensures
        bits == inner * N,
        index >= bits ==> joined == Err::<[L; N], IndexError>(IndexError::OutOfBounds(index)),
        index < bits ==> (joined is Err) == L::marks(
            mask[index as int / inner as int],
            index as int % inner as int,
        ),
        joined matches Ok(joined) ==> L::marks(joined[word], bit) == (L::marks(mask[word], bit)
            || word == index as int / inner as int && bit == index as int % inner as int),
{
    let width = inner as int;
    let at = word * width + bit;
    lemma_place(word, bit, width, N as int);
    if let Ok(after) = joined {
        assert(<[L; N] as Selection>::marks(after, at) == (<[L; N] as Selection>::marks(mask, at)
            || at == index));
        if word == index as int / width && bit == index as int % width {
            vstd::arithmetic::div_mod::lemma_fundamental_div_mod(index as int, width);
            assert(at == index) by (nonlinear_arith)
                requires
                    at == word * width + bit,
                    index as int == width * (index as int / width) + index as int % width,
                    word == index as int / width,
                    bit == index as int % width,
            ;
        }
    }
}

proof fn lemma_place(word: int, bit: int, width: int, count: int)
    requires
        0 <= word < count,
        0 <= bit < width,
    ensures
        0 <= word * width + bit < width * count,
        (word * width + bit) / width == word,
        (word * width + bit) % width == bit,
{
    assert(0 <= word * width + bit < width * count) by (nonlinear_arith)
        requires
            0 <= word < count,
            0 <= bit < width,
    ;
    vstd::arithmetic::div_mod::lemma_fundamental_div_mod_converse(
        word * width + bit,
        width,
        word,
        bit,
    );
}

/// A row of locks is taken as one: where a part is not enough, all that is asked for is taken or
/// nothing. Each lock of the row has what it had and what was asked of it, and what was taken of it is
/// what was free. A try that fails counts as a turn.
pub proof fn rows_are_locked_as_one<L: Lock, const N: usize>(
    before: Row<L::State, N>,
    after: Row<L::State, N>,
    mask: [L; N],
    partial: bool,
    taken: Option<[L; N]>,
    word: int,
    bit: int,
)
    requires
        takes::<[L; N]>(before, after, mask, partial, taken),
        0 <= word < N,
        0 <= bit < L::width(),
    ensures
        match taken {
            Some(taken) => {
                &&& !partial ==> !(L::marks(mask[word], bit) && L::held(
                    before.words[word],
                    bit,
                ))
                &&& L::marks(taken[word], bit) == (L::marks(mask[word], bit) && !L::held(
                    before.words[word],
                    bit,
                ))
                &&& L::held(after.words[word], bit) == (L::held(
                    before.words[word],
                    bit,
                ) || L::marks(mask[word], bit))
                &&& after.turn == before.turn
            },
            None => {
                &&& !partial
                &&& exists|other: int, at: int|
                    0 <= other < N && 0 <= at < L::width() && #[trigger] L::marks(mask[other], at)
                        && L::held(before.words[other], at)
                &&& L::held(after.words[word], bit) == L::held(before.words[word], bit)
                &&& after.turn == if before.turn == u32::MAX {
                    0
                } else {
                    before.turn + 1
                }
            },
        },
{
    let width = L::width();
    let at = word * width + bit;
    lemma_place(word, bit, width, N as int);
    assert(<[L; N] as Selection>::held(after, at) == L::held(after.words[word], bit));
    assert(<[L; N] as Selection>::held(before, at) == L::held(before.words[word], bit));
    assert(<[L; N] as Selection>::marks(mask, at) == L::marks(mask[word], bit));
    match taken {
        Some(part) => {
            assert(<[L; N] as Selection>::marks(part, at) == L::marks(part[word], bit));
        },
        None => {
            let index = choose|index: int| #[trigger]
                <[L; N] as Selection>::marks(mask, index) && <[L; N] as Selection>::held(
                    before,
                    index,
                );
            let other = index / width;
            assert(0 <= index < width * N);
            assert(0 <= other < N && 0 <= index % width < width) by (nonlinear_arith)
                requires
                    0 <= index < width * N,
                    width > 0,
                    other == index / width,
            ;
            assert(L::marks(mask[other], index % width));
        },
    }
}

/// Each lock of a row gives back what it is told to, and waking counts as a turn.
pub proof fn rows_are_unlocked_lock_by_lock<L: Lock, const N: usize>(
    before: Row<L::State, N>,
    after: Row<L::State, N>,
    mask: [L; N],
    wake: bool,
    woken: bool,
    word: int,
    bit: int,
)
    requires
        gives::<[L; N]>(before, after, mask, wake, woken),
        0 <= word < N,
        0 <= bit < L::width(),
    ensures
        L::held(after.words[word], bit) == (L::held(before.words[word], bit) && !L::marks(
            mask[word],
            bit,
        )),
        woken == wake,
        after.turn == if !wake {
            before.turn as int
        } else if before.turn == u32::MAX {
            0
        } else {
            before.turn + 1
        },
{
    let width = L::width();
    let at = word * width + bit;
    lemma_place(word, bit, width, N as int);
    assert(<[L; N] as Selection>::held(after, at) == L::held(
        after.words[word],
        bit,
    ));
    assert(<[L; N] as Selection>::marks(mask, at) == L::marks(mask[word], bit));
}

/// A row of locks counts as locked where one of its locks does.
pub proof fn rows_are_locked_where_one_lock_is<L: Lock, const N: usize>(
    state: Row<L::State, N>,
    mask: [L; N],
    partial: bool,
    locked: bool,
    parts: Seq<bool>,
)
    requires
        locked == <[L; N] as Selection>::locked(state, mask, partial),
        parts.len() == N,
        forall|word: int|
            0 <= word < N ==> call_ensures(
                L::is_locked,
                (&state.words[word], mask[word], partial),
                #[trigger] parts[word],
            ),
    ensures
        locked == exists|word: int| 0 <= word < N && #[trigger] parts[word],
{
    assert forall|word: int| 0 <= word < N implies #[trigger] parts[word] == L::locked(
        state.words[word],
        mask[word],
        partial,
    ) by {}
    if locked {
        let word = choose|word: int|
            0 <= word < N && #[trigger] L::locked(state.words[word], mask[word], partial);
        assert(parts[word]);
    }
    if exists|word: int| 0 <= word < N && #[trigger] parts[word] {
        let word = choose|word: int| 0 <= word < N && #[trigger] parts[word];
        assert(L::locked(state.words[word], mask[word], partial));
    }
}

/// A value whose lock is a word is locked as a whole exactly where nothing of it is locked. It is left
/// alone otherwise. Once it is unlocked nothing of it is locked, and it counts as locked in part where
/// anything of it is, as a whole where all of it is.
pub proof fn whole_values_are_locked_by_one<T>(
    multex: &mut Multex<T, u64>,
    guard: Option<Guard<(), u64>>,
    partial: bool,
    locked: bool,
    opened: &mut Multex<T, u64>,
    woken: bool,
)
    requires
        call_ensures(Multex::<T, u64>::try_lock, (multex,), guard),
        call_ensures(Multex::<T, u64>::is_locked, (&*old(multex), partial), locked),
        call_ensures(Multex::<T, u64>::unlock, (opened,), woken),
    ensures
        guard is Some == (old(multex).state() == 0),
        match guard {
            Some(guard) => guard.held == u64::MAX && final(multex).state() == u64::MAX,
            None => final(multex).state() == old(multex).state(),
        },
        locked == if partial {
            old(multex).state() != 0
        } else {
            old(multex).state() == u64::MAX
        },
        final(opened).state() == 0,
        final(multex).value() == old(multex).value(),
        final(opened).value() == old(opened).value(),
        woken,
{
    let before = old(multex).state();
    let after = final(multex).state();
    let open = final(opened).state();
    lemma_held(before);
    lemma_held(after);
    lemma_held(open);
    lemma_narrow(u64::MAX, 64, before, u64::MAX);
    if let Some(guard) = guard {
        lemma_full(guard.held);
        assert forall|index: int| #[trigger] word_marks(guard.held, 64, index) == (0 <= index
            < 64) by {
            assert(<u64 as Selection>::marks(guard.held, index) == (0 <= index < 64));
        }
        assert forall|index: int| #[trigger] word_marks(after, 64, index) == (0 <= index < 64) by {
            assert(<u64 as Selection>::held(after, index) == (0 <= index < 64));
        }
        lemma_full(after);
    } else {
        lemma_word_after(u64::MAX, 64, before, 0, 0, 0, after);
        assert forall|index: int| #[trigger] word_marks(after, 64, index) == word_marks(
            before,
            64,
            index,
        ) by {
            assert(<u64 as Selection>::held(after, index) == <u64 as Selection>::held(
                before,
                index,
            ));
        }
    }
    lemma_full(before);
    lemma_full(u64::MAX);
    let whole = <u64 as Selection>::whole();
    assert forall|index: int| #[trigger] <u64 as Selection>::marks(whole, index) == (0 <= index
        < 64) by {
        assert(word_marks(u64::MAX, 64, index) == (0 <= index < 64));
    }
    assert(<u64 as Selection>::marks(whole, 0));
    if partial {
        if before != 0 {
            let index = choose|index: int| #[trigger] <u64 as Selection>::held(before, index);
            assert(<u64 as Selection>::marks(whole, index));
        }
    } else {
        if before == u64::MAX {
            assert forall|index: int| #[trigger] <u64 as Selection>::marks(whole, index) implies
                <u64 as Selection>::held(before, index) by {
                assert(word_marks(before, 64, index));
            }
        }
        if forall|index: int| #[trigger]
            <u64 as Selection>::marks(whole, index) ==> <u64 as Selection>::held(before, index) {
            assert forall|index: int| 0 <= index < 64 implies #[trigger] word_marks(
                before,
                64,
                index,
            ) by {
                assert(<u64 as Selection>::marks(whole, index));
            }
        }
    }
}

/// A word is empty where nothing of it is held.
proof fn lemma_held(state: u64)
    ensures
        (state == 0) == (forall|index: int| !#[trigger] <u64 as Selection>::held(state, index)),
{
    lemma_narrow(u64::MAX, 64, state, 0);
    if state != 0 {
        let index = choose|index: int| #[trigger] word_marks(state, 64, index);
        assert(<u64 as Selection>::held(state, index));
    } else {
        assert forall|index: int| !#[trigger] <u64 as Selection>::held(state, index) by {
            assert(!word_marks(0, 64, index));
        }
    }
}

/// A word is full where all of it is marked.
proof fn lemma_full(state: u64)
    ensures
        (state == u64::MAX) == (forall|index: int| #[trigger]
            word_marks(state, 64, index) == (0 <= index < 64)),
        (forall|index: int| 0 <= index < 64 ==> #[trigger] word_marks(state, 64, index)) == (state
            == u64::MAX),
{
    lemma_narrow(u64::MAX, 64, state, u64::MAX);
    if forall|index: int| 0 <= index < 64 ==> #[trigger] word_marks(state, 64, index) {
        assert forall|index: int| 0 <= index < 64 implies #[trigger] word_bit(state, index)
            == word_bit(u64::MAX, index) by {
            assert(word_marks(state, 64, index));
            assert(word_marks(u64::MAX, 64, index));
        }
        lemma_same_word(state, u64::MAX);
    }
    if state == u64::MAX {
        assert forall|index: int| 0 <= index < 64 implies #[trigger] word_marks(
            state,
            64,
            index,
        ) by {}
    }
}

/// A selection by indices holds just the resources of the indices. It cannot be made where an index
/// reaches beyond the word by its low half, or two of them stand for the same resource.
pub proof fn selections_hold_their_indices<const N: usize>(
    indices: [usize; N],
    key: Result<AtN<u64, [usize; N]>, IndexError>,
    bit: int,
)
    requires
        call_ensures(AtN::<u64, [usize; N]>::new, (indices,), key),
        0 <= bit < 64,
    ensures
        key is Ok == ((forall|at: int|
            0 <= at < N ==> (#[trigger] indices[at]) as int % 0x1_0000_0000 < 64) && (forall|
            left: int,
            right: int,
        |
            0 <= left < right < N ==> (#[trigger] indices[left]) as int % 0x1_0000_0000 != (
            #[trigger] indices[right]) as int % 0x1_0000_0000)),
        key matches Ok(key) ==> word_bit(key.chooses(), bit) == (exists|at: int|
            0 <= at < N && (#[trigger] indices[at]) as int % 0x1_0000_0000 == bit),
        key matches Ok(key) ==> key.order() == indices,
{
    let list = indices@;
    assert(list.len() == N);
    assert forall|at: int| 0 <= at < N implies #[trigger] list[at] == indices[at] by {}
    match key {
        Ok(key) => {
            let mask = key.chooses();
            assert(selectable::<u64>(list, N as int));
            assert forall|at: int| 0 <= at < N implies (#[trigger] indices[at]) as int
                % 0x1_0000_0000 < 64 by {
                assert(<u64 as Selection>::place(list[at]) is Some);
            }
            assert forall|left: int, right: int| 0 <= left < right < N implies (
            #[trigger] indices[left]) as int % 0x1_0000_0000 != (#[trigger] indices[right]) as int
                % 0x1_0000_0000 by {
                assert(<u64 as Selection>::place(list[left]) != <u64 as Selection>::place(
                    list[right],
                ));
            }
            assert(<u64 as Selection>::marks(mask, bit) == word_bit(mask, bit));
            if word_bit(mask, bit) {
                let at = choose|at: int|
                    0 <= at < N && #[trigger] <u64 as Selection>::place(list[at]) == Some(bit);
                assert(indices[at] as int % 0x1_0000_0000 == bit);
            }
            if exists|at: int|
                0 <= at < N && (#[trigger] indices[at]) as int % 0x1_0000_0000 == bit {
                let at = choose|at: int|
                    0 <= at < N && (#[trigger] indices[at]) as int % 0x1_0000_0000 == bit;
                assert(<u64 as Selection>::place(list[at]) == Some(bit));
            }
        },
        Err(error) => {
            let at = choose|at: int| #[trigger] stops::<u64>(list, at, error);
            assert(list[at] == indices[at]);
            if <u64 as Selection>::place(list[at]) is Some {
                let place = <u64 as Selection>::place(list[at])->Some_0;
                let earlier = choose|earlier: int|
                    0 <= earlier < at && #[trigger] <u64 as Selection>::place(list[earlier])
                        == Some(place);
                assert(indices[earlier] as int % 0x1_0000_0000 == indices[at] as int
                    % 0x1_0000_0000);
            }
        },
    }
}

/// A selection of a value is locked exactly where none of its resources is taken, or where a part is
/// enough. The guard leads to each item that was asked for, that was locked with it and that is there,
/// and to no other.
pub proof fn selections_are_locked_where_they_are_free<T: DynamicAt, const N: usize>(
    multex: &mut Multex<T, u64>,
    key: AtN<u64, [usize; N]>,
    partial: bool,
    guard: Option<Guard<[Option<usize>; N], u64>>,
    at: int,
)
    requires
        call_ensures(
            Multex::<T, u64>::try_lock_with::<AtN<u64, [usize; N]>>,
            (multex, &key, partial),
            guard,
        ),
        0 <= at < N,
    ensures
        guard is Some == (partial || old(multex).state() & key.chooses() == 0),
        final(multex).value() == old(multex).value(),
        match guard {
            Some(guard) => {
                let index = key.order()[at];
                let place = index as int % 0x1_0000_0000;
                &&& final(multex).state() == old(multex).state() | key.chooses()
                &&& guard.held == key.chooses() & !old(multex).state()
                &&& guard.value[at] == if place < 64 && word_bit(guard.held, place) && index < old(
                    multex,
                ).value().items().len() {
                    Some(index)
                } else {
                    None
                }
            },
            None => final(multex).state() == old(multex).state(),
        },
{
    let before = old(multex).state();
    let after = final(multex).state();
    let mask = key.chooses();
    let part = match guard {
        Some(guard) => guard.held,
        None => mask,
    };
    assert forall|index: int| #[trigger] word_marks(mask, 64, index) == <u64 as Selection>::marks(
        mask,
        index,
    ) by {}
    assert forall|index: int| #[trigger] word_marks(after, 64, index) == <u64 as Selection>::held(
        after,
        index,
    ) by {}
    assert forall|index: int| #[trigger] word_marks(part, 64, index) == <u64 as Selection>::marks(
        part,
        index,
    ) by {}
    lemma_word_after(u64::MAX, 64, before, mask, after, after, after);
    lemma_word_after(u64::MAX, 64, mask, before, part, part, part);
}

/// A guard of parts of a tuple, or of items in a tuple of indices, leads to each of them in the order
/// in which they were asked for, as far as they are held.
pub proof fn parts_are_found_in_their_order<
    T: StaticAt<I1> + StaticAt<I2>,
    D: DynamicAt,
    const I1: usize,
    const I2: usize,
>(
    one: At1<u64, I1>,
    two: At2<u64, I1, I2>,
    pair: AtN<u64, (usize, usize)>,
    single: AtN<u64, (usize,)>,
    items: T,
    list: D,
    mask: u64,
    values: (
        (Option<usize>,),
        (Option<usize>, Option<usize>),
        (Option<usize>, Option<usize>),
        (Option<usize>,),
    ),
)
    requires
        I1 < 64,
        I2 < 64,
        pair.order().0 < 64,
        pair.order().1 < 64,
        single.order().0 < 64,
        call_ensures(<At1<u64, I1> as Key<T, u64>>::value, (&one, &items, mask), values.0),
        call_ensures(<At2<u64, I1, I2> as Key<T, u64>>::value, (&two, &items, mask), values.1),
        call_ensures(
            <AtN<u64, (usize, usize)> as Key<D, u64>>::value,
            (&pair, &list, mask),
            values.2,
        ),
        call_ensures(
            <AtN<u64, (usize,)> as Key<D, u64>>::value,
            (&single, &list, mask),
            values.3,
        ),
    ensures
        values.0.0 == held_at(mask, I1),
        values.1.0 == held_at(mask, I1),
        values.1.1 == held_at(mask, I2),
        values.2.0 == if pair.order().0 < list.items().len() {
            held_at(mask, pair.order().0)
        } else {
            None
        },
        values.2.1 == if pair.order().1 < list.items().len() {
            held_at(mask, pair.order().1)
        } else {
            None
        },
        values.3.0 == if single.order().0 < list.items().len() {
            held_at(mask, single.order().0)
        } else {
            None
        },
{
}

/// An index, where its bit of a word is set.
pub open spec fn held_at(mask: u64, index: usize) -> Option<usize> {
    if word_bit(mask, index as int) {
        Some(index)
    } else {
        None
    }
}

} // verus!

//! Sets of small numbers, held as bits of words.

use vstd::prelude::*;

verus! {

/// Whether bit `index` of a word is set.
pub open spec fn word_bit(word: u64, index: int) -> bool {
    word & (1u64 << (index as u64)) != 0
}

/// Whether bit `index` is set, counted from the first bit of the first word.
pub open spec fn bit(words: Seq<u64>, index: int) -> bool {
    word_bit(words[index / 64], index % 64)
}

/// How many of the first `until` bits of a word are set.
pub open spec fn word_ones(word: u64, until: int) -> int
    decreases until,
{
    if until <= 0 {
        0
    } else {
        word_ones(word, until - 1) + (if word_bit(word, until - 1) {
            1int
        } else {
            0
        })
    }
}

/// [`u64::count_ones`] returns how many bits of a word are set.
pub assume_specification[ u64::count_ones ](word: u64) -> (count: u32)
    ensures
        count == word_ones(word, 64),
;

pub(crate) proof fn lemma_set_bit(word: u64, set: u64, other: u64)
    by (bit_vector)
    requires
        set < 64,
        other < 64,
    ensures
        ((word | (1u64 << set)) & (1u64 << other) != 0) == (set == other || word & (1u64 << other)
            != 0),
{
}

pub(crate) proof fn lemma_join_bits(left: u64, right: u64, index: u64)
    by (bit_vector)
    requires
        index < 64,
    ensures
        ((left | right) & (1u64 << index) != 0) == (left & (1u64 << index) != 0 || right & (1u64
            << index) != 0),
        ((left & right) & (1u64 << index) != 0) == (left & (1u64 << index) != 0 && right & (1u64
            << index) != 0),
        0u64 & (1u64 << index) == 0,
{
}

proof fn lemma_bit_below(word: u64, until: u64) -> (index: u64)
    requires
        word != 0,
        until <= 64,
        until == 64 || word < (1u64 << until),
    ensures
        index < 64,
        word & (1u64 << index) != 0,
    decreases until,
{
    if until == 0 {
        assert(1u64 << 0u64 == 1) by (bit_vector);
        0
    } else {
        let last = (until - 1) as u64;
        if word & (1u64 << last) != 0 {
            last
        } else {
            assert(word & (1u64 << last) == 0 && until == last + 1 && last < 64 && (until == 64
                || word < (1u64 << until)) ==> word < (1u64 << last)) by (bit_vector);
            lemma_bit_below(word, last)
        }
    }
}

/// A word that is not empty has a bit that is set.
pub(crate) proof fn lemma_some_word_bit(word: u64) -> (index: int)
    requires
        word != 0,
    ensures
        0 <= index < 64,
        word_bit(word, index),
{
    lemma_bit_below(word, 64) as int
}

pub(crate) proof fn lemma_without_bits(word: u64, mask: u64, index: u64)
    by (bit_vector)
    requires
        index < 64,
    ensures
        ((word & !mask) & (1u64 << index) != 0) == (word & (1u64 << index) != 0 && mask & (1u64
            << index) == 0),
        (word & mask == word) == (word & !mask == 0),
        (mask & word == word) == (word & !mask == 0),
{
}

/// Taking one bit out of a word leaves the others.
pub(crate) proof fn lemma_clear_bit(word: u64, cleared: u64, index: u64)
    by (bit_vector)
    requires
        cleared < 64,
        index < 64,
    ensures
        ((word & !(1u64 << cleared)) & (1u64 << index) != 0) == (index != cleared && word & (1u64
            << index) != 0),
{
}

/// A mask is part of a word where each of its bits is set in the word.
pub(crate) proof fn lemma_part_of(word: u64, mask: u64)
    ensures
        (word & mask == mask) == forall|index: int|
            0 <= index < 64 && #[trigger] word_bit(mask, index) ==> word_bit(word, index),
{
    if word & mask == mask {
        assert forall|index: int| 0 <= index < 64 && #[trigger] word_bit(
            mask,
            index,
        ) implies word_bit(word, index) by {
            lemma_join_bits(word, mask, index as u64);
        }
    } else {
        lemma_without_bits(mask, word, 0);
        let index = lemma_some_word_bit(mask & !word);
        lemma_without_bits(mask, word, index as u64);
        assert(word_bit(mask, index) && !word_bit(word, index));
    }
}

/// No bit of an empty set of bits is set.
pub(crate) proof fn lemma_no_bits(words: Seq<u64>, index: int)
    requires
        0 <= index < 64 * words.len(),
        words[index / 64] == 0,
    ensures
        !bit(words, index),
{
    lemma_join_bits(0, 0, (index % 64) as u64);
}

pub fn bit_set(bits: &mut Vec<u64>, index: usize)
    requires
        index < 64 * old(bits)@.len(),
    ensures
        final(bits)@.len() == old(bits)@.len(),
        forall|other: int|
            0 <= other < 64 * old(bits)@.len() ==> #[trigger] bit(final(bits)@, other) == (other
                == index || bit(old(bits)@, other)),
{
    let ghost before = bits@;
    let at: usize = index / 64;
    let word = bits[at] | (1u64 << (index % 64));
    bits.set(at, word);
    assert forall|other: int| 0 <= other < 64 * before.len() implies #[trigger] bit(bits@, other)
        == (other == index || bit(before, other)) by {
        if other / 64 == at {
            lemma_set_bit(before[at as int], (index % 64) as u64, (other % 64) as u64);
        }
    }
}

pub fn bit_test(bits: &[u64], index: usize) -> (set: bool)
    requires
        index < 64 * bits@.len(),
    ensures
        set == bit(bits@, index as int),
{
    bits[index / 64] & (1u64 << (index % 64)) != 0
}

/// Adds the bits of `right` to those of `left`, as far as both reach.
pub fn bit_or(left: &mut Vec<u64>, right: &[u64])
    ensures
        final(left)@.len() == old(left)@.len(),
        forall|index: int|
            0 <= index < 64 * old(left)@.len() ==> #[trigger] bit(final(left)@, index) == (bit(
                old(left)@,
                index,
            ) || index < 64 * right@.len() && bit(right@, index)),
{
    let ghost before = left@;
    let mut at: usize = 0;
    while at < left.len() && at < right.len()
        invariant
            at <= left.len(),
            at <= right.len(),
            left@.len() == before.len(),
            forall|word: int| at <= word < before.len() ==> left@[word] == before[word],
            forall|word: int|
                0 <= word < at ==> left@[word] == #[trigger] before[word] | right@[word],
        decreases left.len() - at,
    {
        let word = left[at] | right[at];
        left.set(at, word);
        at += 1;
    }
    assert forall|index: int| 0 <= index < 64 * before.len() implies #[trigger] bit(left@, index)
        == (bit(before, index) || index < 64 * right@.len() && bit(right@, index)) by {
        if index / 64 < at {
            lemma_join_bits(before[index / 64], right@[index / 64], (index % 64) as u64);
        }
    }
}

/// How many of the first `until` bits are set in both of two sets.
pub open spec fn common_bits(left: Seq<u64>, right: Seq<u64>, until: int) -> int
    decreases until,
{
    if until <= 0 {
        0
    } else {
        common_bits(left, right, until - 1) + (if bit(left, until - 1) && bit(right, until - 1) {
            1int
        } else {
            0
        })
    }
}

proof fn lemma_common_word(left: Seq<u64>, right: Seq<u64>, word: int, until: int)
    requires
        0 <= word < left.len(),
        word < right.len(),
        0 <= until <= 64,
    ensures
        common_bits(left, right, 64 * word + until) == common_bits(left, right, 64 * word)
            + word_ones(left[word] & right[word], until),
        0 <= word_ones(left[word] & right[word], until) <= until,
    decreases until,
{
    if until > 0 {
        lemma_common_word(left, right, word, until - 1);
        let index = 64 * word + until - 1;
        assert(index / 64 == word && index % 64 == until - 1);
        lemma_join_bits(left[word], right[word], (until - 1) as u64);
    }
}

/// How many bits are set in both sets, as far as both reach.
pub fn bit_intersection_count(left: &[u64], right: &[u64]) -> (count: u64)
    requires
        left@.len() <= u32::MAX || right@.len() <= u32::MAX,
    ensures
        count == common_bits(left@, right@, 64 * (if left@.len() < right@.len() {
            left@.len()
        } else {
            right@.len()
        }) as int),
{
    let mut count: u64 = 0;
    let mut at: usize = 0;
    while at < left.len() && at < right.len()
        invariant
            at <= left.len(),
            at <= right.len(),
            left@.len() <= u32::MAX || right@.len() <= u32::MAX,
            count == common_bits(left@, right@, 64 * at as int),
            count <= 64 * at,
        decreases left.len() - at,
    {
        proof {
            lemma_common_word(left@, right@, at as int, 64);
        }
        count += (left[at] & right[at]).count_ones() as u64;
        at += 1;
    }
    count
}

/// A number is in a set exactly where its bit is one: that of its remainder by 64, in the word that is
/// as far along as it holds 64.
pub proof fn members_are_bits_of_words(words: &[u64], index: usize, set: bool)
    requires
        index < 64 * words@.len(),
        call_ensures(bit_test, (words, index), set),
    ensures
        set == ((words@[index as int / 64] >> ((index % 64) as u64)) & 1 == 1),
{
    let word = words@[index as int / 64];
    let at = (index % 64) as u64;
    assert((word & (1u64 << at) != 0) == ((word >> at) & 1 == 1)) by (bit_vector)
        requires
            at < 64,
    ;
}

/// As many bits are counted as there are numbers in both sets.
pub proof fn common_bits_are_counted_once(left: Seq<u64>, right: Seq<u64>, until: int)
    requires
        0 <= until,
    ensures
        Set::new(|index: int| 0 <= index < until && bit(left, index) && bit(right, index)).finite(),
        common_bits(left, right, until) == Set::new(
            |index: int| 0 <= index < until && bit(left, index) && bit(right, index),
        ).len(),
    decreases until,
{
    let common = Set::new(
        |index: int| 0 <= index < until && bit(left, index) && bit(right, index),
    );
    if until > 0 {
        common_bits_are_counted_once(left, right, until - 1);
        let before = Set::new(
            |index: int| 0 <= index < until - 1 && bit(left, index) && bit(right, index),
        );
        if bit(left, until - 1) && bit(right, until - 1) {
            assert(common =~= before.insert(until - 1));
        } else {
            assert(common =~= before);
        }
    } else {
        assert(common =~= Set::<int>::empty());
    }
}

} // verus!

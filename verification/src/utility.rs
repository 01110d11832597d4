//! Operations on sorted lists.

use std::cmp::Ordering;
use vstd::laws_cmp::{
    obeys_cmp, obeys_cmp_ord, obeys_cmp_partial_ord, obeys_partial_cmp_spec_properties,
};
use vstd::prelude::*;
use vstd::std_specs::cmp::{OrdSpec, PartialOrdSpec};

verus! {

/// Whether `<` of a type means what [`less`] says.
pub open spec fn comparable<T: PartialOrd>() -> bool {
    T::obeys_partial_cmp_spec()
}

/// Whether `left` is smaller than `right`.
pub open spec fn less<T: PartialOrd>(left: T, right: T) -> bool {
    left.partial_cmp_spec(&right) == Some(Ordering::Less)
}

/// Which of two values is the smaller one.
#[derive(Debug, Copy, Clone, PartialEq, Eq, Structural)]
pub enum Smaller {
    Left,
    Neither,
    Right,
}

/// Whether the total order of a type is what [`smaller`] says.
pub open spec fn ordered<T: Ord>() -> bool {
    T::obeys_cmp_spec()
}

/// Which of two values is the smaller one.
pub open spec fn smaller<T: Ord>(left: T, right: T) -> Smaller {
    match left.cmp_spec(&right) {
        Ordering::Less => Smaller::Left,
        Ordering::Equal => Smaller::Neither,
        Ordering::Greater => Smaller::Right,
    }
}

fn find_smaller<T: Ord>(left: &T, right: &T) -> (found: Smaller)
    requires
        ordered::<T>(),
    ensures
        found == smaller(*left, *right),
{
    match left.cmp(right) {
        Ordering::Less => Smaller::Left,
        Ordering::Equal => Smaller::Neither,
        Ordering::Greater => Smaller::Right,
    }
}

/// Whether each value of a list is smaller than the next one.
pub open spec fn rising<T: PartialOrd>(values: Seq<T>) -> bool {
    forall|index: int|
        0 <= index && index + 1 < values.len() ==> less(
            #[trigger] values[index],
            values[index + 1],
        )
}

pub fn is_sorted_set<T: PartialOrd>(slice: &[T]) -> (sorted: bool)
    requires
        comparable::<T>(),
    ensures
        sorted == rising(slice@),
{
    let mut index: usize = 0;
    while index < slice.len()
        invariant
            comparable::<T>(),
            index <= slice.len(),
            forall|before: int|
                0 <= before < index && before + 1 < slice@.len() ==> less(
                    #[trigger] slice@[before],
                    slice@[before + 1],
                ),
        decreases slice.len() - index,
    {
        if index + 1 < slice.len() && !(slice[index] < slice[index + 1]) {
            assert(!less(slice@[index as int], slice@[index + 1]));
            return false;
        }
        index += 1;
    }
    true
}

/// What is left of `left` when `right` is walked beside it and equal heads are taken out.
pub open spec fn difference<T: Ord>(left: Seq<T>, right: Seq<T>) -> Seq<T>
    decreases left.len() + right.len(),
{
    if left.len() == 0 || right.len() == 0 {
        left
    } else {
        match smaller(left[0], right[0]) {
            Smaller::Left => seq![left[0]] + difference(left.drop_first(), right),
            Smaller::Neither => difference(left.drop_first(), right.drop_first()),
            Smaller::Right => difference(left, right.drop_first()),
        }
    }
}

/// Whether equal heads come up when `left` and `right` are walked beside each other.
pub open spec fn intersects<T: Ord>(left: Seq<T>, right: Seq<T>) -> bool
    decreases left.len() + right.len(),
{
    if left.len() == 0 || right.len() == 0 {
        false
    } else {
        match smaller(left[0], right[0]) {
            Smaller::Left => intersects(left.drop_first(), right),
            Smaller::Neither => true,
            Smaller::Right => intersects(left, right.drop_first()),
        }
    }
}

/// Removes from `left` what `right` holds too, and tells whether something was removed. Both lists
/// are meant to be sorted.
pub fn sorted_difference<T: Ord + 'static>(left: &mut Vec<T>, right: &[T]) -> (removed: bool)
    requires
        ordered::<T>(),
    ensures
        final(left)@ == difference(old(left)@, right@),
        removed == (final(left)@.len() < old(left)@.len()),
{
    if right.len() == 0 {
        return false;
    }
    let ghost whole = left@;
    let count: usize = left.len();
    let mut values: Vec<T> = Vec::new();
    std::mem::swap(left, &mut values);
    let mut index: usize = 0;
    assert(whole.skip(0) =~= whole);
    assert(right@.skip(0) =~= right@);
    assert(left@ + difference(whole, right@) =~= difference(whole, right@));
    for value in iterator: values
        invariant
            ordered::<T>(),
            iterator.seq() == whole,
            count == whole.len(),
            index <= right.len(),
            left@.len() <= iterator.index(),
            difference(whole, right@) == left@ + difference(
                whole.skip(iterator.index()),
                right@.skip(index as int),
            ),
    {
        let ghost at = iterator.index();
        let ghost rest = whole.skip(at);
        assert(rest[0] == value);
        assert(rest.drop_first() =~= whole.skip(at + 1));
        let ghost before = left@;
        let mut keep = true;
        let mut walking = true;
        while walking && index < right.len()
            invariant
                ordered::<T>(),
                index <= right.len(),
                rest.len() > 0,
                rest[0] == value,
                left@ == before,
                difference(whole, right@) == before + (if keep {
                    difference(rest, right@.skip(index as int))
                } else {
                    difference(rest.drop_first(), right@.skip(index as int))
                }),
                keep && !walking ==> index < right.len() && smaller(value, right@[index as int])
                    == Smaller::Left,
                !keep ==> !walking,
            decreases right.len() - index, (if walking { 1int } else { 0int }),
        {
            assert(right@.skip(index as int)[0] == right@[index as int]);
            assert(right@.skip(index as int).drop_first() =~= right@.skip(index + 1));
            match find_smaller(&value, &right[index]) {
                Smaller::Left => {
                    walking = false;
                },
                Smaller::Neither => {
                    index += 1;
                    keep = false;
                    walking = false;
                },
                Smaller::Right => {
                    index += 1;
                },
            }
        }
        if keep {
            proof {
                let other = right@.skip(index as int);
                if index < right.len() {
                    assert(other[0] == right@[index as int]);
                } else {
                    assert(difference(rest.drop_first(), other) == rest.drop_first());
                }
                assert(difference(rest, other) =~= seq![value] + difference(
                    rest.drop_first(),
                    other,
                ));
            }
            left.push(value);
            assert(before + (seq![value] + difference(
                rest.drop_first(),
                right@.skip(index as int),
            )) =~= left@ + difference(rest.drop_first(), right@.skip(index as int)));
        }
    }
    assert(whole.skip(whole.len() as int) =~= Seq::<T>::empty());
    assert(left@ + Seq::<T>::empty() =~= left@);
    count > left.len()
}

/// Whether `left` and `right` hold a common value. Both lists are meant to be sorted.
pub fn sorted_intersects<T: Ord + 'static>(left: &[T], right: &[T]) -> (intersects: bool)
    requires
        ordered::<T>(),
    ensures
        intersects == self::intersects(left@, right@),
{
    let mut l: usize = 0;
    let mut r: usize = 0;
    assert(left@.skip(0) =~= left@);
    assert(right@.skip(0) =~= right@);
    while l < left.len() && r < right.len()
        invariant
            ordered::<T>(),
            l <= left.len(),
            r <= right.len(),
            self::intersects(left@, right@) == self::intersects(
                left@.skip(l as int),
                right@.skip(r as int),
            ),
        decreases left.len() - l + right.len() - r,
    {
        assert(left@.skip(l as int)[0] == left@[l as int]);
        assert(right@.skip(r as int)[0] == right@[r as int]);
        assert(left@.skip(l as int).drop_first() =~= left@.skip(l + 1));
        assert(right@.skip(r as int).drop_first() =~= right@.skip(r + 1));
        match find_smaller(&left[l], &right[r]) {
            Smaller::Left => l += 1,
            Smaller::Neither => return true,
            Smaller::Right => r += 1,
        }
    }
    false
}

/// Whether a list holds a value that is neither smaller nor greater than `value`.
pub open spec fn holds<T: Ord>(values: Seq<T>, value: T) -> bool {
    exists|index: int|
        0 <= index < values.len() && smaller(value, #[trigger] values[index]) == Smaller::Neither
}

/// The order of `T` is a total order.
pub open spec fn total<T: Ord>() -> bool {
    obeys_cmp::<T>()
}

proof fn lemma_total<T: Ord>()
    requires
        total::<T>(),
    ensures
        forall|x: T, y: T| less(x, y) == (#[trigger] smaller(x, y) == Smaller::Left),
        forall|x: T, y: T|
            (#[trigger] smaller(x, y) == Smaller::Left) == (smaller(y, x) == Smaller::Right),
        forall|x: T, y: T, z: T|
            smaller(x, y) == Smaller::Left && #[trigger] smaller(y, z) == Smaller::Left ==>
                #[trigger] smaller(x, z) == Smaller::Left,
        forall|x: T, y: T, z: T|
            smaller(x, y) == Smaller::Neither && #[trigger] smaller(y, z) == Smaller::Neither ==>
                #[trigger] smaller(x, z) == Smaller::Neither,
        forall|x: T, y: T|
            (#[trigger] smaller(x, y) == Smaller::Neither) == (smaller(y, x) == Smaller::Neither),
{
    reveal(obeys_partial_cmp_spec_properties);
    reveal(obeys_cmp_partial_ord);
    reveal(obeys_cmp_ord);
    reveal(vstd::laws_eq::obeys_eq_spec_properties);
}

proof fn lemma_head_is_least<T: Ord>(values: Seq<T>, index: int)
    requires
        total::<T>(),
        rising(values),
        0 < index < values.len(),
    ensures
        smaller(values[0], values[index]) == Smaller::Left,
    decreases index,
{
    lemma_total::<T>();
    assert(less(values[index - 1], values[index - 1 + 1]));
    if index > 1 {
        lemma_head_is_least(values, index - 1);
    }
}

proof fn lemma_tail_rises<T: Ord>(values: Seq<T>)
    requires
        rising(values),
        values.len() > 0,
    ensures
        rising(values.drop_first()),
{
    let tail = values.drop_first();
    assert forall|index: int| 0 <= index && index + 1 < tail.len() implies less(
        #[trigger] tail[index],
        tail[index + 1],
    ) by {
        assert(less(values[index + 1], values[index + 1 + 1]));
    }
}

/// No value of a list is smaller than the one before it.
pub open spec fn never_falling<T: PartialOrd>(values: Seq<T>) -> bool {
    forall|index: int|
        0 <= index && index + 1 < values.len() ==> !less(
            values[index + 1],
            #[trigger] values[index],
        )
}

proof fn lemma_tail_never_falls<T: Ord>(values: Seq<T>)
    requires
        never_falling(values),
        values.len() > 0,
    ensures
        never_falling(values.drop_first()),
{
    let tail = values.drop_first();
    assert forall|index: int| 0 <= index && index + 1 < tail.len() implies !less(
        tail[index + 1],
        #[trigger] tail[index],
    ) by {
        assert(!less(values[index + 1 + 1], values[index + 1]));
    }
}

/// A value that is smaller than the first of a list in which no value is smaller than the one before
/// it is not in the list.
proof fn lemma_head_is_not_larger<T: Ord>(values: Seq<T>, value: T, index: int)
    requires
        total::<T>(),
        never_falling(values),
        0 <= index < values.len(),
        smaller(value, values[0]) == Smaller::Left,
    ensures
        smaller(value, values[index]) == Smaller::Left,
    decreases index,
{
    lemma_total::<T>();
    if index > 0 {
        lemma_head_is_not_larger(values, value, index - 1);
        let before = values[index - 1];
        let last = values[index - 1 + 1];
        assert(!less(last, before));
        assert(smaller(last, before) != Smaller::Left);
        assert(smaller(before, last) != Smaller::Right);
        lemma_not_larger(value, before, last);
    }
}

proof fn lemma_not_larger<T: Ord>(x: T, y: T, z: T)
    requires
        total::<T>(),
        smaller(x, y) == Smaller::Left,
        smaller(y, z) != Smaller::Right,
    ensures
        smaller(x, z) == Smaller::Left,
{
    lemma_total::<T>();
    if smaller(y, z) == Smaller::Neither {
        if smaller(x, z) == Smaller::Neither {
            assert(smaller(z, y) == Smaller::Neither);
            assert(smaller(x, y) == Smaller::Neither);
        } else if smaller(x, z) == Smaller::Right {
            assert(smaller(z, x) == Smaller::Left);
            assert(smaller(z, y) == Smaller::Left);
        }
    }
}

/// Of two sorted lists of which the first starts with the smaller value, the second does not hold
/// that value.
proof fn lemma_head_is_absent<T: Ord>(values: Seq<T>, value: T)
    requires
        total::<T>(),
        never_falling(values),
        values.len() > 0,
        smaller(value, values[0]) == Smaller::Left,
    ensures
        !holds(values, value),
{
    assert forall|index: int| 0 <= index < values.len() implies smaller(
        value,
        #[trigger] values[index],
    ) == Smaller::Left by {
        lemma_head_is_not_larger(values, value, index);
    }
}

proof fn lemma_rising_never_falls<T: Ord>(values: Seq<T>)
    requires
        total::<T>(),
        rising(values),
    ensures
        never_falling(values),
{
    lemma_total::<T>();
    assert forall|index: int| 0 <= index && index + 1 < values.len() implies !less(
        values[index + 1],
        #[trigger] values[index],
    ) by {
        assert(less(values[index], values[index + 1]));
        assert(smaller(values[index], values[index + 1]) == Smaller::Left);
        assert(smaller(values[index + 1], values[index]) == Smaller::Right);
    }
}

/// What the difference of two sorted lists holds is what the first holds and the second does not.
pub proof fn difference_of_sorted_lists<T: Ord>(left: Seq<T>, right: Seq<T>, value: T)
    requires
        total::<T>(),
        rising(left),
        rising(right),
    ensures
        difference(left, right).contains(value) == (left.contains(value) && !holds(right, value)),
    decreases left.len() + right.len(),
{
    lemma_total::<T>();
    lemma_rising_never_falls(left);
    lemma_rising_never_falls(right);
    if left.len() > 0 && right.len() > 0 {
        lemma_tail_rises(left);
        lemma_tail_rises(right);
        let tail = left.drop_first();
        let rest = right.drop_first();
        assert(left =~= seq![left[0]] + tail);
        assert(right =~= seq![right[0]] + rest);
        assert(left.contains(value) == (value == left[0] || tail.contains(value))) by {
            if tail.contains(value) {
                let index = tail.index_of(value);
                assert(left[index + 1] == value);
            }
            if left.contains(value) {
                let index = left.index_of(value);
                if index > 0 {
                    assert(tail[index - 1] == value);
                }
            }
        }
        assert(holds(right, value) == (smaller(value, right[0]) == Smaller::Neither || holds(
            rest,
            value,
        ))) by {
            if holds(rest, value) {
                let index = choose|index: int|
                    0 <= index < rest.len() && smaller(value, #[trigger] rest[index])
                        == Smaller::Neither;
                assert(right[index + 1] == rest[index]);
            }
            if holds(right, value) {
                let index = choose|index: int|
                    0 <= index < right.len() && smaller(value, #[trigger] right[index])
                        == Smaller::Neither;
                if index > 0 {
                    assert(rest[index - 1] == right[index]);
                }
            }
        }
        match smaller(left[0], right[0]) {
            Smaller::Left => {
                difference_of_sorted_lists(tail, right, value);
                lemma_head_is_absent(right, left[0]);
                let kept = difference(tail, right);
                let whole = seq![left[0]] + kept;
                if kept.contains(value) {
                    assert(whole[kept.index_of(value) + 1] == value);
                }
                if whole.contains(value) {
                    let index = whole.index_of(value);
                    if index > 0 {
                        assert(kept[index - 1] == value);
                    }
                }
                assert(whole[0] == left[0]);
            },
            Smaller::Neither => {
                difference_of_sorted_lists(tail, rest, value);
                if tail.contains(value) {
                    lemma_head_is_least(left, tail.index_of(value) + 1);
                }
            },
            Smaller::Right => {
                difference_of_sorted_lists(left, rest, value);
                if left.contains(value) && smaller(value, right[0]) == Smaller::Neither {
                    let index = left.index_of(value);
                    if index > 0 {
                        lemma_head_is_least(left, index);
                    }
                }
            },
        }
    }
}

/// Two sorted lists, in which values may repeat, intersect exactly where they hold a common value.
pub proof fn intersection_of_sorted_lists<T: Ord>(left: Seq<T>, right: Seq<T>)
    requires
        total::<T>(),
        never_falling(left),
        never_falling(right),
    ensures
        intersects(left, right) == exists|index: int|
            0 <= index < left.len() && holds(right, #[trigger] left[index]),
    decreases left.len() + right.len(),
{
    lemma_total::<T>();
    if left.len() > 0 && right.len() > 0 {
        lemma_tail_never_falls(left);
        lemma_tail_never_falls(right);
        let tail = left.drop_first();
        let rest = right.drop_first();
        match smaller(left[0], right[0]) {
            Smaller::Left => {
                intersection_of_sorted_lists(tail, right);
                lemma_head_is_absent(right, left[0]);
                assert forall|index: int| 0 <= index < tail.len() implies #[trigger] tail[index]
                    == left[index + 1] by {}
                if exists|index: int|
                    0 <= index < left.len() && holds(right, #[trigger] left[index]) {
                    let index = choose|index: int|
                        0 <= index < left.len() && holds(right, #[trigger] left[index]);
                    assert(holds(right, tail[index - 1]));
                }
            },
            Smaller::Neither => {
                assert(holds(right, left[0]));
            },
            Smaller::Right => {
                intersection_of_sorted_lists(left, rest);
                lemma_head_is_absent(left, right[0]);
                assert forall|index: int| 0 <= index < left.len() implies holds(
                    right,
                    #[trigger] left[index],
                ) == holds(rest, left[index]) by {
                    let value = left[index];
                    if holds(rest, value) {
                        let at = choose|at: int|
                            0 <= at < rest.len() && smaller(value, #[trigger] rest[at])
                                == Smaller::Neither;
                        assert(right[at + 1] == rest[at]);
                    }
                    if holds(right, value) {
                        let at = choose|at: int|
                            0 <= at < right.len() && smaller(value, #[trigger] right[at])
                                == Smaller::Neither;
                        if at > 0 {
                            assert(rest[at - 1] == right[at]);
                        } else {
                            assert(smaller(right[0], value) == Smaller::Neither);
                        }
                    }
                }
            },
        }
    }
}

proof fn lemma_rising_numbers(values: Seq<u64>, left: int, right: int)
    requires
        forall|index: int|
            0 <= index && index + 1 < values.len() ==> (#[trigger] values[index]) < values[index
                + 1],
        0 <= left < right < values.len(),
    ensures
        values[left] < values[right],
    decreases right - left,
{
    assert(values[right - 1] < values[right - 1 + 1]);
    if left + 1 < right {
        lemma_rising_numbers(values, left, right - 1);
    }
}

proof fn lemma_numbers_rise(values: Seq<u64>)
    ensures
        rising(values) == forall|left: int, right: int|
            0 <= left < right < values.len() ==> #[trigger] values[left] < #[trigger] values[right],
        comparable::<u64>(),
        ordered::<u64>(),
        total::<u64>(),
        forall|x: u64, y: u64| #[trigger] less(x, y) == (x < y),
        forall|x: u64, y: u64| (#[trigger] smaller(x, y) == Smaller::Neither) == (x == y),
{
    broadcast use vstd::laws_cmp::group_laws_cmp;

    assert forall|index: int| 0 <= index && index + 1 < values.len() implies less(
        #[trigger] values[index],
        values[index + 1],
    ) == (values[index] < values[index + 1]) by {}
    if rising(values) {
        assert forall|index: int| 0 <= index && index + 1 < values.len() implies (
        #[trigger] values[index]) < values[index + 1] by {
            assert(less(values[index], values[index + 1]));
        }
        assert forall|left: int, right: int| 0 <= left < right < values.len() implies
            #[trigger] values[left] < #[trigger] values[right] by {
            lemma_rising_numbers(values, left, right);
        }
    }
}

/// A list of numbers is found to be sorted, with none twice, exactly where each is smaller than all
/// that come after it.
pub proof fn sorted_sets_rise(values: &[u64], sorted: bool)
    requires
        call_ensures(is_sorted_set::<u64>, (values,), sorted),
    ensures
        sorted == forall|left: int, right: int|
            0 <= left < right < values@.len() ==> #[trigger] values@[left]
                < #[trigger] values@[right],
{
    lemma_numbers_rise(values@);
}

/// Of two sorted lists of numbers without repetition, taking away the second leaves of the first what
/// is not in the second, still sorted and without repetition. Something was removed exactly where
/// they have a number in common.
pub proof fn differences_of_numbers(
    left: &mut Vec<u64>,
    right: &[u64],
    removed: bool,
    value: u64,
)
    requires
        call_ensures(sorted_difference::<u64>, (left, right), removed),
        forall|a: int, b: int|
            0 <= a < b < old(left)@.len() ==> #[trigger] old(left)@[a] < #[trigger] old(left)@[b],
        forall|a: int, b: int|
            0 <= a < b < right@.len() ==> #[trigger] right@[a] < #[trigger] right@[b],
    ensures
        final(left)@.contains(value) == (old(left)@.contains(value) && !right@.contains(value)),
        forall|a: int, b: int|
            0 <= a < b < final(left)@.len() ==> #[trigger] final(left)@[a]
                < #[trigger] final(left)@[b],
        !removed ==> final(left)@ == old(left)@,
        old(left)@.contains(value) && right@.contains(value) ==> removed,
{
    let first = old(left)@;
    lemma_numbers_rise(first);
    lemma_numbers_rise(right@);
    difference_of_sorted_lists(first, right@, value);
    lemma_holds_numbers(right@, value);
    lemma_difference_keeps_order(first, right@);
    lemma_whole_difference(first, right@);
}

proof fn lemma_holds_numbers(values: Seq<u64>, value: u64)
    ensures
        holds(values, value) == values.contains(value),
{
    lemma_numbers_rise(values);
    if values.contains(value) {
        let index = values.index_of(value);
        assert(smaller(value, values[index]) == Smaller::Neither);
    }
    if holds(values, value) {
        let index = choose|index: int|
            0 <= index < values.len() && smaller(value, #[trigger] values[index])
                == Smaller::Neither;
        assert(values[index] == value);
    }
}

proof fn lemma_difference_keeps_order(left: Seq<u64>, right: Seq<u64>)
    requires
        forall|a: int, b: int|
            0 <= a < b < left.len() ==> #[trigger] left[a] < #[trigger] left[b],
    ensures
        forall|a: int, b: int|
            0 <= a < b < difference(left, right).len() ==> #[trigger] difference(left, right)[a]
                < #[trigger] difference(left, right)[b],
        forall|a: int|
            0 <= a < difference(left, right).len() ==> left.contains(
                #[trigger] difference(left, right)[a],
            ),
    decreases left.len() + right.len(),
{
    if left.len() > 0 && right.len() > 0 {
        let tail = left.drop_first();
        match smaller(left[0], right[0]) {
            Smaller::Left => {
                lemma_difference_keeps_order(tail, right);
                let rest = difference(tail, right);
                let whole = difference(left, right);
                assert(whole == seq![left[0]] + rest);
                assert forall|a: int| 0 <= a < rest.len() implies left[0] < #[trigger] rest[a]
                    && left.contains(rest[a]) by {
                    assert(tail.contains(rest[a]));
                    let index = tail.index_of(rest[a]);
                    assert(left[index + 1] == rest[a]);
                }
                assert forall|a: int, b: int| 0 <= a < b < whole.len() implies
                    #[trigger] whole[a] < #[trigger] whole[b] by {
                    assert(whole[b] == rest[b - 1]);
                    if a > 0 {
                        assert(whole[a] == rest[a - 1]);
                    }
                }
                assert forall|a: int| 0 <= a < whole.len() implies left.contains(
                    #[trigger] whole[a],
                ) by {
                    if a > 0 {
                        assert(whole[a] == rest[a - 1]);
                    } else {
                        assert(left[0] == whole[0]);
                    }
                }
            },
            Smaller::Neither => {
                lemma_difference_keeps_order(tail, right.drop_first());
                let rest = difference(tail, right.drop_first());
                assert(difference(left, right) == rest);
                assert forall|a: int| 0 <= a < rest.len() implies left.contains(
                    #[trigger] rest[a],
                ) by {
                    assert(tail.contains(rest[a]));
                    let index = tail.index_of(rest[a]);
                    assert(left[index + 1] == rest[a]);
                }
            },
            Smaller::Right => {
                lemma_difference_keeps_order(left, right.drop_first());
                assert(difference(left, right) == difference(left, right.drop_first()));
            },
        }
    } else {
        assert(difference(left, right) == left);
        assert forall|a: int| 0 <= a < left.len() implies left.contains(#[trigger] left[a]) by {}
    }
}

proof fn lemma_whole_difference(left: Seq<u64>, right: Seq<u64>)
    ensures
        difference(left, right).len() <= left.len(),
        difference(left, right).len() == left.len() ==> difference(left, right) == left,
    decreases left.len() + right.len(),
{
    if left.len() > 0 && right.len() > 0 {
        let tail = left.drop_first();
        match smaller(left[0], right[0]) {
            Smaller::Left => {
                lemma_whole_difference(tail, right);
                assert(left =~= seq![left[0]] + tail);
            },
            Smaller::Neither => {
                lemma_whole_difference(tail, right.drop_first());
            },
            Smaller::Right => {
                lemma_whole_difference(left, right.drop_first());
            },
        }
    }
}

/// Two sorted lists of numbers are found to intersect exactly where they have a number in common.
pub proof fn intersections_of_numbers(left: &[u64], right: &[u64], found: bool)
    requires
        call_ensures(sorted_intersects::<u64>, (left, right), found),
        forall|a: int, b: int|
            0 <= a < b < left@.len() ==> #[trigger] left@[a] < #[trigger] left@[b],
        forall|a: int, b: int|
            0 <= a < b < right@.len() ==> #[trigger] right@[a] < #[trigger] right@[b],
    ensures
        found == exists|value: u64| #[trigger] left@.contains(value) && right@.contains(value),
{
    lemma_numbers_rise(left@);
    lemma_numbers_rise(right@);
    lemma_rising_never_falls(left@);
    lemma_rising_never_falls(right@);
    intersection_of_sorted_lists(left@, right@);
    if found {
        let index = choose|index: int|
            0 <= index < left@.len() && holds(right@, #[trigger] left@[index]);
        lemma_holds_numbers(right@, left@[index]);
        assert(left@.contains(left@[index]));
    }
    if exists|value: u64| #[trigger] left@.contains(value) && right@.contains(value) {
        let value = choose|value: u64| #[trigger] left@.contains(value) && right@.contains(value);
        lemma_holds_numbers(right@, value);
        let index = left@.index_of(value);
        assert(holds(right@, left@[index]));
    }
}

} // verus!

//! Lists of jobs in the order of a key.

use crate::dag::JobId;
use vstd::prelude::*;

verus! {

/// Whether `left` comes before `right` in the order of their keys, and among equal keys in the
/// order of declaration.
pub open spec fn key_before(keys: Seq<u64>, left: JobId, right: JobId) -> bool {
    ||| keys[left as int] < keys[right as int]
    ||| keys[left as int] == keys[right as int] && left < right
}

/// Whether a list is in the order of keys.
pub open spec fn ordered_by(keys: Seq<u64>, list: Seq<JobId>) -> bool {
    forall|left: int, right: int|
        0 <= left < right < list.len() ==> key_before(
            keys,
            #[trigger] list[left],
            #[trigger] list[right],
        )
}

/// Whether each job of a list is one of the first `count` jobs.
pub open spec fn within(list: Seq<JobId>, count: int) -> bool {
    forall|index: int| 0 <= index < list.len() ==> (#[trigger] list[index]) < count
}

/// Inserts a job into a list that is in the order of keys.
pub fn insert_by_key(keys: &[u64], list: &mut Vec<JobId>, value: JobId)
    requires
        within(old(list)@, keys@.len() as int),
        value < keys@.len(),
        ordered_by(keys@, old(list)@),
        !old(list)@.contains(value),
    ensures
        within(final(list)@, keys@.len() as int),
        ordered_by(keys@, final(list)@),
        final(list)@.len() == old(list)@.len() + 1,
        forall|other: JobId| #[trigger]
            final(list)@.contains(other) == (old(list)@.contains(other) || other == value),
{
    let ghost before = list@;
    let mut index: usize = 0;
    while index < list.len() && (keys[list[index] as usize] < keys[value as usize]
        || keys[list[index] as usize] == keys[value as usize] && list[index] < value)
        invariant
            index <= list.len(),
            list@ == before,
            value < keys@.len(),
            within(before, keys@.len() as int),
            forall|at: int|
                0 <= at < index ==> key_before(keys@, #[trigger] before[at], value),
        decreases list.len() - index,
    {
        index += 1;
    }
    proof {
        assert forall|at: int| index <= at < before.len() implies key_before(
            keys@,
            value,
            #[trigger] before[at],
        ) by {
            if before[index as int] == value {
                assert(before.contains(value));
            }
            if at > index {
                assert(key_before(keys@, before[index as int], before[at]));
            }
        }
    }
    list.insert(index, value);
    let ghost after = list@;
    assert forall|left: int, right: int| 0 <= left < right < after.len() implies key_before(
        keys@,
        #[trigger] after[left],
        #[trigger] after[right],
    ) by {
        let l = if left < index {
            left
        } else {
            left - 1
        };
        let r = if right < index {
            right
        } else {
            right - 1
        };
        if left != index {
            assert(after[left] == before[l]);
        }
        if right != index {
            assert(after[right] == before[r]);
        }
    }
    assert forall|at: int| 0 <= at < after.len() implies (#[trigger] after[at]) < keys@.len() by {
        if at < index {
            assert(after[at] == before[at]);
        } else if at > index {
            assert(after[at] == before[at - 1]);
        }
    }
    assert forall|other: JobId| #[trigger] after.contains(other) == (before.contains(other) || other
        == value) by {
        if before.contains(other) {
            let at = before.index_of(other);
            assert(after[if at < index {
                at
            } else {
                at + 1
            }] == other);
        }
        if other == value {
            assert(after[index as int] == other);
        }
        if after.contains(other) && other != value {
            let at = after.index_of(other);
            assert(before[if at < index {
                at
            } else {
                at - 1
            }] == other);
        }
    }
}

/// A list that names each of `count` jobs once at most is no longer than `count`.
pub proof fn lemma_distinct_bound(list: Seq<JobId>, count: int)
    requires
        0 <= count,
        list.no_duplicates(),
        within(list, count),
    ensures
        list.len() <= count,
    decreases count,
{
    if count == 0 {
        if list.len() > 0 {
            assert(list[0] < 0);
        }
    } else if count - 1 <= u32::MAX && list.contains((count - 1) as JobId) {
        let at = list.index_of((count - 1) as JobId);
        let shorter = list.remove(at);
        assert forall|index: int| 0 <= index < shorter.len() implies (#[trigger] shorter[index])
            < count - 1 by {
            let place = if index < at {
                index
            } else {
                index + 1
            };
            assert(shorter[index] == list[place]);
            assert(list[place] != list[at]);
        }
        lemma_distinct_bound(shorter, count - 1);
    } else {
        assert forall|index: int| 0 <= index < list.len() implies (#[trigger] list[index]) < count
            - 1 by {
            if list[index] == count - 1 {
                assert(list.contains((count - 1) as JobId));
            }
        }
        lemma_distinct_bound(list, count - 1);
    }
}

/// Whether a list of numbers is greater than another one of the same length: it is at the first
/// place where they differ.
pub open spec fn worth_more(left: Seq<int>, right: Seq<int>) -> bool
    decreases left.len(),
{
    left.len() > 0 && (left[0] > right[0] || left[0] == right[0] && worth_more(
        left.drop_first(),
        right.drop_first(),
    ))
}

pub(crate) proof fn lemma_worth_more(left: Seq<int>, right: Seq<int>)
    requires
        left.len() > 0,
        right.len() > 0,
    ensures
        worth_more(left, right) == (left[0] > right[0] || left[0] == right[0] && worth_more(
            left.drop_first(),
            right.drop_first(),
        )),
{
}

pub(crate) proof fn lemma_worth_transitive(left: Seq<int>, middle: Seq<int>, right: Seq<int>)
    requires
        left.len() == middle.len() == right.len(),
        worth_more(left, middle),
        worth_more(middle, right),
    ensures
        worth_more(left, right),
    decreases left.len(),
{
    if left[0] == middle[0] && middle[0] == right[0] {
        lemma_worth_transitive(left.drop_first(), middle.drop_first(), right.drop_first());
    }
}

pub(crate) proof fn lemma_worth_total(left: Seq<int>, right: Seq<int>)
    requires
        left.len() == right.len(),
        left.len() > 0,
        left.last() != right.last(),
    ensures
        worth_more(left, right) || worth_more(right, left),
    decreases left.len(),
{
    if left[0] == right[0] {
        assert(left.len() > 1);
        assert(left.drop_first().last() == left.last());
        assert(right.drop_first().last() == right.last());
        lemma_worth_total(left.drop_first(), right.drop_first());
    }
}

/// The numbers of a list.
pub open spec fn numbers(list: Seq<i128>) -> Seq<int> {
    list.map_values(|number: i128| number as int)
}

/// Whether a list of numbers is greater than another one of the same length.
pub fn is_worth_more(left: &[i128], right: &[i128]) -> (more: bool)
    requires
        left@.len() == right@.len(),
    ensures
        more == worth_more(numbers(left@), numbers(right@)),
{
    let ghost l = numbers(left@);
    let ghost r = numbers(right@);
    assert(l.skip(0) =~= l);
    assert(r.skip(0) =~= r);
    for index in 0..left.len()
        invariant
            left@.len() == right@.len(),
            l == numbers(left@),
            r == numbers(right@),
            worth_more(l, r) == worth_more(l.skip(index as int), r.skip(index as int)),
    {
        assert(l.skip(index as int)[0] == left@[index as int]);
        assert(r.skip(index as int)[0] == right@[index as int]);
        assert(l.skip(index as int).drop_first() =~= l.skip(index + 1));
        assert(r.skip(index as int).drop_first() =~= r.skip(index + 1));
        if left[index] > right[index] {
            return true;
        }
        if left[index] < right[index] {
            return false;
        }
    }
    assert(l.skip(left@.len() as int).len() == 0);
    false
}

} // verus!

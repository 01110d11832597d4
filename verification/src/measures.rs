//! What jobs and keys are worth: how it is counted, and what comes of it.

use crate::dag::{lists, measured, peak, JobId};
use crate::depend::KeyView;
use crate::kernel::kernel_worths;
use crate::normalize::{AccessView, NormalView};
use crate::order::{is_worth_more, numbers, worth_more};
use crate::orient::{
    access_heat, best_ready, count_kind, counts_as_write, counts_for, heat_tells, kind_heat,
    permutes, prioritized, stats_tell, touches, writes, JobStats, KeyHeat,
};
use crate::ready::is_ready;
use crate::variants::{build_priority_order, VariantKind};
use crate::waits::missing;
use vstd::prelude::*;

verus! {

proof fn lemma_peak_is_highest(heights: Seq<u32>, jobs: Seq<JobId>)
    ensures
        forall|at: int|
            0 <= at < jobs.len() ==> heights[(#[trigger] jobs[at]) as int] < peak(heights, jobs),
        jobs.len() == 0 ==> peak(heights, jobs) == 0,
        jobs.len() > 0 ==> exists|at: int|
            0 <= at < jobs.len() && heights[(#[trigger] jobs[at]) as int] + 1 == peak(
                heights,
                jobs,
            ),
    decreases jobs.len(),
{
    if jobs.len() > 0 {
        let rest = jobs.drop_last();
        lemma_peak_is_highest(heights, rest);
        let end = jobs.len() - 1;
        assert forall|at: int| 0 <= at < jobs.len() implies heights[(
        #[trigger] jobs[at]) as int] < peak(heights, jobs) by {
            if at < end {
                assert(rest[at] == jobs[at]);
            }
        }
        if peak(heights, jobs) == heights[jobs[end] as int] + 1 {
            assert(heights[jobs[end] as int] + 1 == peak(heights, jobs));
        } else {
            let at = choose|at: int|
                0 <= at < rest.len() && heights[(#[trigger] rest[at]) as int] + 1 == peak(
                    heights,
                    rest,
                );
            assert(heights[jobs[at] as int] + 1 == peak(heights, jobs));
        }
    }
}

/// A job that none follows has no height. Any other is higher than each job that follows it, and by
/// one than one of them.
pub proof fn heights_count_the_longest_way(
    successors: Seq<Seq<JobId>>,
    heights: Seq<u32>,
    job: int,
)
    requires
        measured(successors, heights),
        0 <= job < successors.len(),
    ensures
        successors[job].len() == 0 ==> heights[job] == 0,
        forall|at: int|
            0 <= at < successors[job].len() ==> heights[(#[trigger] successors[job][at]) as int]
                < heights[job],
        successors[job].len() > 0 ==> exists|at: int|
            0 <= at < successors[job].len() && heights[(#[trigger] successors[job][at]) as int] + 1
                == heights[job],
{
    assert(heights[job] == peak(heights, successors[job]));
    lemma_peak_is_highest(heights, successors[job]);
}

proof fn lemma_worth_at(left: Seq<int>, right: Seq<int>, at: int)
    requires
        0 <= at <= left.len(),
        left.len() == right.len(),
        left.take(at) == right.take(at),
        at < left.len() ==> left[at] != right[at],
    ensures
        worth_more(left, right) == (at < left.len() && left[at] > right[at]),
    decreases at,
{
    if at > 0 {
        assert(left.take(at)[0] == left[0] && right.take(at)[0] == right[0]);
        let l = left.drop_first();
        let r = right.drop_first();
        assert(l.take(at - 1) =~= left.take(at).drop_first());
        assert(r.take(at - 1) =~= right.take(at).drop_first());
        lemma_worth_at(l, r, at - 1);
    }
}

/// Of two lists of numbers the one that is greater where they first differ is worth more. Where they
/// do not differ, neither is.
pub proof fn the_first_difference_decides(left: &[i128], right: &[i128], at: int, more: bool)
    requires
        call_ensures(is_worth_more, (left, right), more),
        left@.len() == right@.len(),
        0 <= at <= left@.len(),
        forall|before: int| 0 <= before < at ==> #[trigger] left@[before] == right@[before],
        at < left@.len() ==> left@[at] != right@[at],
    ensures
        more == (at < left@.len() && left@[at] > right@[at]),
{
    let l = numbers(left@);
    let r = numbers(right@);
    assert(l.take(at) =~= r.take(at));
    lemma_worth_at(l, r, at);
}

pub(crate) proof fn lemma_first_difference(left: Seq<int>, right: Seq<int>, at: int)
    requires
        worth_more(left, right),
        left.len() == right.len(),
        0 <= at < left.len(),
    ensures
        (forall|before: int| 0 <= before < at ==> #[trigger] left[before] == right[before])
            ==> left[at] >= right[at],
{
    if forall|before: int| 0 <= before < at ==> #[trigger] left[before] == right[before] {
        assert(left.take(at) =~= right.take(at));
        if left[at] != right[at] {
            lemma_worth_at(left, right, at);
        }
    }
}

proof fn lemma_none_missing(list: Seq<JobId>, done: Set<JobId>, until: int)
    requires
        0 <= until <= list.len(),
        forall|at: int| 0 <= at < until ==> done.contains(#[trigger] list[at]),
    ensures
        missing(list, done, until) == 0,
    decreases until,
{
    if until > 0 {
        lemma_none_missing(list, done, until - 1);
    }
}

/// Whether all the predecessors of a job are among the first `until` of an order.
pub open spec fn free_at(
    predecessors: Seq<Seq<JobId>>,
    order: Seq<JobId>,
    until: int,
    job: JobId,
) -> bool {
    forall|at: int|
        0 <= at < predecessors[job as int].len() ==> order.take(until).contains(
            #[trigger] predecessors[job as int][at],
        )
}

proof fn lemma_taken_is_worth_more(
    predecessors: Seq<Seq<JobId>>,
    worths: Seq<Seq<int>>,
    order: Seq<JobId>,
    early: int,
    late: int,
)
    requires
        prioritized(predecessors, worths, order),
        permutes(order, predecessors.len() as int),
        0 <= early < late < order.len(),
        free_at(predecessors, order, early, order[late]),
    ensures
        worth_more(worths[order[early] as int], worths[order[late] as int]),
{
    let done = order.take(early).to_set();
    let other = order[late];
    assert(best_ready(predecessors, worths, done, order[early]));
    if order.take(early).contains(other) {
        let at = order.take(early).index_of(other);
        assert(order[at] == other);
    }
    let list = predecessors[other as int];
    assert forall|at: int| 0 <= at < list.len() implies done.contains(#[trigger] list[at]) by {
        assert(order.take(early).contains(list[at]));
    }
    lemma_none_missing(list, done, list.len() as int);
    assert(is_ready(predecessors, done, other));
    assert(other != order[early]);
}

/// In the order of the critical path, no job is taken while one could be taken that is higher, or as
/// high and followed by more jobs, or that goes before it by one of the numbers after these.
pub proof fn critical_paths_come_first(
    predecessors: &[Vec<JobId>],
    successors: &[Vec<JobId>],
    stats: &[JobStats],
    order: Vec<JobId>,
    early: int,
    late: int,
)
    requires
        call_ensures(
            build_priority_order,
            (VariantKind::CriticalPath, predecessors, successors, stats),
            order,
        ),
        stats@.len() == predecessors@.len(),
        0 <= early < late < order@.len(),
        free_at(lists(predecessors@), order@, early, order@[late]),
    ensures
        ({
            let left = order@[early];
            let right = order@[late];
            let first = stats@[left as int];
            let second = stats@[right as int];
            &&& first.strict_height >= second.strict_height
            &&& first.strict_height == second.strict_height ==> first.strict_fanout >=
                second.strict_fanout
            &&& first.strict_height == second.strict_height && first.strict_fanout ==
                second.strict_fanout ==> first.relaxed_degree >= second.relaxed_degree
            &&& first.strict_height == second.strict_height && first.strict_fanout ==
                second.strict_fanout && first.relaxed_degree == second.relaxed_degree
                ==> first.hot_write_score >= second.hot_write_score
            &&& first.strict_height == second.strict_height && first.strict_fanout ==
                second.strict_fanout && first.relaxed_degree == second.relaxed_degree
                && first.hot_write_score == second.hot_write_score ==> first.writes >= second.writes
            &&& first.strict_height == second.strict_height && first.strict_fanout ==
                second.strict_fanout && first.relaxed_degree == second.relaxed_degree
                && first.hot_write_score == second.hot_write_score && first.writes == second.writes
                ==> first.accesses >= second.accesses
            &&& first.strict_height == second.strict_height && first.strict_fanout ==
                second.strict_fanout && first.relaxed_degree == second.relaxed_degree
                && first.hot_write_score == second.hot_write_score && first.writes == second.writes
                && first.accesses == second.accesses ==> left < right
        }),
{
    let kind = VariantKind::CriticalPath;
    let worths = kind.worths(stats@);
    lemma_taken_is_worth_more(lists(predecessors@), worths, order@, early, late);
    let l = worths[order@[early] as int];
    let r = worths[order@[late] as int];
    lemma_first_difference(l, r, 0);
    lemma_first_difference(l, r, 1);
    lemma_first_difference(l, r, 2);
    lemma_first_difference(l, r, 3);
    lemma_first_difference(l, r, 4);
    lemma_first_difference(l, r, 5);
    lemma_first_difference(l, r, 6);
}

/// In the order that reads first, no job is taken while one could be taken that is higher, or as high
/// and reads more, or that goes before it by one of the numbers after these.
pub proof fn readers_come_first(
    predecessors: &[Vec<JobId>],
    successors: &[Vec<JobId>],
    stats: &[JobStats],
    order: Vec<JobId>,
    early: int,
    late: int,
)
    requires
        call_ensures(
            build_priority_order,
            (VariantKind::ReadHeavy, predecessors, successors, stats),
            order,
        ),
        stats@.len() == predecessors@.len(),
        0 <= early < late < order@.len(),
        free_at(lists(predecessors@), order@, early, order@[late]),
    ensures
        ({
            let left = order@[early];
            let right = order@[late];
            let first = stats@[left as int];
            let second = stats@[right as int];
            &&& first.strict_height >= second.strict_height
            &&& first.strict_height == second.strict_height ==> first.reads >= second.reads
            &&& first.strict_height == second.strict_height && first.reads == second.reads
                ==> first.hot_read_score >= second.hot_read_score
            &&& first.strict_height == second.strict_height && first.reads == second.reads
                && first.hot_read_score == second.hot_read_score ==> first.writes <= second.writes
            &&& first.strict_height == second.strict_height && first.reads == second.reads
                && first.hot_read_score == second.hot_read_score && first.writes == second.writes
                ==> first.hot_access_score >= second.hot_access_score
            &&& first.strict_height == second.strict_height && first.reads == second.reads
                && first.hot_read_score == second.hot_read_score && first.writes == second.writes
                && first.hot_access_score == second.hot_access_score ==> first.strict_fanout >=
                second.strict_fanout
            &&& first.strict_height == second.strict_height && first.reads == second.reads
                && first.hot_read_score == second.hot_read_score && first.writes == second.writes
                && first.hot_access_score == second.hot_access_score && first.strict_fanout ==
                second.strict_fanout ==> first.accesses >= second.accesses
            &&& first.strict_height == second.strict_height && first.reads == second.reads
                && first.hot_read_score == second.hot_read_score && first.writes == second.writes
                && first.hot_access_score == second.hot_access_score && first.strict_fanout ==
                second.strict_fanout && first.accesses == second.accesses ==> left < right
        }),
{
    let kind = VariantKind::ReadHeavy;
    let worths = kind.worths(stats@);
    lemma_taken_is_worth_more(lists(predecessors@), worths, order@, early, late);
    let l = worths[order@[early] as int];
    let r = worths[order@[late] as int];
    lemma_first_difference(l, r, 0);
    lemma_first_difference(l, r, 1);
    lemma_first_difference(l, r, 2);
    lemma_first_difference(l, r, 3);
    lemma_first_difference(l, r, 4);
    lemma_first_difference(l, r, 5);
    lemma_first_difference(l, r, 6);
    lemma_first_difference(l, r, 7);
}

/// In the order of contention, no job is taken while one could be taken that is higher, or as high and
/// writes hotter keys, or that goes before it by one of the numbers after these.
pub proof fn contended_writes_come_first(
    predecessors: &[Vec<JobId>],
    successors: &[Vec<JobId>],
    stats: &[JobStats],
    order: Vec<JobId>,
    early: int,
    late: int,
)
    requires
        call_ensures(
            build_priority_order,
            (VariantKind::HotContention, predecessors, successors, stats),
            order,
        ),
        stats@.len() == predecessors@.len(),
        0 <= early < late < order@.len(),
        free_at(lists(predecessors@), order@, early, order@[late]),
    ensures
        ({
            let left = order@[early];
            let right = order@[late];
            let first = stats@[left as int];
            let second = stats@[right as int];
            &&& first.strict_height >= second.strict_height
            &&& first.strict_height == second.strict_height ==> first.hot_write_score >=
                second.hot_write_score
            &&& first.strict_height == second.strict_height && first.hot_write_score ==
                second.hot_write_score ==> first.relaxed_degree >= second.relaxed_degree
            &&& first.strict_height == second.strict_height && first.hot_write_score ==
                second.hot_write_score && first.relaxed_degree == second.relaxed_degree
                ==> first.writes >= second.writes
            &&& first.strict_height == second.strict_height && first.hot_write_score ==
                second.hot_write_score && first.relaxed_degree == second.relaxed_degree
                && first.writes == second.writes ==> first.hot_access_score >=
                second.hot_access_score
            &&& first.strict_height == second.strict_height && first.hot_write_score ==
                second.hot_write_score && first.relaxed_degree == second.relaxed_degree
                && first.writes == second.writes && first.hot_access_score ==
                second.hot_access_score ==> first.strict_fanout >= second.strict_fanout
            &&& first.strict_height == second.strict_height && first.hot_write_score ==
                second.hot_write_score && first.relaxed_degree == second.relaxed_degree
                && first.writes == second.writes && first.hot_access_score ==
                second.hot_access_score && first.strict_fanout == second.strict_fanout
                ==> left < right
        }),
{
    let kind = VariantKind::HotContention;
    let worths = kind.worths(stats@);
    lemma_taken_is_worth_more(lists(predecessors@), worths, order@, early, late);
    let l = worths[order@[early] as int];
    let r = worths[order@[late] as int];
    lemma_first_difference(l, r, 0);
    lemma_first_difference(l, r, 1);
    lemma_first_difference(l, r, 2);
    lemma_first_difference(l, r, 3);
    lemma_first_difference(l, r, 4);
    lemma_first_difference(l, r, 5);
    lemma_first_difference(l, r, 6);
}

/// Where jobs are grouped into clusters, none is taken while one could be taken that is higher, or as
/// high and followed by more jobs, or that goes before it by one of the numbers after these.
pub proof fn clustered_jobs_are_taken_by_worth(
    predecessors: Seq<Seq<JobId>>,
    stats: Seq<JobStats>,
    order: Seq<JobId>,
    early: int,
    late: int,
)
    requires
        prioritized(predecessors, kernel_worths(stats), order),
        permutes(order, predecessors.len() as int),
        stats.len() == predecessors.len(),
        0 <= early < late < order.len(),
        free_at(predecessors, order, early, order[late]),
    ensures
        ({
            let left = order[early];
            let right = order[late];
            let first = stats[left as int];
            let second = stats[right as int];
            &&& first.strict_height >= second.strict_height
            &&& first.strict_height == second.strict_height ==> first.strict_fanout >=
                second.strict_fanout
            &&& first.strict_height == second.strict_height && first.strict_fanout ==
                second.strict_fanout ==> first.relaxed_degree >= second.relaxed_degree
            &&& first.strict_height == second.strict_height && first.strict_fanout ==
                second.strict_fanout && first.relaxed_degree == second.relaxed_degree
                ==> first.hot_write_score >= second.hot_write_score
            &&& first.strict_height == second.strict_height && first.strict_fanout ==
                second.strict_fanout && first.relaxed_degree == second.relaxed_degree
                && first.hot_write_score == second.hot_write_score ==> first.reads >= second.reads
            &&& first.strict_height == second.strict_height && first.strict_fanout ==
                second.strict_fanout && first.relaxed_degree == second.relaxed_degree
                && first.hot_write_score == second.hot_write_score && first.reads == second.reads
                ==> first.writes >= second.writes
            &&& first.strict_height == second.strict_height && first.strict_fanout ==
                second.strict_fanout && first.relaxed_degree == second.relaxed_degree
                && first.hot_write_score == second.hot_write_score && first.reads == second.reads
                && first.writes == second.writes ==> first.accesses >= second.accesses
            &&& first.strict_height == second.strict_height && first.strict_fanout ==
                second.strict_fanout && first.relaxed_degree == second.relaxed_degree
                && first.hot_write_score == second.hot_write_score && first.reads == second.reads
                && first.writes == second.writes && first.accesses == second.accesses
                ==> left < right
        }),
{
    let worths = kernel_worths(stats);
    lemma_taken_is_worth_more(predecessors, worths, order, early, late);
    let l = worths[order[early] as int];
    let r = worths[order[late] as int];
    lemma_first_difference(l, r, 0);
    lemma_first_difference(l, r, 1);
    lemma_first_difference(l, r, 2);
    lemma_first_difference(l, r, 3);
    lemma_first_difference(l, r, 4);
    lemma_first_difference(l, r, 5);
    lemma_first_difference(l, r, 6);
    lemma_first_difference(l, r, 7);
}

/// What is known of a job that accesses one key more: it has one access more, which is a write or a
/// read, and is hotter by how often the key is accessed and written. Writes count twice for the heat
/// of its reads and of its writes.
pub proof fn each_access_adds_to_a_job(
    accesses: Seq<AccessView>,
    access: AccessView,
    heat: Map<KeyView, KeyHeat>,
    degree: int,
    fanout: int,
    before: JobStats,
    after: JobStats,
)
    requires
        stats_tell(NormalView::Known(accesses), heat, degree, fanout, before),
        stats_tell(NormalView::Known(accesses.push(access)), heat, degree, fanout, after),
    ensures
        after.relaxed_degree == degree,
        after.strict_fanout == fanout,
        after.accesses == before.accesses + 1,
        after.writes == before.writes + if access.write {
            1int
        } else {
            0
        },
        after.reads == before.reads + if access.write {
            0int
        } else {
            1
        },
        after.hot_access_score == before.hot_access_score + heat[access.key].touches
            + heat[access.key].writes,
        after.hot_write_score == before.hot_write_score + if access.write {
            heat[access.key].touches + 2 * heat[access.key].writes
        } else {
            0
        },
        after.hot_read_score == before.hot_read_score + if access.write {
            0
        } else {
            heat[access.key].touches + 2 * heat[access.key].writes
        },
        accesses.len() == 0 ==> before.accesses == 0 && before.writes == 0 && before.reads == 0
            && before.hot_access_score == 0 && before.hot_read_score == 0 && before.hot_write_score
            == 0,
{
    let longer = accesses.push(access);
    let end = accesses.len() as int;
    lemma_same_counts(accesses, longer, heat, end);
}

proof fn lemma_same_counts(
    left: Seq<AccessView>,
    right: Seq<AccessView>,
    heat: Map<KeyView, KeyHeat>,
    until: int,
)
    requires
        until <= left.len(),
        until <= right.len(),
        forall|at: int| 0 <= at < until ==> #[trigger] left[at] == right[at],
    ensures
        count_kind(left, true, until) == count_kind(right, true, until),
        count_kind(left, false, until) == count_kind(right, false, until),
        access_heat(left, heat, until) == access_heat(right, heat, until),
        kind_heat(left, heat, true, until) == kind_heat(right, heat, true, until),
        kind_heat(left, heat, false, until) == kind_heat(right, heat, false, until),
    decreases until,
{
    if until > 0 {
        lemma_same_counts(left, right, heat, until - 1);
        assert(left[until - 1] == right[until - 1]);
    }
}

/// Whether a job accesses a key, or depends on everything where the key stands for that.
pub open spec fn turns_to(normal: NormalView, unknown_key: Option<KeyView>, key: KeyView) -> bool {
    match normal {
        NormalView::Unknown => unknown_key == Some(key),
        NormalView::Known(accesses) => exists|at: int|
            0 <= at < accesses.len() && (#[trigger] accesses[at]).key == key,
    }
}

/// Whether a job writes a key, or depends on everything where the key stands for that.
pub open spec fn turns_to_write(
    normal: NormalView,
    unknown_key: Option<KeyView>,
    key: KeyView,
) -> bool {
    match normal {
        NormalView::Unknown => unknown_key == Some(key),
        NormalView::Known(accesses) => exists|at: int|
            0 <= at < accesses.len() && (#[trigger] accesses[at]).key == key && accesses[at].write,
    }
}

/// A key is as hot as there are jobs that access it, and as there are jobs that write it. One that no
/// job accesses has no heat.
pub proof fn heat_counts_jobs(
    normals: Seq<NormalView>,
    unknown_key: Option<KeyView>,
    heat: Map<KeyView, KeyHeat>,
    key: KeyView,
)
    requires
        heat_tells(normals, unknown_key, heat, normals.len() as int),
    ensures
        ({
            let using = Set::new(
                |job: int| 0 <= job < normals.len() && turns_to(normals[job], unknown_key, key),
            );
            let writing = Set::new(
                |job: int|
                    0 <= job < normals.len() && turns_to_write(normals[job], unknown_key, key),
            );
            &&& using.finite()
            &&& writing.finite()
            &&& heat.contains_key(key) == (using.len() > 0)
            &&& heat.contains_key(key) ==> heat[key].touches == using.len() && heat[key].writes
                == writing.len()
        }),
{
    lemma_counts(normals, unknown_key, key, normals.len() as int);
}

proof fn lemma_counts(
    normals: Seq<NormalView>,
    unknown_key: Option<KeyView>,
    key: KeyView,
    until: int,
)
    requires
        0 <= until <= normals.len(),
    ensures
        ({
            let using = Set::new(
                |job: int| 0 <= job < until && turns_to(normals[job], unknown_key, key),
            );
            let writing = Set::new(
                |job: int| 0 <= job < until && turns_to_write(normals[job], unknown_key, key),
            );
            &&& using.finite()
            &&& writing.finite()
            &&& touches(normals, unknown_key, key, until) == using.len()
            &&& writes(normals, unknown_key, key, until) == writing.len()
        }),
    decreases until,
{
    let using = Set::new(|job: int| 0 <= job < until && turns_to(normals[job], unknown_key, key));
    let writing = Set::new(
        |job: int| 0 <= job < until && turns_to_write(normals[job], unknown_key, key),
    );
    if until > 0 {
        let last = until - 1;
        lemma_counts(normals, unknown_key, key, last);
        let fewer = Set::new(|job: int| 0 <= job < last && turns_to(normals[job], unknown_key, key));
        let fewer_writing = Set::new(
            |job: int| 0 <= job < last && turns_to_write(normals[job], unknown_key, key),
        );
        assert(counts_for(normals[last], unknown_key, key) == turns_to(
            normals[last],
            unknown_key,
            key,
        ));
        assert(counts_as_write(normals[last], unknown_key, key) == turns_to_write(
            normals[last],
            unknown_key,
            key,
        ));
        if turns_to(normals[last], unknown_key, key) {
            assert(using =~= fewer.insert(last));
        } else {
            assert(using =~= fewer);
        }
        if turns_to_write(normals[last], unknown_key, key) {
            assert(writing =~= fewer_writing.insert(last));
        } else {
            assert(writing =~= fewer_writing);
        }
    } else {
        assert(using =~= Set::<int>::empty());
        assert(writing =~= Set::<int>::empty());
    }
}

/// A job that depends on everything counts as one write, and as hot as that.
pub proof fn jobs_on_everything_count_as_one_write(
    heat: Map<KeyView, KeyHeat>,
    degree: int,
    fanout: int,
    stats: JobStats,
)
    requires
        stats_tell(NormalView::Unknown, heat, degree, fanout, stats),
    ensures
        stats.relaxed_degree == degree,
        stats.strict_fanout == fanout,
        stats.accesses == 1,
        stats.writes == 1,
        stats.reads == 0,
        stats.hot_access_score == 1,
        stats.hot_write_score == 1,
        stats.hot_read_score == 0,
{
}

} // verus!

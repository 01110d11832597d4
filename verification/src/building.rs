//! What groups that are built from ready jobs take in, and when they are used.

use crate::dag::{essential, reduced, JobId};
use crate::depend::DependencyView;
use crate::frontier::{
    field_of, layout_cost, lemma_one_group, placed_before, prefers_built, waves, widest, Field,
};
use crate::groups::takes;
use crate::measures::lemma_first_difference;
use crate::normalize::{has_unknown, relation_of, NormalizedDeps, Relation};
use crate::order::worth_more;
use crate::plan::{relation_between, strictly_after};
use crate::waits::missing;
use vstd::prelude::*;

verus! {

proof fn lemma_somebody_is_missing(list: Seq<JobId>, done: Set<JobId>, until: int) -> (at: int)
    requires
        0 <= until <= list.len(),
        missing(list, done, until) != 0,
    ensures
        0 <= at < until,
        !done.contains(list[at]),
    decreases until,
{
    if !done.contains(list[until - 1]) {
        until - 1
    } else {
        lemma_somebody_is_missing(list, done, until - 1)
    }
}

/// A job is left out of a group only for a reason. Where it is in a later one, it is related to a job
/// of the group, or strictly related to an earlier job that is in no group before that one.
pub proof fn ready_jobs_are_left_out_for_a_reason(
    declared: Seq<Seq<DependencyView>>,
    field: Field,
    groups: Seq<Seq<JobId>>,
    group: int,
    later: int,
    job: JobId,
)
    requires
        field_of(declared, field),
        field.built(groups),
        declared.len() <= u32::MAX,
        0 <= group < later < groups.len(),
        groups[later].contains(job),
    ensures
        job < declared.len(),
        (exists|member: JobId| #[trigger]
            groups[group].contains(member) && relation_of(
                declared[member as int],
                declared[job as int],
            ) != Relation::Free) || (exists|other: JobId, at: int|
            group <= at < groups.len() && #[trigger] groups[at].contains(other) && other < job
                && relation_of(declared[other as int], declared[job as int]) == Relation::Strict),
{
    let done = placed_before(groups, group);
    assert(placed_before(groups, groups.len() as int).contains(job));
    assert(field.next_group(done, groups[group]));
    let picks = choose|picks: Seq<JobId>| #[trigger]
        field.picked_by_worth(done, picks) && (forall|job: JobId|
            !#[trigger] field.is_candidate(done, picks, job)) && groups[group].to_set()
            == picks.to_set();
    assert(!field.is_candidate(done, picks, job));
    if done.contains(job) {
        let before = choose|before: int|
            0 <= before < group && (#[trigger] groups[before]).contains(job);
        lemma_one_group(field, groups, before, later, job);
    }
    assert forall|member: JobId| picks.contains(member) == #[trigger] groups[group].contains(
        member,
    ) by {
        assert(picks.to_set().contains(member) == groups[group].to_set().contains(member));
    }
    if picks.contains(job) {
        assert(groups[group].contains(job));
        lemma_one_group(field, groups, group, later, job);
    }
    let own = field.predecessors[job as int];
    if missing(own, done, own.len() as int) != 0 {
        let at = lemma_somebody_is_missing(own, done, own.len() as int);
        let other = own[at];
        lemma_predecessor(declared, field, job, at);
        assert(placed_before(groups, groups.len() as int).contains(other));
        let place = choose|place: int|
            0 <= place < groups.len() && (#[trigger] groups[place]).contains(other);
        if place < group {
            assert(done.contains(other));
        }
        assert(groups[place].contains(other));
    } else {
        assert(field.is_ready(done, job));
        assert(!takes(declared, picks.to_set(), job as int));
        let member = if has_unknown(declared[job as int]) {
            picks[0]
        } else {
            choose|member: JobId| #[trigger]
                picks.to_set().contains(member) && relation_of(
                    declared[member as int],
                    declared[job as int],
                ) != Relation::Free
        };
        assert(picks.contains(member));
        assert(groups[group].contains(member));
    }
}

proof fn lemma_predecessor(
    declared: Seq<Seq<DependencyView>>,
    field: Field,
    job: JobId,
    at: int,
)
    requires
        field_of(declared, field),
        job < declared.len() <= u32::MAX,
        0 <= at < field.predecessors[job as int].len(),
    ensures
        field.predecessors[job as int][at] < job,
        relation_of(
            declared[field.predecessors[job as int][at] as int],
            declared[job as int],
        ) == Relation::Strict,
{
    let (candidates, successors) = choose|
        candidates: Seq<Seq<JobId>>,
        successors: Seq<Seq<JobId>>,
    |
        {
            &&& #[trigger] reduced(candidates, field.predecessors)
            &&& strictly_after(declared, candidates)
            &&& #[trigger] crate::dag::inverted(field.predecessors, successors)
            &&& crate::dag::measured(successors, field.heights)
        };
    let other = field.predecessors[job as int][at];
    assert(field.predecessors[job as int].contains(other));
    let index = choose|index: int| #[trigger]
        essential(candidates, job as int, index) && candidates[job as int][index] == other;
    assert(candidates[job as int].contains(other));
    reveal(relation_between);
}

/// A group is started with the highest of the jobs that are ready. Of those that are as high it is
/// one with the most neighbors that are not placed, of these one that accesses the most keys, and of
/// these the first.
pub proof fn groups_start_with_the_highest_job(
    field: Field,
    done: Set<JobId>,
    picks: Seq<JobId>,
    other: JobId,
)
    requires
        field.picked_by_worth(done, picks),
        field.is_ready(done, other),
        other != picks[0],
    ensures
        ({
            let first = picks[0];
            let height = field.heights[first as int];
            let other_height = field.heights[other as int];
            let open = field.open_neighbors(done, first);
            let other_open = field.open_neighbors(done, other);
            let keys = crate::frontier::access_count(field.normals[first as int]);
            let other_keys = crate::frontier::access_count(field.normals[other as int]);
            &&& height >= other_height
            &&& height == other_height ==> open >= other_open
            &&& height == other_height && open == other_open ==> keys >= other_keys
            &&& height == other_height && open == other_open && keys == other_keys ==> first < other
        }),
{
    let l = field.seed_worth(done, picks[0]);
    let r = field.seed_worth(done, other);
    assert(worth_more(l, r));
    lemma_first_difference(l, r, 0);
    lemma_first_difference(l, r, 1);
    lemma_first_difference(l, r, 2);
    lemma_first_difference(l, r, 3);
}

/// A group goes on with the job that has the fewest neighbors that are not placed, among those that
/// may be added. Of these it is one that shares the most neighbors with the jobs of the group, of
/// these one of the highest, of these one that accesses the most keys, and of these the first.
pub proof fn groups_go_on_with_the_least_contended_job(
    field: Field,
    done: Set<JobId>,
    picks: Seq<JobId>,
    at: int,
    other: JobId,
)
    requires
        field.picked_by_worth(done, picks),
        1 <= at < picks.len(),
        field.is_candidate(done, picks.take(at), other),
        other != picks[at],
    ensures
        ({
            let next = picks[at];
            let before = picks.take(at);
            let open = field.open_neighbors(done, next);
            let other_open = field.open_neighbors(done, other);
            let shared = field.overlap(next, before, at);
            let other_shared = field.overlap(other, before, at);
            let height = field.heights[next as int];
            let other_height = field.heights[other as int];
            let keys = crate::frontier::access_count(field.normals[next as int]);
            let other_keys = crate::frontier::access_count(field.normals[other as int]);
            &&& open <= other_open
            &&& open == other_open ==> shared >= other_shared
            &&& open == other_open && shared == other_shared ==> height >= other_height
            &&& open == other_open && shared == other_shared && height == other_height ==> keys
                >= other_keys
            &&& open == other_open && shared == other_shared && height == other_height && keys
                == other_keys ==> next < other
        }),
{
    let before = picks.take(at);
    assert(field.picked_next(done, before, picks[at]));
    let l = field.candidate_worth(done, before, picks[at]);
    let r = field.candidate_worth(done, before, other);
    assert(worth_more(l, r));
    lemma_first_difference(l, r, 0);
    lemma_first_difference(l, r, 1);
    lemma_first_difference(l, r, 2);
    lemma_first_difference(l, r, 3);
    lemma_first_difference(l, r, 4);
}

/// As many of the first jobs of a list are missing as are not done.
pub proof fn what_is_missing_is_not_done(list: Seq<JobId>, done: Set<JobId>, until: int)
    requires
        0 <= until <= list.len(),
    ensures
        missing(list, done, until) == list.take(until).filter(
            |job: JobId| !done.contains(job),
        ).len(),
    decreases until,
{
    let undone = |job: JobId| !done.contains(job);
    reveal(Seq::filter);
    if until > 0 {
        what_is_missing_is_not_done(list, done, until - 1);
        assert(list.take(until).drop_last() =~= list.take(until - 1));
        assert(list.take(until).last() == list[until - 1]);
    }
}

/// How many jobs are neighbors of both of two jobs is how many there are in both lists.
pub proof fn common_neighbors_are_in_both_lists(
    neighbors: Seq<Seq<JobId>>,
    left: JobId,
    right: JobId,
    until: int,
)
    requires
        0 <= until <= u32::MAX,
    ensures
        ({
            let common = Set::new(
                |job: int|
                    0 <= job < until && neighbors[left as int].contains(job as JobId)
                        && neighbors[right as int].contains(job as JobId),
            );
            &&& common.finite()
            &&& crate::frontier::common_neighbors(neighbors, left, right, until) == common.len()
        }),
    decreases until,
{
    let common = Set::new(
        |job: int|
            0 <= job < until && neighbors[left as int].contains(job as JobId)
                && neighbors[right as int].contains(job as JobId),
    );
    if until > 0 {
        common_neighbors_are_in_both_lists(neighbors, left, right, until - 1);
        let fewer = Set::new(
            |job: int|
                0 <= job < until - 1 && neighbors[left as int].contains(job as JobId)
                    && neighbors[right as int].contains(job as JobId),
        );
        if neighbors[left as int].contains((until - 1) as JobId)
            && neighbors[right as int].contains((until - 1) as JobId) {
            assert(common =~= fewer.insert(until - 1));
        } else {
            assert(common =~= fewer);
        }
    } else {
        assert(common =~= Set::<int>::empty());
    }
}

/// A group more takes as many rounds more as are needed for each of its jobs to be run by one of the
/// threads in one of the rounds, and no more.
pub proof fn rounds_are_as_many_as_needed(groups: Seq<Seq<JobId>>, threads: int, until: int)
    requires
        1 <= threads,
        0 < until <= groups.len(),
    ensures
        ({
            let rounds = waves(groups, threads, until) - waves(groups, threads, until - 1);
            let jobs = groups[until - 1].len() as int;
            &&& jobs <= rounds * threads < jobs + threads
        }),
        waves(groups, threads, 0) == 0,
{
    let jobs = groups[until - 1].len() as int;
    let rounds = (jobs + threads - 1) / threads;
    assert(jobs <= rounds * threads < jobs + threads) by (nonlinear_arith)
        requires
            rounds == (jobs + threads - 1) / threads,
            1 <= threads,
            0 <= jobs,
    ;
}

/// No group is wider than the widest, and one is as wide, unless there is none.
pub proof fn the_widest_group_is_widest(groups: Seq<Seq<JobId>>, until: int, at: int)
    requires
        0 <= at < until <= groups.len(),
    ensures
        groups[at].len() <= widest(groups, until),
        exists|group: int|
            0 <= group < until && (#[trigger] groups[group]).len() == widest(groups, until),
    decreases until,
{
    if until > 1 {
        the_widest_group_is_widest(groups, until - 1, if at < until - 1 {
            at
        } else {
            0
        });
        let before = choose|group: int|
            0 <= group < until - 1 && (#[trigger] groups[group]).len() == widest(groups, until - 1);
        if widest(groups, until) == widest(groups, until - 1) {
            assert(groups[before].len() == widest(groups, until));
        } else {
            assert(groups[until - 1].len() == widest(groups, until));
        }
    } else {
        assert(widest(groups, 0) == 0);
        assert(groups[0].len() == widest(groups, until));
    }
}

/// Groups that were built from ready jobs are used exactly where none of them has more jobs than there
/// are threads, and they take fewer rounds than the others, or as many and are fewer, or are as many
/// and less wide.
pub proof fn built_groups_are_used_where_they_cost_less(
    built: Seq<Seq<JobId>>,
    fitted: Seq<Seq<JobId>>,
    threads: int,
)
    requires
        1 <= threads,
    ensures
        ({
            let rounds = waves(built, threads, built.len() as int);
            let other_rounds = waves(fitted, threads, fitted.len() as int);
            let width = widest(built, built.len() as int);
            let other_width = widest(fitted, fitted.len() as int);
            prefers_built(built, fitted, threads) == (width <= threads && (rounds < other_rounds
                || rounds == other_rounds && (built.len() < fitted.len() || built.len()
                == fitted.len() && width < other_width)))
        }),
        built.len() > 0 && widest(built, built.len() as int) > 0 ==> !prefers_built(
            built,
            fitted,
            0,
        ),
{
    let l = layout_cost(fitted, threads);
    let r = layout_cost(built, threads);
    reveal_with_fuel(worth_more, 4);
    assert(l.drop_first()[0] == l[1]);
    assert(r.drop_first()[0] == r[1]);
    assert(l.drop_first().drop_first()[0] == l[2]);
    assert(r.drop_first().drop_first()[0] == r[2]);
}

/// A job accesses as many keys as its normal form holds, and none that can be counted where it depends
/// on everything.
pub proof fn accessed_keys_are_counted(dependencies: NormalizedDeps, count: usize)
    requires
        call_ensures(NormalizedDeps::access_count, (&dependencies,), count),
    ensures
        match dependencies {
            NormalizedDeps::Unknown => count == 0,
            NormalizedDeps::Known(accesses) => count == accesses@.len(),
        },
{
}

/// What a job has in common with the jobs of a group is what it has in common with each of them, added
/// up.
pub proof fn common_neighbors_add_up(field: Field, job: JobId, picks: Seq<JobId>, next: JobId)
    ensures
        field.overlap(job, picks.push(next), picks.len() as int + 1) == field.overlap(
            job,
            picks,
            picks.len() as int,
        ) + crate::frontier::common_neighbors(field.neighbors, job, next, field.count()),
        field.overlap(job, picks, 0) == 0,
{
    lemma_overlap_prefix(field, job, picks.push(next), picks, picks.len() as int);
}

proof fn lemma_overlap_prefix(
    field: Field,
    job: JobId,
    left: Seq<JobId>,
    right: Seq<JobId>,
    until: int,
)
    requires
        until <= left.len(),
        until <= right.len(),
        forall|at: int| 0 <= at < until ==> #[trigger] left[at] == right[at],
    ensures
        field.overlap(job, left, until) == field.overlap(job, right, until),
    decreases until,
{
    if until > 0 {
        lemma_overlap_prefix(field, job, left, right, until - 1);
        assert(left[until - 1] == right[until - 1]);
    }
}

} // verus!

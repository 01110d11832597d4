//! Running the jobs of a schedule of pages. The jobs that wait for none are tried first. When a job
//! has finished, the jobs that it may have hindered are tried again, and those that waited for it
//! only are tried.

use crate::attend::{
    complete_runs_leave_pages_at_rest, completed_jobs_are_attended, found_on, lemma_ready_residents,
    lemma_still_carries, marked_jobs_are_attended, paged_runs_leave_no_job_behind,
    released_jobs_are_attended, runs_begin_attended, scanned_after, scanned_pages_are_attended,
    started_jobs_are_attended, woken_by,
};
use crate::dag::{ascending, JobId};
use crate::depend::DependencyView;
use crate::layout::joined;
use crate::normalize::{relation_of, Relation};
use crate::order::within;
use crate::pages::{
    completed_jobs_stay_in_step, last_waits, lemma_completed_sound, lemma_released_sound,
    lemma_same_sound, locks, marking_keeps_jobs_apart, other_pages, planned, ready_residents,
    releasing_keeps_jobs_apart, running_jobs_do_not_conflict, starting_keeps_jobs_apart,
    strict_jobs_run_in_order, Attempt, PageId, Plan, Schedule,
};
use crate::plan::{lemma_reduced_is_proper, lemma_strict_is_backward, relation_between};
use crate::waits::{in_step, missing, starting_stays_in_step};
use crate::word::{lock_of, mask_bit, ready_of};
use vstd::prelude::*;

verus! {

impl<R> Schedule<R> {
    /// Whether `after` is the schedule once a job was tried, and `attempt` is what came of it.
    pub open spec fn tried(self, job: JobId, attempt: Attempt, after: Self) -> bool {
        match attempt {
            Attempt::Waiting => self.jobs@[job as int].strict_wait != 0 && after == self,
            Attempt::Started => {
                &&& self.jobs@[job as int].strict_wait == 0
                &&& self.unlocked(job as int)
                &&& self.starts(job as int, after)
            },
            Attempt::Blocked => {
                &&& self.jobs@[job as int].strict_wait == 0
                &&& !self.unlocked(job as int)
                &&& self.marks(job as int, after)
            },
        }
    }

    /// Whether jobs were tried one after another, each with the given outcome, and `states` are the
    /// schedules in between.
    pub open spec fn try_path(
        self,
        list: Seq<JobId>,
        attempts: Seq<Attempt>,
        states: Seq<Self>,
    ) -> bool {
        &&& attempts.len() == list.len()
        &&& states.len() == list.len() + 1
        &&& states[0] == self
        &&& forall|index: int|
            #![trigger list[index]]
            0 <= index < list.len() ==> states[index].tried(
                list[index],
                attempts[index],
                states[index + 1],
            )
    }

    /// Whether `after` is the schedule once jobs were tried one after another, and `started` are
    /// those that started.
    pub open spec fn tries(self, list: Seq<JobId>, started: Seq<JobId>, after: Self) -> bool {
        exists|attempts: Seq<Attempt>, states: Seq<Self>|
            {
                &&& #[trigger] self.try_path(list, attempts, states)
                &&& states.last() == after
                &&& started == started_of(list, attempts, list.len() as int)
            }
    }

    /// Whether pages were scanned one after another, and the jobs that were found were tried, of
    /// which those in `lists` started; `states` are the schedules in between.
    pub open spec fn scan_path(
        self,
        list: Seq<PageId>,
        lists: Seq<Seq<JobId>>,
        states: Seq<Self>,
    ) -> bool {
        &&& lists.len() == list.len()
        &&& states.len() == list.len() + 1
        &&& states[0] == self
        &&& forall|index: int|
            #![trigger list[index]]
            0 <= index < list.len() ==> states[index].tries(
                found_on(states[index], list[index]),
                lists[index],
                states[index + 1],
            )
    }

    /// Whether `after` is the schedule once pages were scanned one after another, and the jobs that
    /// were found were tried; `started` are those that started.
    pub open spec fn scans(self, list: Seq<PageId>, started: Seq<JobId>, after: Self) -> bool {
        exists|lists: Seq<Seq<JobId>>, states: Seq<Self>|
            {
                &&& #[trigger] self.scan_path(list, lists, states)
                &&& states.last() == after
                &&& started == joined(lists, lists.len() as int)
            }
    }

    /// Whether `after` is the schedule once a job has finished, and `started` are the jobs that
    /// started on that account.
    pub open spec fn moves_on(self, job: JobId, started: Seq<JobId>, after: Self) -> bool {
        exists|released: Self, scanned: Self, told: Self, found: Seq<JobId>, woken: Seq<JobId>|
            {
                &&& #[trigger] self.releases(job as int, released)
                &&& #[trigger] released.scans(scanned_after(released, job), found, scanned)
                &&& #[trigger] scanned.completes(job as int, told)
                &&& #[trigger] told.tries(woken_by(scanned, job), woken, after)
                &&& started == found + woken
            }
    }

    /// Tries jobs one after another, and returns those that started.
    pub fn try_jobs(&mut self, jobs: &Vec<JobId>) -> (started: Vec<JobId>)
        requires
            old(self).sound(),
            within(jobs@, old(self).jobs@.len() as int),
        ensures
            final(self).sound(),
            final(self).jobs@.len() == old(self).jobs@.len(),
            final(self).pages@.len() == old(self).pages@.len(),
            old(self).tries(jobs@, started@, *final(self)),
    {
        let ghost before = *self;
        let ghost mut attempts: Seq<Attempt> = Seq::empty();
        let ghost mut states: Seq<Self> = seq![before];
        let mut started: Vec<JobId> = Vec::new();
        for index in 0..jobs.len()
            invariant
                self.sound(),
                *old(self) == before,
                self.jobs@.len() == before.jobs@.len(),
                self.pages@.len() == before.pages@.len(),
                within(jobs@, before.jobs@.len() as int),
                before.try_path(jobs@.take(index as int), attempts, states),
                states.last() == *self,
                started@ == started_of(jobs@, attempts, index as int),
        {
            let ghost between = *self;
            let ghost earlier = attempts;
            let job: JobId = jobs[index];
            let attempt = self.attempt_job(job);
            assert(between.tried(job, attempt, *self));
            if attempt == Attempt::Started {
                started.push(job);
            }
            proof {
                let list = jobs@.take(index + 1);
                assert(list.drop_last() =~= jobs@.take(index as int));
                before.lemma_one_more_tried(list, attempts, states, attempt, *self);
                attempts = attempts.push(attempt);
                states = states.push(*self);
                lemma_started_of(jobs@, earlier, attempts, index as int);
            }
        }
        assert(jobs@.take(jobs@.len() as int) =~= jobs@);
        started
    }

    proof fn lemma_one_more_tried(
        self,
        list: Seq<JobId>,
        attempts: Seq<Attempt>,
        states: Seq<Self>,
        attempt: Attempt,
        after: Self,
    )
        requires
            list.len() > 0,
            self.try_path(list.drop_last(), attempts, states),
            states.last().tried(list.last(), attempt, after),
        ensures
            self.try_path(list, attempts.push(attempt), states.push(after)),
    {
        let shorter = list.drop_last();
        assert forall|index: int|
            #![trigger list[index]]
            0 <= index < list.len() implies states.push(after)[index].tried(
            list[index],
            attempts.push(attempt)[index],
            states.push(after)[index + 1],
        ) by {
            if index < shorter.len() {
                assert(shorter[index] == list[index]);
            }
        }
    }

    proof fn lemma_one_more_scanned(
        self,
        list: Seq<PageId>,
        lists: Seq<Seq<JobId>>,
        states: Seq<Self>,
        more: Seq<JobId>,
        after: Self,
    )
        requires
            list.len() > 0,
            self.scan_path(list.drop_last(), lists, states),
            states.last().tries(found_on(states.last(), list.last()), more, after),
        ensures
            self.scan_path(list, lists.push(more), states.push(after)),
    {
        let shorter = list.drop_last();
        assert forall|index: int|
            #![trigger list[index]]
            0 <= index < list.len() implies states.push(after)[index].tries(
            found_on(states.push(after)[index], list[index]),
            lists.push(more)[index],
            states.push(after)[index + 1],
        ) by {
            if index < shorter.len() {
                assert(shorter[index] == list[index]);
            }
        }
    }

    /// Begins a run, and returns the jobs that started.
    pub fn begin_run(&mut self) -> (started: Vec<JobId>)
        requires
            old(self).sound(),
            within(old(self).roots@, old(self).jobs@.len() as int),
        ensures
            final(self).sound(),
            final(self).jobs@.len() == old(self).jobs@.len(),
            final(self).pages@.len() == old(self).pages@.len(),
            old(self).tries(old(self).roots@, started@, *final(self)),
    {
        let mut roots: Vec<JobId> = Vec::new();
        for index in 0..self.roots.len()
            invariant
                *self == *old(self),
                roots@ == self.roots@.take(index as int),
        {
            roots.push(self.roots[index]);
            assert(roots@ =~= self.roots@.take(index + 1));
        }
        assert(roots@ =~= self.roots@);
        self.try_jobs(&roots)
    }

    /// Takes note that a job has finished, and returns the jobs that started on that account.
    pub fn finish_job(&mut self, job: JobId) -> (started: Vec<JobId>)
        requires
            old(self).sound(),
            job < old(self).jobs@.len(),
        ensures
            final(self).sound(),
            final(self).jobs@.len() == old(self).jobs@.len(),
            final(self).pages@.len() == old(self).pages@.len(),
            old(self).moves_on(job, started@, *final(self)),
    {
        let ghost before = *self;
        self.release_job(job);
        let ghost released = *self;
        let pages = self.pages_to_scan(job);
        let mut started: Vec<JobId> = Vec::new();
        let ghost mut lists: Seq<Seq<JobId>> = Seq::empty();
        let ghost mut states: Seq<Self> = seq![released];
        assert(pages@ == scanned_after(released, job));
        for index in 0..pages.len()
            invariant
                self.sound(),
                self.jobs@.len() == before.jobs@.len(),
                self.pages@.len() == before.pages@.len(),
                within(pages@, before.pages@.len() as int),
                released.scan_path(pages@.take(index as int), lists, states),
                states.last() == *self,
                started@ == joined(lists, index as int),
        {
            let ghost between = *self;
            let ghost earlier = lists;
            let page: PageId = pages[index];
            let found = self.scan_page(page);
            assert(found@ == found_on(between, page));
            let mut more = self.try_jobs(&found);
            let ghost tail = more@;
            started.append(&mut more);
            proof {
                let list = pages@.take(index + 1);
                assert(list.drop_last() =~= pages@.take(index as int));
                released.lemma_one_more_scanned(list, lists, states, tail, *self);
                lists = lists.push(tail);
                states = states.push(*self);
                lemma_joined_prefix(earlier, lists, index as int);
            }
        }
        assert(pages@.take(pages@.len() as int) =~= pages@);
        let ghost scanned = *self;
        let ghost found = started@;
        let woken = self.complete_job(job);
        let ghost told = *self;
        assert(woken@ == woken_by(scanned, job));
        assert(within(woken@, told.jobs@.len() as int)) by {
            lemma_woken_within(scanned, job);
        }
        let mut more = self.try_jobs(&woken);
        let ghost tail = more@;
        started.append(&mut more);
        proof {
            assert(before.releases(job as int, released));
            assert(released.scans(scanned_after(released, job), found, scanned));
            assert(scanned.completes(job as int, told));
            assert(told.tries(woken_by(scanned, job), tail, *self));
            assert(started@ == found + tail);
        }
        started
    }
}

/// Those of the first `until` jobs of a list that started when they were tried.
pub open spec fn started_of(
    list: Seq<JobId>,
    attempts: Seq<Attempt>,
    until: int,
) -> Seq<JobId>
    decreases until,
{
    if until <= 0 {
        Seq::empty()
    } else {
        let before = started_of(list, attempts, until - 1);
        if attempts[until - 1] == Attempt::Started {
            before.push(list[until - 1])
        } else {
            before
        }
    }
}

proof fn lemma_started_of(
    list: Seq<JobId>,
    shorter: Seq<Attempt>,
    longer: Seq<Attempt>,
    until: int,
)
    requires
        0 <= until <= shorter.len() <= longer.len(),
        forall|index: int| 0 <= index < until ==> #[trigger] shorter[index] == longer[index],
    ensures
        started_of(list, shorter, until) == started_of(list, longer, until),
    decreases until,
{
    if until > 0 {
        lemma_started_of(list, shorter, longer, until - 1);
        assert(shorter[until - 1] == longer[until - 1]);
    }
}

proof fn lemma_joined_prefix(shorter: Seq<Seq<JobId>>, longer: Seq<Seq<JobId>>, until: int)
    requires
        0 <= until <= shorter.len() <= longer.len(),
        forall|index: int| 0 <= index < until ==> #[trigger] shorter[index] == longer[index],
    ensures
        joined(shorter, until) == joined(longer, until),
    decreases until,
{
    if until > 0 {
        lemma_joined_prefix(shorter, longer, until - 1);
        assert(shorter[until - 1] == longer[until - 1]);
    }
}

proof fn lemma_woken_within<R>(schedule: Schedule<R>, job: JobId)
    requires
        schedule.sound(),
        job < schedule.jobs@.len(),
    ensures
        within(woken_by(schedule, job), schedule.jobs@.len() as int),
{
    let list = schedule.successors_of(job as int);
    assert(schedule.jobs@[job as int].home.slot < 32);
    crate::attend::lemma_last_waits(schedule, list, list.len() as int);
    let woken = woken_by(schedule, job);
    assert forall|index: int| 0 <= index < woken.len() implies (#[trigger] woken[index])
        < schedule.jobs@.len() by {
        assert(woken.contains(woken[index]));
        assert(list.contains(woken[index]));
    }
}

impl<R> Schedule<R> {
    /// Whether a run is in order: the jobs that run hold the locks, no job is left behind, and each
    /// job that has not started waits for those of its predecessors that are not done.
    pub open spec fn keeps(
        self,
        plan: Plan,
        started: Set<JobId>,
        done: Set<JobId>,
        running: Set<JobId>,
        pages: Set<PageId>,
        jobs: Set<JobId>,
    ) -> bool {
        &&& self.sound()
        &&& self.carries(plan)
        &&& self.exclusive(running)
        &&& self.attended(started, running, pages, jobs)
        &&& in_step(plan.predecessors, self.waits(), started, done)
    }

    /// Whether a run is in order in which some jobs are done, some run, and nothing is left to scan
    /// or to try.
    pub open spec fn proceeds(self, plan: Plan, done: Set<JobId>, running: Set<JobId>) -> bool {
        &&& done.disjoint(running)
        &&& self.keeps(plan, done.union(running), done, running, Set::empty(), Set::empty())
    }
}

/// Trying a job that is to be tried keeps a run in order.
proof fn lemma_tried_keeps<R>(
    declared: Seq<Seq<DependencyView>>,
    plan: Plan,
    before: Schedule<R>,
    after: Schedule<R>,
    started: Set<JobId>,
    done: Set<JobId>,
    running: Set<JobId>,
    pages: Set<PageId>,
    jobs: Set<JobId>,
    job: JobId,
    attempt: Attempt,
)
    requires
        planned(declared, plan),
        declared.len() <= u32::MAX,
        before.keeps(plan, started, done, running, pages, jobs),
        jobs.contains(job),
        before.tried(job, attempt, after),
    ensures
        attempt == Attempt::Started ==> after.keeps(
            plan,
            started.insert(job),
            done,
            running.insert(job),
            pages,
            jobs.remove(job),
        ),
        attempt != Attempt::Started ==> after.keeps(
            plan,
            started,
            done,
            running,
            pages,
            jobs.remove(job),
        ),
{
    assert(job < before.jobs@.len() && !started.contains(job));
    match attempt {
        Attempt::Waiting => {},
        Attempt::Started => {
            started_jobs_are_attended(
                declared,
                plan,
                before,
                after,
                started,
                running,
                pages,
                jobs,
                job,
            );
            starting_keeps_jobs_apart(before, after, job, running);
            lemma_same_sound(before, after);
            let waits = before.waits();
            assert(after.waits() =~= waits);
            starting_stays_in_step(
                plan.predecessors,
                waits,
                started,
                done,
                job,
                waits[job as int],
            );
            assert(waits.update(job as int, waits[job as int]) =~= waits);
        },
        Attempt::Blocked => {
            marked_jobs_are_attended(
                declared,
                plan,
                before,
                after,
                started,
                running,
                pages,
                jobs,
                job,
            );
            marking_keeps_jobs_apart(before, after, job, running);
            lemma_same_sound(before, after);
            assert(after.waits() =~= before.waits());
        },
    }
}

/// Trying jobs one after another keeps a run in order.
proof fn lemma_path_keeps<R>(
    declared: Seq<Seq<DependencyView>>,
    plan: Plan,
    before: Schedule<R>,
    started: Set<JobId>,
    done: Set<JobId>,
    running: Set<JobId>,
    pages: Set<PageId>,
    jobs: Set<JobId>,
    list: Seq<JobId>,
    attempts: Seq<Attempt>,
    states: Seq<Schedule<R>>,
    until: int,
)
    requires
        planned(declared, plan),
        declared.len() <= u32::MAX,
        before.keeps(plan, started, done, running, pages, jobs),
        list.no_duplicates(),
        forall|index: int| 0 <= index < list.len() ==> jobs.contains(#[trigger] list[index]),
        before.try_path(list, attempts, states),
        0 <= until <= list.len(),
    ensures
        ({
            let begun = started_of(list, attempts, until).to_set();
            states[until].keeps(
                plan,
                started.union(begun),
                done,
                running.union(begun),
                pages,
                jobs.difference(list.take(until).to_set()),
            )
        }),
        forall|job: JobId| #[trigger]
            started_of(list, attempts, until).contains(job) ==> list.take(until).contains(job),
    decreases until,
{
    let first = started_of(list, attempts, until);
    if until == 0 {
        assert(first.to_set() =~= Set::empty());
        assert(list.take(0).to_set() =~= Set::empty());
        assert(started.union(first.to_set()) =~= started);
        assert(running.union(first.to_set()) =~= running);
        assert(jobs.difference(list.take(0).to_set()) =~= jobs);
    } else {
        let at = until - 1;
        let earlier = started_of(list, attempts, at);
        let begun = earlier.to_set();
        let left = jobs.difference(list.take(at).to_set());
        let job = list[at];
        lemma_path_keeps(
            declared,
            plan,
            before,
            started,
            done,
            running,
            pages,
            jobs,
            list,
            attempts,
            states,
            at,
        );
        assert(!list.take(at).contains(job)) by {
            if list.take(at).contains(job) {
                let other = list.take(at).index_of(job);
                assert(list[other] == list[at]);
            }
        }
        assert(left.contains(job));
        lemma_tried_keeps(
            declared,
            plan,
            states[at],
            states[until],
            started.union(begun),
            done,
            running.union(begun),
            pages,
            left,
            job,
            attempts[at],
        );
        let taken = list.take(until);
        assert(taken =~= list.take(at).push(job));
        list.take(at).lemma_push_to_set_commute(job);
        assert(left.remove(job) =~= jobs.difference(taken.to_set()));
        if attempts[at] == Attempt::Started {
            earlier.lemma_push_to_set_commute(job);
            assert(started.union(begun).insert(job) =~= started.union(first.to_set()));
            assert(running.union(begun).insert(job) =~= running.union(first.to_set()));
        }
        assert forall|other: JobId| #[trigger] first.contains(other) implies taken.contains(
            other,
        ) by {
            let place = first.index_of(other);
            if place < earlier.len() {
                assert(earlier.contains(earlier[place]));
                let there = list.take(at).index_of(other);
                assert(taken[there] == other);
            } else {
                assert(taken[at] == other);
            }
        }
    }
}

proof fn lemma_tries_keep<R>(
    declared: Seq<Seq<DependencyView>>,
    plan: Plan,
    before: Schedule<R>,
    after: Schedule<R>,
    started: Set<JobId>,
    done: Set<JobId>,
    running: Set<JobId>,
    pages: Set<PageId>,
    list: Seq<JobId>,
    begun: Seq<JobId>,
)
    requires
        planned(declared, plan),
        declared.len() <= u32::MAX,
        before.keeps(plan, started, done, running, pages, list.to_set()),
        list.no_duplicates(),
        before.tries(list, begun, after),
    ensures
        after.keeps(
            plan,
            started.union(begun.to_set()),
            done,
            running.union(begun.to_set()),
            pages,
            Set::empty(),
        ),
        forall|job: JobId| #[trigger]
            begun.contains(job) ==> !started.contains(job) && job < declared.len(),
{
    let jobs = list.to_set();
    let (attempts, states) = choose|attempts: Seq<Attempt>, states: Seq<Schedule<R>>|
        {
            &&& #[trigger] before.try_path(list, attempts, states)
            &&& states.last() == after
            &&& begun == started_of(list, attempts, list.len() as int)
        };
    assert forall|index: int| 0 <= index < list.len() implies jobs.contains(
        #[trigger] list[index],
    ) by {
        assert(list.contains(list[index]));
    }
    lemma_path_keeps(
        declared,
        plan,
        before,
        started,
        done,
        running,
        pages,
        jobs,
        list,
        attempts,
        states,
        list.len() as int,
    );
    assert(list.take(list.len() as int) =~= list);
    assert(jobs.difference(list.to_set()) =~= Set::empty());
    assert forall|job: JobId| #[trigger] begun.contains(job) implies !started.contains(job) && job
        < declared.len() by {
        assert(list.contains(job));
        assert(jobs.contains(job));
    }
}

/// A scan of a page finds each job once.
proof fn lemma_found_once(residents: Seq<JobId>, ready: u32, until: int)
    requires
        residents.no_duplicates(),
        0 <= until <= residents.len(),
    ensures
        ready_residents(residents, ready, until).no_duplicates(),
    decreases until,
{
    if until > 0 {
        let before = ready_residents(residents, ready, until - 1);
        lemma_found_once(residents, ready, until - 1);
        lemma_ready_residents(residents, ready, until - 1);
        if before.contains(residents[until - 1]) {
            let slot = choose|slot: int|
                0 <= slot < until - 1 && mask_bit(ready, slot) && #[trigger] residents[slot]
                    == residents[until - 1];
            assert(residents[slot] == residents[until - 1]);
        }
        let all = ready_residents(residents, ready, until);
        assert forall|left: int, right: int|
            0 <= left < all.len() && 0 <= right < all.len() && left != right implies all[left]
            != all[right] by {
            if left < before.len() {
                assert(before.contains(before[left]));
            }
            if right < before.len() {
                assert(before.contains(before[right]));
            }
        }
    }
}

proof fn lemma_woken_once<R>(schedule: Schedule<R>, list: Seq<JobId>, until: int)
    requires
        ascending(list),
        0 <= until <= list.len(),
    ensures
        last_waits(schedule.jobs@, list, until).no_duplicates(),
        forall|job: JobId| #[trigger]
            last_waits(schedule.jobs@, list, until).contains(job) ==> list.take(until).contains(
                job,
            ),
    decreases until,
{
    let all = last_waits(schedule.jobs@, list, until);
    if until > 0 {
        let before = last_waits(schedule.jobs@, list, until - 1);
        let shorter = list.take(until - 1);
        let longer = list.take(until);
        lemma_woken_once(schedule, list, until - 1);
        assert forall|job: JobId| #[trigger] before.contains(job) implies longer.contains(job)
            && job != list[until - 1] by {
            let at = shorter.index_of(job);
            assert(longer[at] == job);
            assert(list[at] < list[until - 1]);
        }
        assert forall|left: int, right: int|
            0 <= left < all.len() && 0 <= right < all.len() && left != right implies all[left]
            != all[right] by {
            if left < before.len() {
                assert(before.contains(before[left]));
            }
            if right < before.len() {
                assert(before.contains(before[right]));
            }
        }
        assert forall|job: JobId| #[trigger] all.contains(job) implies longer.contains(job) by {
            let at = all.index_of(job);
            if at < before.len() {
                assert(before.contains(before[at]));
            } else {
                assert(longer[until - 1] == job);
            }
        }
    }
}

/// Scanning pages one after another keeps a run in order.
proof fn lemma_scan_path_keeps<R>(
    declared: Seq<Seq<DependencyView>>,
    plan: Plan,
    before: Schedule<R>,
    started: Set<JobId>,
    done: Set<JobId>,
    running: Set<JobId>,
    pages: Set<PageId>,
    list: Seq<PageId>,
    lists: Seq<Seq<JobId>>,
    states: Seq<Schedule<R>>,
    until: int,
)
    requires
        planned(declared, plan),
        declared.len() <= u32::MAX,
        before.keeps(plan, started, done, running, pages, Set::empty()),
        forall|index: int| 0 <= index < list.len() ==> (#[trigger] list[index]) < plan.layout.len(),
        before.scan_path(list, lists, states),
        0 <= until <= list.len(),
    ensures
        ({
            let begun = joined(lists, until).to_set();
            states[until].keeps(
                plan,
                started.union(begun),
                done,
                running.union(begun),
                pages.difference(list.take(until).to_set()),
                Set::empty(),
            )
        }),
        forall|job: JobId| #[trigger]
            joined(lists, until).contains(job) ==> !started.contains(job) && job < declared.len(),
    decreases until,
{
    let all = joined(lists, until);
    if until == 0 {
        assert(all.to_set() =~= Set::empty());
        assert(list.take(0).to_set() =~= Set::empty());
        assert(started.union(all.to_set()) =~= started);
        assert(running.union(all.to_set()) =~= running);
        assert(pages.difference(list.take(0).to_set()) =~= pages);
    } else {
        let at = until - 1;
        let earlier = joined(lists, at);
        let more = lists[at];
        let begun = earlier.to_set();
        let page = list[at];
        let left = pages.difference(list.take(at).to_set());
        let between = states[at];
        lemma_scan_path_keeps(
            declared,
            plan,
            before,
            started,
            done,
            running,
            pages,
            list,
            lists,
            states,
            at,
        );
        let found = found_on(between, page);
        scanned_pages_are_attended(
            declared,
            plan,
            between,
            started.union(begun),
            running.union(begun),
            left,
            Set::empty(),
            page,
        );
        assert(Set::<JobId>::empty().union(found.to_set()) =~= found.to_set());
        let residents = between.residents_on(page as int);
        assert(residents == plan.layout[page as int]);
        assert(residents.no_duplicates()) by {
            assert forall|a: int, b: int|
                0 <= a < residents.len() && 0 <= b < residents.len() && a != b implies residents[a]
                != residents[b] by {
                assert(plan.layout[page as int][a] == residents[a]);
                assert(plan.layout[page as int][b] == residents[b]);
            }
        }
        assert(residents.len() <= 32);
        lemma_found_once(
            residents,
            ready_of(between.pages@[page as int].state),
            residents.len() as int,
        );
        lemma_tries_keep(
            declared,
            plan,
            between,
            states[until],
            started.union(begun),
            done,
            running.union(begun),
            left.remove(page),
            found,
            more,
        );
        assert(all == earlier + more);
        assert(all.to_set() =~= begun.union(more.to_set())) by {
            assert forall|job: JobId| #[trigger] all.to_set().contains(job) == begun.union(
                more.to_set(),
            ).contains(job) by {
                if all.contains(job) {
                    let place = all.index_of(job);
                    if place < earlier.len() {
                        assert(earlier[place] == job);
                    } else {
                        assert(more[place - earlier.len()] == job);
                    }
                }
                if earlier.contains(job) {
                    let place = earlier.index_of(job);
                    assert(all[place] == job);
                }
                if more.contains(job) {
                    let place = more.index_of(job);
                    assert(all[earlier.len() + place] == job);
                }
            }
        }
        assert(started.union(begun).union(more.to_set()) =~= started.union(all.to_set()));
        assert(running.union(begun).union(more.to_set()) =~= running.union(all.to_set()));
        let taken = list.take(until);
        assert(taken =~= list.take(at).push(page));
        list.take(at).lemma_push_to_set_commute(page);
        assert(left.remove(page) =~= pages.difference(taken.to_set()));
        assert forall|job: JobId| #[trigger] all.contains(job) implies !started.contains(job)
            && job < declared.len() by {
            assert(all.to_set().contains(job));
            if !earlier.contains(job) {
                assert(more.contains(job));
            }
        }
    }
}

/// Where neither the locks that jobs take nor the states of the pages change, the running jobs hold
/// the locks as before.
proof fn lemma_still_exclusive<R>(
    before: Schedule<R>,
    after: Schedule<R>,
    running: Set<JobId>,
)
    requires
        before.exclusive(running),
        after.jobs@.len() == before.jobs@.len(),
        after.pages@ == before.pages@,
        forall|job: int|
            0 <= job < before.jobs@.len() ==> #[trigger] after.acquires_by(job)
                == before.acquires_by(job),
    ensures
        after.exclusive(running),
{
    assert forall|page: PageId, slot: int|
        page < after.pages@.len() && 0 <= slot < 32 implies #[trigger] after.locked_by(
        running,
        page,
        slot,
    ) == mask_bit(lock_of(after.pages@[page as int].state), slot) by {
        assert(before.locked_by(running, page, slot) == mask_bit(
            lock_of(before.pages@[page as int].state),
            slot,
        ));
        if before.locked_by(running, page, slot) {
            let other = choose|other: JobId| #[trigger]
                running.contains(other) && locks(before.acquires_by(other as int), page, slot);
            assert(running.contains(other) && locks(after.acquires_by(other as int), page, slot));
        }
        if after.locked_by(running, page, slot) {
            let other = choose|other: JobId| #[trigger]
                running.contains(other) && locks(after.acquires_by(other as int), page, slot);
            assert(running.contains(other) && locks(before.acquires_by(other as int), page, slot));
        }
    }
    assert forall|left: JobId, right: JobId, page: PageId, slot: int|
        #![trigger running.contains(left), running.contains(right), locks(
                after.acquires_by(left as int), page, slot)]
        running.contains(left) && running.contains(right) && left != right && page
            < after.pages@.len() && 0 <= slot < 32 && locks(
            after.acquires_by(left as int),
            page,
            slot,
        ) implies !locks(after.acquires_by(right as int), page, slot) by {
        assert(running.contains(left) && running.contains(right) && locks(
            before.acquires_by(left as int),
            page,
            slot,
        ));
    }
}

/// A run begins in order: the jobs that have started run, and no job is left behind.
pub proof fn paged_runs_begin<R>(
    declared: Seq<Seq<DependencyView>>,
    plan: Plan,
    schedule: Schedule<R>,
    after: Schedule<R>,
    begun: Seq<JobId>,
)
    requires
        planned(declared, plan),
        declared.len() <= u32::MAX,
        schedule.rests(plan),
        schedule.tries(schedule.roots@, begun, after),
    ensures
        after.proceeds(plan, Set::empty(), begun.to_set()),
{
    let none = Set::<JobId>::empty();
    runs_begin_attended(declared, plan, schedule);
    lemma_tries_keep(
        declared,
        plan,
        schedule,
        after,
        none,
        none,
        none,
        Set::empty(),
        schedule.roots@,
        begun,
    );
    assert(none.union(begun.to_set()) =~= begun.to_set());
}

/// When a job has finished, the run stays in order. The jobs that start on that account have not
/// started before.
pub proof fn paged_runs_go_on<R>(
    declared: Seq<Seq<DependencyView>>,
    plan: Plan,
    before: Schedule<R>,
    after: Schedule<R>,
    done: Set<JobId>,
    running: Set<JobId>,
    job: JobId,
    begun: Seq<JobId>,
)
    requires
        planned(declared, plan),
        declared.len() <= u32::MAX,
        before.proceeds(plan, done, running),
        running.contains(job),
        before.moves_on(job, begun, after),
    ensures
        after.proceeds(plan, done.insert(job), running.remove(job).union(begun.to_set())),
        forall|other: JobId| #[trigger]
            begun.contains(other) ==> !done.contains(other) && !running.contains(other) && other
                < declared.len(),
{
    let started = done.union(running);
    let rest = running.remove(job);
    let (released, scanned, told, found, woken) = choose|
        released: Schedule<R>,
        scanned: Schedule<R>,
        told: Schedule<R>,
        found: Seq<JobId>,
        woken: Seq<JobId>,
    |
        {
            &&& #[trigger] before.releases(job as int, released)
            &&& #[trigger] released.scans(scanned_after(released, job), found, scanned)
            &&& #[trigger] scanned.completes(job as int, told)
            &&& #[trigger] told.tries(woken_by(scanned, job), woken, after)
            &&& begun == found + woken
        };
    let pages = scanned_after(released, job);
    assert(job < before.jobs@.len());
    released_jobs_are_attended(
        declared,
        plan,
        before,
        released,
        started,
        running,
        Set::empty(),
        Set::empty(),
        job,
    );
    releasing_keeps_jobs_apart(before, released, job, running);
    lemma_released_sound(before, job as int, released);
    assert(in_step(plan.predecessors, released.waits(), started, done)) by {
        assert forall|other: JobId|
            other < released.waits().len() && !#[trigger] started.contains(
                other,
            ) implies released.waits()[other as int] == missing(
            plan.predecessors[other as int],
            done,
            plan.predecessors[other as int].len() as int,
        ) by {
            assert(other != job);
            assert(released.jobs@[other as int] == before.jobs@[other as int]);
            assert(released.waits()[other as int] == before.waits()[other as int]);
        }
    }
    assert(Set::<PageId>::empty().union(pages.to_set()) =~= pages.to_set());
    let (lists, states) = choose|lists: Seq<Seq<JobId>>, states: Seq<Schedule<R>>|
        {
            &&& #[trigger] released.scan_path(pages, lists, states)
            &&& states.last() == scanned
            &&& found == joined(lists, lists.len() as int)
        };
    lemma_scanned_within(released, job);
    lemma_scan_path_keeps(
        declared,
        plan,
        released,
        started,
        done,
        rest,
        pages.to_set(),
        pages,
        lists,
        states,
        pages.len() as int,
    );
    let more = started.union(found.to_set());
    let busy = rest.union(found.to_set());
    assert(pages.take(pages.len() as int) =~= pages);
    assert(pages.to_set().difference(pages.to_set()) =~= Set::empty());
    assert(more.contains(job));
    lemma_strict_is_backward(declared, plan.candidates);
    lemma_reduced_is_proper(plan.candidates, plan.predecessors);
    completed_jobs_are_attended(
        declared,
        plan,
        scanned,
        told,
        more,
        done,
        busy,
        Set::empty(),
        Set::empty(),
        job,
    );
    assert(scanned.successors_of(job as int) == plan.successors[job as int]);
    completed_jobs_stay_in_step(plan, scanned, told, more, done, job);
    lemma_completed_sound(scanned, told);
    assert forall|other: int| 0 <= other < scanned.jobs@.len() implies #[trigger] told.acquires_by(
        other,
    ) == scanned.acquires_by(other) by {
        assert(told.jobs@[other].acquire_range == scanned.jobs@[other].acquire_range);
    }
    lemma_still_exclusive(scanned, told, busy);
    let list = woken_by(scanned, job);
    assert(Set::<JobId>::empty().union(list.to_set()) =~= list.to_set());
    let successors = scanned.successors_of(job as int);
    assert(scanned.jobs@[job as int].home.slot < 32);
    lemma_woken_once(scanned, successors, successors.len() as int);
    let finished = done.insert(job);
    lemma_tries_keep(
        declared,
        plan,
        told,
        after,
        more,
        finished,
        busy,
        Set::empty(),
        list,
        woken,
    );
    lemma_added_to_set(found, woken);
    let next = rest.union(begun.to_set());
    assert(busy.union(woken.to_set()) =~= next);
    assert(more.union(woken.to_set()) =~= finished.union(next));
    assert forall|other: JobId| #[trigger] begun.contains(other) implies !done.contains(other)
        && !running.contains(other) && other < declared.len() by {
        assert(begun.to_set().contains(other));
        if found.contains(other) {
            assert(!started.contains(other));
        } else {
            assert(woken.contains(other));
            assert(!more.contains(other));
        }
    }
    assert(finished.disjoint(next)) by {
        assert forall|other: JobId| finished.contains(other) implies !next.contains(other) by {
            if next.contains(other) && begun.to_set().contains(other) {
                assert(begun.contains(other));
            }
        }
    }
}

proof fn lemma_added_to_set(left: Seq<JobId>, right: Seq<JobId>)
    ensures
        (left + right).to_set() == left.to_set().union(right.to_set()),
{
    let all = left + right;
    assert forall|job: JobId| #[trigger] all.to_set().contains(job) == left.to_set().union(
        right.to_set(),
    ).contains(job) by {
        if all.contains(job) {
            let place = all.index_of(job);
            if place < left.len() {
                assert(left[place] == job);
            } else {
                assert(right[place - left.len()] == job);
            }
        }
        if left.contains(job) {
            let place = left.index_of(job);
            assert(all[place] == job);
        }
        if right.contains(job) {
            let place = right.index_of(job);
            assert(all[left.len() + place] == job);
        }
    }
    assert(all.to_set() =~= left.to_set().union(right.to_set()));
}

/// The pages that are scanned are pages of the schedule.
proof fn lemma_scanned_within<R>(schedule: Schedule<R>, job: JobId)
    requires
        schedule.sound(),
        job < schedule.jobs@.len(),
    ensures
        forall|index: int|
            0 <= index < scanned_after(schedule, job).len() ==> (#[trigger] scanned_after(
                schedule,
                job,
            )[index]) < schedule.pages@.len(),
{
    let rest = schedule.followers_after(
        job as int,
        schedule.acquires_by(job as int).len() as int,
    );
    assert(schedule.jobs@[job as int].home.page < schedule.pages@.len());
    lemma_followers_within(schedule, job as int, schedule.acquires_by(job as int).len() as int);
    let all = scanned_after(schedule, job);
    assert forall|index: int| 0 <= index < all.len() implies (#[trigger] all[index])
        < schedule.pages@.len() by {
        if index > 0 {
            assert(all[index] == rest[index - 1]);
        }
    }
}

proof fn lemma_followers_within<R>(schedule: Schedule<R>, job: int, until: int)
    requires
        schedule.sound(),
        0 <= job < schedule.jobs@.len(),
        0 <= until <= schedule.acquires_by(job).len(),
    ensures
        within(schedule.followers_after(job, until), schedule.pages@.len() as int),
    decreases until,
{
    if until > 0 {
        lemma_followers_within(schedule, job, until - 1);
        let home = schedule.jobs@[job].home.page;
        let page = schedule.acquires_by(job)[until - 1].page;
        assert(page < schedule.pages@.len());
        let list = schedule.followers_of(page as int);
        assert(schedule.pages@[page as int].follower_range.end <= schedule.followers@.len());
        assert(within(list, schedule.pages@.len() as int));
        let kept = other_pages(list, home);
        let before = schedule.followers_after(job, until - 1);
        let all = schedule.followers_after(job, until);
        assert(all == before + kept);
        assert forall|index: int| 0 <= index < all.len() implies (#[trigger] all[index])
            < schedule.pages@.len() by {
            if index >= before.len() {
                let place = index - before.len();
                assert(kept[place] == all[index]);
                assert(kept.contains(kept[place]));
                assert(list.contains(kept[place])) by {
                    broadcast use vstd::seq::Seq::lemma_filter_contains_rev;

                }
                let at = list.index_of(kept[place]);
                assert(list[at] < schedule.pages@.len());
            }
        }
    }
}

/// Jobs that run at the same time are not related.
pub proof fn paged_jobs_do_not_overlap<R>(
    declared: Seq<Seq<DependencyView>>,
    plan: Plan,
    schedule: Schedule<R>,
    done: Set<JobId>,
    running: Set<JobId>,
    left: JobId,
    right: JobId,
)
    requires
        planned(declared, plan),
        declared.len() <= u32::MAX,
        schedule.proceeds(plan, done, running),
        running.contains(left),
        running.contains(right),
        left < right,
    ensures
        relation_of(declared[left as int], declared[right as int]) == Relation::Free,
{
    let started = done.union(running);
    running_jobs_do_not_conflict(declared, plan, schedule, running, left, right);
    assert(right < declared.len());
    let relation = relation_of(declared[left as int], declared[right as int]);
    reveal(relation_between);
    assert(relation == relation_between(declared, left as int, right as int));
    if relation == Relation::Strict {
        assert(started.contains(right));
        strict_jobs_run_in_order(declared, plan, schedule.waits(), started, done, left, right);
        assert(done.contains(left) && !running.contains(left));
    }
}

/// A run ends only when all jobs are done, and leaves the schedule as it was before: no slot is
/// locked, no job is marked, and each job waits for what it waited for in the beginning.
pub proof fn paged_runs_end<R>(
    declared: Seq<Seq<DependencyView>>,
    plan: Plan,
    schedule: Schedule<R>,
    done: Set<JobId>,
)
    requires
        planned(declared, plan),
        declared.len() <= u32::MAX,
        schedule.proceeds(plan, done, Set::empty()),
    ensures
        forall|job: JobId| job < declared.len() ==> #[trigger] done.contains(job),
        forall|page: int|
            0 <= page < schedule.pages@.len() ==> (#[trigger] schedule.pages@[page]).state == 0,
        forall|job: int|
            0 <= job < schedule.jobs@.len() ==> (#[trigger] schedule.jobs@[job]).strict_wait
                == schedule.jobs@[job].strict_wait_initial,
{
    assert(done.union(Set::empty()) =~= done);
    assert forall|job: JobId| job < declared.len() implies #[trigger] done.contains(job) by {
        paged_runs_leave_no_job_behind(declared, plan, schedule, done, job);
    }
    complete_runs_leave_pages_at_rest(declared, plan, schedule, done);
}

/// Where a job has failed, and so is never done, no job that is strictly related to it and declared
/// later starts.
pub proof fn failed_paged_jobs_hold_back<R>(
    declared: Seq<Seq<DependencyView>>,
    plan: Plan,
    schedule: Schedule<R>,
    done: Set<JobId>,
    running: Set<JobId>,
    failed: JobId,
    job: JobId,
)
    requires
        planned(declared, plan),
        declared.len() <= u32::MAX,
        schedule.proceeds(plan, done, running),
        failed < job < declared.len(),
        relation_of(declared[failed as int], declared[job as int]) == Relation::Strict,
        !done.contains(failed),
    ensures
        !running.contains(job),
        !done.contains(job),
{
    let started = done.union(running);
    if started.contains(job) {
        strict_jobs_run_in_order(declared, plan, schedule.waits(), started, done, failed, job);
    }
}

/// A schedule whose run has ended, or has failed and was reset, begins the next run as it began the
/// first.
pub proof fn next_paged_runs_begin_anew<R>(
    declared: Seq<Seq<DependencyView>>,
    plan: Plan,
    schedule: Schedule<R>,
    done: Set<JobId>,
    running: Set<JobId>,
    after: Schedule<R>,
)
    requires
        planned(declared, plan),
        declared.len() <= u32::MAX,
        schedule.proceeds(plan, done, running),
        after.sound(),
        schedule.resets(after) || running == Set::<JobId>::empty() && after == schedule,
    ensures
        after.rests(plan),
{
    if schedule.resets(after) {
        lemma_still_carries(plan, schedule, after);
    } else {
        paged_runs_end(declared, plan, schedule, done);
    }
}

} // verus!

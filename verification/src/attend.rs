//! No job of a schedule of pages is left behind: a job that waits for nothing has started, is about
//! to be tried, or is marked as ready and will be found when a job that hinders it has finished.

use crate::dag::JobId;
use crate::depend::DependencyView;
use crate::pages::{
    acquires_of, compiled_schedules_are_sound, follows, last_waits, lemma_home_in_layout,
    lemma_relaxed_is_undirected, locks, names_page, occupies, other_pages, planned, ready_residents,
    resides, PageId, Plan, Schedule,
};
use crate::plan::{lemma_reduced_is_proper, lemma_strict_is_backward};
use crate::waits::{
    in_step, missing, runs_begin_in_step, unfinished_predecessors_are_waited_for,
};
use crate::word::{
    halves_make_the_word, lemma_common_slot, lemma_mask_join, lemma_mask_single, lemma_set_slot,
    lock_of, mask_bit, ready_of,
};
use vstd::prelude::*;

verus! {

impl<R> Schedule<R> {
    /// Whether the parts of the schedule that do not change during a run are those of a plan.
    pub open spec fn carries(self, plan: Plan) -> bool {
        &&& self.jobs@.len() == plan.homes.len()
        &&& self.pages@.len() == plan.layout.len()
        &&& forall|job: int|
            #![trigger self.jobs@[job]]
            0 <= job < self.jobs@.len() ==> {
                &&& self.jobs@[job].home == plan.homes[job]
                &&& self.jobs@[job].strict_wait_initial == plan.predecessors[job].len()
            }
        &&& forall|job: int|
            0 <= job < self.jobs@.len() ==> #[trigger] self.acquires_by(job) == plan.acquires[job]
        &&& forall|job: int|
            0 <= job < self.jobs@.len() ==> #[trigger] self.successors_of(job)
                == plan.successors[job]
        &&& forall|page: int|
            0 <= page < self.pages@.len() ==> #[trigger] self.residents_on(page)
                == plan.layout[page]
        &&& forall|page: int|
            0 <= page < self.pages@.len() ==> #[trigger] self.followers_of(page)
                == plan.followers[page]
        &&& self.roots@.no_duplicates()
        &&& forall|job: JobId| #[trigger]
            self.roots@.contains(job) == (job < self.jobs@.len() && plan.predecessors[job as int].len()
                == 0)
    }

    /// Whether the schedule carries a plan and no run is under way: each job waits for what it waits
    /// for in the beginning, no slot is locked, and no job is marked as ready.
    pub open spec fn rests(self, plan: Plan) -> bool {
        &&& self.sound()
        &&& self.carries(plan)
        &&& forall|job: int|
            0 <= job < self.jobs@.len() ==> (#[trigger] self.jobs@[job]).strict_wait
                == self.jobs@[job].strict_wait_initial
        &&& forall|page: int|
            0 <= page < self.pages@.len() ==> (#[trigger] self.pages@[page]).state == 0
    }

    /// Whether a job is marked as ready.
    pub open spec fn marked(self, job: int) -> bool {
        mask_bit(
            ready_of(self.pages@[self.jobs@[job].home.page as int].state),
            self.jobs@[job].home.slot as int,
        )
    }

    /// Whether two jobs lock the same slot.
    pub open spec fn clash(self, left: int, right: int) -> bool {
        exists|page: PageId, slot: int|
            {
                &&& page < self.pages@.len()
                &&& 0 <= slot < 32
                &&& #[trigger] locks(self.acquires_by(left), page, slot)
                &&& locks(self.acquires_by(right), page, slot)
            }
    }

    /// Whether a running job locks a slot that a job would lock.
    pub open spec fn hindered(self, running: Set<JobId>, job: int) -> bool {
        exists|other: JobId| #[trigger] running.contains(other) && self.clash(job, other as int)
    }

    /// Whether no job is left behind while some jobs run, some pages are still to be scanned, and
    /// some jobs are still to be tried. A job that waits for nothing, has not started and is not to
    /// be tried is marked as ready, and a running job hinders it or its page is to be scanned. Only
    /// jobs that have not started are marked or to be tried. The jobs that are done wait for what
    /// they waited for in the beginning.
    pub open spec fn attended(
        self,
        started: Set<JobId>,
        running: Set<JobId>,
        pages: Set<PageId>,
        jobs: Set<JobId>,
    ) -> bool {
        &&& forall|job: JobId|
            job < self.jobs@.len() && self.jobs@[job as int].strict_wait == 0
                && !#[trigger] started.contains(job) && !jobs.contains(job) ==> self.marked(
                job as int,
            ) && (self.hindered(running, job as int) || pages.contains(
                self.jobs@[job as int].home.page,
            ))
        &&& forall|job: JobId|
            job < self.jobs@.len() && #[trigger] self.marked(job as int) ==> !started.contains(job)
        &&& forall|job: JobId| #[trigger]
            jobs.contains(job) ==> job < self.jobs@.len() && !started.contains(job)
        &&& forall|job: JobId|
            job < self.jobs@.len() && #[trigger] started.contains(job) && !running.contains(job)
                ==> self.jobs@[job as int].strict_wait == self.jobs@[job as int].strict_wait_initial
        &&& forall|page: int, slot: int|
            0 <= page < self.pages@.len() && 0 <= slot < 32 && #[trigger] mask_bit(
                ready_of(self.pages@[page].state),
                slot,
            ) ==> slot < self.residents_on(page).len()
    }
}

/// Two jobs have different places.
proof fn lemma_one_job_each(declared: Seq<Seq<DependencyView>>, plan: Plan, left: int, right: int)
    requires
        planned(declared, plan),
        declared.len() <= u32::MAX,
        0 <= left < declared.len(),
        0 <= right < declared.len(),
        plan.homes[left] == plan.homes[right],
    ensures
        left == right,
{
    lemma_home_in_layout(plan.layout, plan.homes, left as JobId);
    lemma_home_in_layout(plan.layout, plan.homes, right as JobId);
}

/// A schedule that has just been compiled carries its plan, and no run is under way, unless the lists
/// are too long for the ranges.
pub proof fn compiled_pages_rest<R>(
    declared: Seq<Seq<DependencyView>>,
    plan: Plan,
    runs: Seq<R>,
    schedule: Schedule<R>,
)
    requires
        planned(declared, plan),
        schedule.follows_plan(plan, runs),
        runs.len() == declared.len(),
        declared.len() <= u32::MAX,
        schedule.successors@.len() <= u32::MAX,
        schedule.acquires@.len() <= u32::MAX,
        schedule.residents@.len() <= u32::MAX,
        schedule.followers@.len() <= u32::MAX,
    ensures
        schedule.rests(plan),
{
    compiled_schedules_are_sound(declared, plan, runs, schedule);
}

/// Where no run is under way, no job is left behind once the roots are tried, and no lock is held.
pub proof fn runs_begin_attended<R>(
    declared: Seq<Seq<DependencyView>>,
    plan: Plan,
    schedule: Schedule<R>,
)
    requires
        planned(declared, plan),
        declared.len() <= u32::MAX,
        schedule.rests(plan),
    ensures
        schedule.attended(Set::empty(), Set::empty(), Set::empty(), schedule.roots@.to_set()),
        schedule.exclusive(Set::empty()),
        in_step(plan.predecessors, schedule.waits(), Set::empty(), Set::empty()),
{
    assert((0u64 >> 32) as u32 == 0u32 && 0u64 as u32 == 0u32) by (bit_vector);
    assert forall|page: int, slot: int|
        0 <= page < schedule.pages@.len() && 0 <= slot < 32 implies !#[trigger] mask_bit(
        ready_of(schedule.pages@[page].state),
        slot,
    ) by {
        assert(schedule.pages@[page].state == 0);
        lemma_mask_join(0, 0, slot as u32);
    }
    assert forall|page: PageId, slot: int|
        page < schedule.pages@.len() && 0 <= slot < 32 implies #[trigger] schedule.locked_by(
        Set::empty(),
        page,
        slot,
    ) == mask_bit(lock_of(schedule.pages@[page as int].state), slot) by {
        assert(schedule.pages@[page as int].state == 0);
        lemma_mask_join(0, 0, slot as u32);
    }
    assert forall|job: JobId| job < schedule.jobs@.len() implies !#[trigger] schedule.marked(
        job as int,
    ) by {
        assert(schedule.jobs@[job as int].home.slot < 32);
    }
    let roots = schedule.roots@.to_set();
    assert forall|job: JobId| #[trigger] roots.contains(job) implies job < schedule.jobs@.len() by {
        assert(schedule.roots@.contains(job));
    }
    assert forall|job: JobId|
        job < schedule.jobs@.len() && schedule.jobs@[job as int].strict_wait
            == 0 implies #[trigger] roots.contains(job) by {
        assert(schedule.roots@.contains(job));
    }
    assert forall|job: int| 0 <= job < schedule.waits().len() implies #[trigger]
        schedule.waits()[job] == plan.predecessors[job].len() by {
        assert(schedule.jobs@[job].strict_wait == plan.predecessors[job].len());
    }
    runs_begin_in_step(plan.predecessors, schedule.waits());
}

/// What stays of a schedule while only the states of its pages, and how many jobs each job waits
/// for, change.
pub(crate) proof fn lemma_still_carries<R>(plan: Plan, before: Schedule<R>, after: Schedule<R>)
    requires
        before.carries(plan),
        after.jobs@.len() == before.jobs@.len(),
        after.pages@.len() == before.pages@.len(),
        after.successors@ == before.successors@,
        after.acquires@ == before.acquires@,
        after.residents@ == before.residents@,
        after.followers@ == before.followers@,
        after.roots@ == before.roots@,
        forall|job: int|
            #![trigger after.jobs@[job]]
            0 <= job < before.jobs@.len() ==> {
                &&& after.jobs@[job].home == before.jobs@[job].home
                &&& after.jobs@[job].strict_wait_initial == before.jobs@[job].strict_wait_initial
                &&& after.jobs@[job].successor_range == before.jobs@[job].successor_range
                &&& after.jobs@[job].acquire_range == before.jobs@[job].acquire_range
            },
        forall|page: int|
            #![trigger after.pages@[page]]
            0 <= page < before.pages@.len() ==> {
                &&& after.pages@[page].resident_range == before.pages@[page].resident_range
                &&& after.pages@[page].follower_range == before.pages@[page].follower_range
            },
    ensures
        after.carries(plan),
        forall|left: int, right: int|
            0 <= left < before.jobs@.len() && 0 <= right < before.jobs@.len()
                ==> #[trigger] after.clash(left, right) == before.clash(left, right),
{
    assert forall|job: int| 0 <= job < after.jobs@.len() implies #[trigger] after.acquires_by(job)
        == plan.acquires[job] by {
        assert(after.jobs@[job].acquire_range == before.jobs@[job].acquire_range);
        assert(before.acquires_by(job) == plan.acquires[job]);
    }
    assert forall|job: int| 0 <= job < after.jobs@.len() implies #[trigger] after.successors_of(job)
        == plan.successors[job] by {
        assert(after.jobs@[job].successor_range == before.jobs@[job].successor_range);
        assert(before.successors_of(job) == plan.successors[job]);
    }
    assert forall|page: int| 0 <= page < after.pages@.len() implies #[trigger] after.residents_on(
        page,
    ) == plan.layout[page] by {
        assert(after.pages@[page].resident_range == before.pages@[page].resident_range);
        assert(before.residents_on(page) == plan.layout[page]);
    }
    assert forall|page: int| 0 <= page < after.pages@.len() implies #[trigger] after.followers_of(
        page,
    ) == plan.followers[page] by {
        assert(after.pages@[page].follower_range == before.pages@[page].follower_range);
        assert(before.followers_of(page) == plan.followers[page]);
    }
    assert forall|left: int, right: int|
        0 <= left < before.jobs@.len() && 0 <= right < before.jobs@.len() implies
    #[trigger] after.clash(left, right) == before.clash(left, right) by {
        assert(after.acquires_by(left) == before.acquires_by(left));
        assert(after.acquires_by(right) == before.acquires_by(right));
    }
}

/// When a job starts, no job is left behind.
pub proof fn started_jobs_are_attended<R>(
    declared: Seq<Seq<DependencyView>>,
    plan: Plan,
    before: Schedule<R>,
    after: Schedule<R>,
    started: Set<JobId>,
    running: Set<JobId>,
    pages: Set<PageId>,
    jobs: Set<JobId>,
    job: JobId,
)
    requires
        planned(declared, plan),
        declared.len() <= u32::MAX,
        before.sound(),
        before.carries(plan),
        before.attended(started, running, pages, jobs),
        forall|other: JobId| #[trigger] running.contains(other) ==> other < before.jobs@.len(),
        job < before.jobs@.len(),
        before.starts(job as int, after),
    ensures
        after.carries(plan),
        after.attended(started.insert(job), running.insert(job), pages, jobs.remove(job)),
{
    let more = running.insert(job);
    let home = before.jobs@[job as int].home;
    lemma_still_carries(plan, before, after);
    assert(home.slot < 32);
    assert forall|page: int, slot: int|
        0 <= page < before.pages@.len() && 0 <= slot < 32 implies #[trigger] mask_bit(
        ready_of(after.pages@[page].state),
        slot,
    ) == (mask_bit(ready_of(before.pages@[page].state), slot) && !(home.page == page && home.slot
        == slot)) by {
        lemma_mask_join(
            ready_of(before.pages@[page].state),
            before.bit_on(job as int, page),
            slot as u32,
        );
        lemma_mask_single(home.slot as u32, slot as u32);
        lemma_mask_join(0, 0, slot as u32);
    }
    assert forall|other: JobId| other < before.jobs@.len() implies #[trigger] after.marked(
        other as int,
    ) == (before.marked(other as int) && other != job) by {
        let place = before.jobs@[other as int].home;
        assert(place.slot < 32 && place.page < before.pages@.len());
        if place == home {
            lemma_one_job_each(declared, plan, other as int, job as int);
        }
    }
    assert forall|other: JobId|
        other < after.jobs@.len() && after.jobs@[other as int].strict_wait == 0
            && !#[trigger] started.insert(job).contains(other) && !jobs.remove(job).contains(
            other,
        ) implies after.marked(other as int) && (after.hindered(more, other as int)
        || pages.contains(after.jobs@[other as int].home.page)) by {
        assert(!started.contains(other));
        if before.hindered(running, other as int) {
            let by = choose|by: JobId| #[trigger]
                running.contains(by) && before.clash(other as int, by as int);
            assert(more.contains(by) && after.clash(other as int, by as int));
        }
    }
    assert forall|page: int, slot: int|
        0 <= page < after.pages@.len() && 0 <= slot < 32 && #[trigger] mask_bit(
            ready_of(after.pages@[page].state),
            slot,
        ) implies slot < after.residents_on(page).len() by {
        assert(mask_bit(ready_of(before.pages@[page].state), slot));
        assert(after.residents_on(page) == before.residents_on(page));
    }
}

/// A job that is kept from starting is hindered by one that runs.
proof fn lemma_kept_is_hindered<R>(schedule: Schedule<R>, running: Set<JobId>, job: JobId)
    requires
        schedule.sound(),
        schedule.exclusive(running),
        job < schedule.jobs@.len(),
        !schedule.unlocked(job as int),
    ensures
        schedule.hindered(running, job as int),
{
    let own = schedule.acquires_by(job as int);
    assert(schedule.jobs@[job as int].home.slot < 32);
    let index = choose|index: int|
        0 <= index < own.len() && lock_of(
            schedule.pages@[(#[trigger] own[index]).page as int].state,
        ) & own[index].mask != 0;
    let page = own[index].page;
    let slot = lemma_common_slot(lock_of(schedule.pages@[page as int].state), own[index].mask);
    assert(schedule.acquires_by(job as int)[index].page < schedule.pages@.len());
    assert(locks(own, page, slot as int));
    assert(schedule.locked_by(running, page, slot as int));
    let other = choose|other: JobId| #[trigger]
        running.contains(other) && locks(schedule.acquires_by(other as int), page, slot as int);
    assert(schedule.clash(job as int, other as int));
}

/// When a job is kept from starting, and marked as ready, no job is left behind.
pub proof fn marked_jobs_are_attended<R>(
    declared: Seq<Seq<DependencyView>>,
    plan: Plan,
    before: Schedule<R>,
    after: Schedule<R>,
    started: Set<JobId>,
    running: Set<JobId>,
    pages: Set<PageId>,
    jobs: Set<JobId>,
    job: JobId,
)
    requires
        planned(declared, plan),
        declared.len() <= u32::MAX,
        before.sound(),
        before.carries(plan),
        before.exclusive(running),
        before.attended(started, running, pages, jobs),
        job < before.jobs@.len(),
        !started.contains(job),
        !before.unlocked(job as int),
        before.marks(job as int, after),
    ensures
        after.carries(plan),
        after.attended(started, running, pages, jobs.remove(job)),
{
    let home = before.jobs@[job as int].home;
    lemma_still_carries(plan, before, after);
    lemma_kept_is_hindered(before, running, job);
    assert(home.slot < 32);
    assert forall|page: int, slot: int|
        0 <= page < before.pages@.len() && 0 <= slot < 32 implies #[trigger] mask_bit(
        ready_of(after.pages@[page].state),
        slot,
    ) == (mask_bit(ready_of(before.pages@[page].state), slot) || home.page == page && home.slot
        == slot) by {
        lemma_mask_join(
            ready_of(before.pages@[page].state),
            before.bit_on(job as int, page),
            slot as u32,
        );
        lemma_mask_single(home.slot as u32, slot as u32);
        lemma_mask_join(0, 0, slot as u32);
    }
    assert forall|other: JobId| other < before.jobs@.len() implies #[trigger] after.marked(
        other as int,
    ) == (before.marked(other as int) || other == job) by {
        let place = before.jobs@[other as int].home;
        assert(place.slot < 32 && place.page < before.pages@.len());
        if place == home {
            lemma_one_job_each(declared, plan, other as int, job as int);
        }
    }
    assert forall|other: JobId|
        other < before.jobs@.len() && #[trigger] before.hindered(
            running,
            other as int,
        ) implies after.hindered(running, other as int) by {
        let by = choose|by: JobId| #[trigger]
            running.contains(by) && before.clash(other as int, by as int);
        assert(running.contains(by) && after.clash(other as int, by as int));
    }
    assert forall|other: JobId|
        other < after.jobs@.len() && after.jobs@[other as int].strict_wait == 0
            && !#[trigger] started.contains(other) && !jobs.remove(job).contains(
            other,
        ) implies after.marked(other as int) && (after.hindered(running, other as int)
        || pages.contains(after.jobs@[other as int].home.page)) by {
        if other != job {
            assert(!jobs.contains(other));
        }
    }
    assert forall|page: int, slot: int|
        0 <= page < after.pages@.len() && 0 <= slot < 32 && #[trigger] mask_bit(
            ready_of(after.pages@[page].state),
            slot,
        ) implies slot < after.residents_on(page).len() by {
        assert(after.residents_on(page) == before.residents_on(page));
        if home.page == page && home.slot == slot {
            lemma_home_in_layout(plan.layout, plan.homes, job);
            assert(after.residents_on(page) == plan.layout[page]);
        }
    }
}

/// A page that follows one that a job locks a slot on is scanned when the job has finished.
proof fn lemma_followers_are_scanned<R>(
    schedule: Schedule<R>,
    job: int,
    index: int,
    until: int,
    page: PageId,
)
    requires
        0 <= index < until <= schedule.acquires_by(job).len(),
        schedule.followers_of(schedule.acquires_by(job)[index].page as int).contains(page),
        page != schedule.jobs@[job].home.page,
    ensures
        schedule.followers_after(job, until).contains(page),
    decreases until,
{
    let home = schedule.jobs@[job].home.page;
    let first = schedule.followers_after(job, until - 1);
    let list = schedule.followers_of(schedule.acquires_by(job)[until - 1].page as int);
    let last = other_pages(list, home);
    let all = schedule.followers_after(job, until);
    assert(all == first + last);
    if index == until - 1 {
        broadcast use vstd::seq_lib::group_filter_ensures;

        let at = list.index_of(page);
        assert(last.contains(list[at]));
        let place = last.index_of(page);
        assert(all[first.len() + place] == page);
    } else {
        lemma_followers_are_scanned(schedule, job, index, until - 1, page);
        let place = first.index_of(page);
        assert(all[place] == page);
    }
}

/// When a job has finished, the page of each job that it hinders is scanned.
proof fn lemma_hindered_are_scanned<R>(
    declared: Seq<Seq<DependencyView>>,
    plan: Plan,
    schedule: Schedule<R>,
    job: JobId,
    other: JobId,
)
    requires
        planned(declared, plan),
        declared.len() <= u32::MAX,
        schedule.carries(plan),
        job < declared.len(),
        other < declared.len(),
        schedule.clash(other as int, job as int),
    ensures
        scanned_after(schedule, job).contains(plan.homes[other as int].page),
{
    let own = plan.acquires[job as int];
    let home = plan.homes[job as int].page;
    let place = plan.homes[other as int].page;
    let scanned = scanned_after(schedule, job);
    assert(schedule.acquires_by(job as int) == own);
    assert(schedule.acquires_by(other as int) == plan.acquires[other as int]);
    assert(schedule.jobs@[job as int].home == plan.homes[job as int]);
    assert(scanned[0] == home);
    let (page, slot) = choose|page: PageId, slot: int|
        {
            &&& page < schedule.pages@.len()
            &&& 0 <= slot < 32
            &&& #[trigger] locks(schedule.acquires_by(other as int), page, slot)
            &&& locks(schedule.acquires_by(job as int), page, slot)
        };
    let around = seq![job] + plan.neighbors[job as int];
    assert(acquires_of(plan.homes, around, own));
    let index = choose|index: int|
        0 <= index < own.len() && (#[trigger] own[index]).page == page && mask_bit(
            own[index].mask,
            slot,
        );
    if place != home {
        if page != place {
            let with = choose|with: int|
                0 <= with < plan.acquires[other as int].len() && (
                #[trigger] plan.acquires[other as int][with]).page == page && mask_bit(
                    plan.acquires[other as int][with].mask,
                    slot,
                );
            assert(names_page(plan.acquires[other as int], page));
            assert(plan.homes[other as int].page == place);
            assert(follows(plan.homes, plan.acquires, page, place));
            assert(plan.followers[page as int].contains(place));
            assert(schedule.followers_of(page as int) == plan.followers[page as int]);
            lemma_followers_are_scanned(schedule, job as int, index, own.len() as int, place);
        } else {
            assert(occupies(plan.homes, around, page, slot));
            let at = choose|at: int|
                0 <= at < around.len() && plan.homes[(#[trigger] around[at]) as int].page == page
                    && plan.homes[around[at] as int].slot == slot;
            assert(at > 0);
            let middle = plan.neighbors[job as int][at - 1];
            assert(middle == around[at]);
            assert(plan.neighbors[job as int].contains(middle));
            lemma_relaxed_is_undirected(declared, plan.neighbors);
            assert(plan.neighbors[middle as int].contains(job));
            let beside = seq![middle] + plan.neighbors[middle as int];
            let back = plan.neighbors[middle as int].index_of(job);
            assert(beside[back + 1] == job);
            assert(resides(plan.homes, beside, home));
            assert(acquires_of(plan.homes, beside, plan.acquires[middle as int]));
            assert(names_page(plan.acquires[middle as int], home));
            assert(plan.homes[middle as int].page == place);
            assert(follows(plan.homes, plan.acquires, home, place));
            lemma_home_in_layout(plan.layout, plan.homes, job);
            assert(plan.followers[home as int].contains(place));
            assert(schedule.followers_of(home as int) == plan.followers[home as int]);
            assert(around[0] == job);
            assert(resides(plan.homes, around, home));
            assert(names_page(own, home));
            let start = choose|start: int|
                0 <= start < own.len() && (#[trigger] own[start]).page == home;
            lemma_followers_are_scanned(schedule, job as int, start, own.len() as int, place);
        }
        let rest = schedule.followers_after(job as int, own.len() as int);
        let found = rest.index_of(place);
        assert(scanned[found + 1] == place);
    }
}

/// The pages that are scanned when a job has finished.
pub open spec fn scanned_after<R>(schedule: Schedule<R>, job: JobId) -> Seq<PageId> {
    seq![schedule.jobs@[job as int].home.page] + schedule.followers_after(
        job as int,
        schedule.acquires_by(job as int).len() as int,
    )
}

/// When a job gives its locks back, no job is left behind once the pages to scan are scanned.
pub proof fn released_jobs_are_attended<R>(
    declared: Seq<Seq<DependencyView>>,
    plan: Plan,
    before: Schedule<R>,
    after: Schedule<R>,
    started: Set<JobId>,
    running: Set<JobId>,
    pages: Set<PageId>,
    jobs: Set<JobId>,
    job: JobId,
)
    requires
        planned(declared, plan),
        declared.len() <= u32::MAX,
        before.sound(),
        before.carries(plan),
        before.exclusive(running),
        before.attended(started, running, pages, jobs),
        running.contains(job),
        started.contains(job),
        before.releases(job as int, after),
    ensures
        after.carries(plan),
        after.attended(
            started,
            running.remove(job),
            pages.union(scanned_after(after, job).to_set()),
            jobs,
        ),
{
    let rest = running.remove(job);
    let wider = pages.union(scanned_after(after, job).to_set());
    assert(job < before.jobs@.len());
    lemma_still_carries(plan, before, after);
    assert forall|other: JobId| other < before.jobs@.len() implies #[trigger] after.marked(
        other as int,
    ) == before.marked(other as int) by {
        assert(before.jobs@[other as int].home.page < before.pages@.len());
        assert(after.jobs@[other as int].home == before.jobs@[other as int].home);
    }
    assert forall|other: JobId|
        other < after.jobs@.len() && after.jobs@[other as int].strict_wait == 0
            && !#[trigger] started.contains(other) && !jobs.contains(other) implies after.marked(
        other as int,
    ) && (after.hindered(rest, other as int) || wider.contains(
        after.jobs@[other as int].home.page,
    )) by {
        assert(other != job);
        assert(after.jobs@[other as int] == before.jobs@[other as int]);
        if before.hindered(running, other as int) {
            let by = choose|by: JobId| #[trigger]
                running.contains(by) && before.clash(other as int, by as int);
            assert(after.clash(other as int, by as int));
            if by == job {
                lemma_hindered_are_scanned(declared, plan, after, job, other);
            } else {
                assert(rest.contains(by) && after.clash(other as int, by as int));
            }
        }
    }
    assert forall|page: int, slot: int|
        0 <= page < after.pages@.len() && 0 <= slot < 32 && #[trigger] mask_bit(
            ready_of(after.pages@[page].state),
            slot,
        ) implies slot < after.residents_on(page).len() by {
        assert(mask_bit(ready_of(before.pages@[page].state), slot));
        assert(after.residents_on(page) == before.residents_on(page));
    }
    assert forall|other: JobId|
        other < after.jobs@.len() && #[trigger] started.contains(other) && !rest.contains(
            other,
        ) implies after.jobs@[other as int].strict_wait
        == after.jobs@[other as int].strict_wait_initial by {
        if other != job {
            assert(!running.contains(other));
        }
    }
}

/// The jobs that a scan of a page finds.
pub open spec fn found_on<R>(schedule: Schedule<R>, page: PageId) -> Seq<JobId> {
    let residents = schedule.residents_on(page as int);
    ready_residents(
        residents,
        ready_of(schedule.pages@[page as int].state),
        if residents.len() < 32 {
            residents.len() as int
        } else {
            32
        },
    )
}

pub(crate) proof fn lemma_ready_residents(residents: Seq<JobId>, ready: u32, until: int)
    requires
        0 <= until <= residents.len(),
    ensures
        forall|slot: int|
            0 <= slot < until && mask_bit(ready, slot) ==> ready_residents(
                residents,
                ready,
                until,
            ).contains(#[trigger] residents[slot]),
        forall|job: JobId| #[trigger]
            ready_residents(residents, ready, until).contains(job) ==> exists|slot: int|
                0 <= slot < until && mask_bit(ready, slot) && #[trigger] residents[slot] == job,
    decreases until,
{
    let all = ready_residents(residents, ready, until);
    if until > 0 {
        let before = ready_residents(residents, ready, until - 1);
        lemma_ready_residents(residents, ready, until - 1);
        assert forall|slot: int| 0 <= slot < until && mask_bit(ready, slot) implies all.contains(
            #[trigger] residents[slot],
        ) by {
            if slot < until - 1 {
                let at = before.index_of(residents[slot]);
                assert(all[at] == residents[slot]);
            } else {
                assert(all[before.len() as int] == residents[slot]);
            }
        }
        assert forall|job: JobId| #[trigger] all.contains(job) implies exists|slot: int|
            0 <= slot < until && mask_bit(ready, slot) && #[trigger] residents[slot] == job by {
            let at = all.index_of(job);
            if at < before.len() {
                assert(before.contains(before[at]));
            } else {
                assert(residents[until - 1] == job);
            }
        }
    }
}

/// When a page is scanned, no job is left behind once the jobs that are found are tried.
pub proof fn scanned_pages_are_attended<R>(
    declared: Seq<Seq<DependencyView>>,
    plan: Plan,
    schedule: Schedule<R>,
    started: Set<JobId>,
    running: Set<JobId>,
    pages: Set<PageId>,
    jobs: Set<JobId>,
    page: PageId,
)
    requires
        planned(declared, plan),
        declared.len() <= u32::MAX,
        schedule.sound(),
        schedule.carries(plan),
        schedule.attended(started, running, pages, jobs),
        page < schedule.pages@.len(),
    ensures
        schedule.attended(
            started,
            running,
            pages.remove(page),
            jobs.union(found_on(schedule, page).to_set()),
        ),
{
    let found = found_on(schedule, page);
    let more = jobs.union(found.to_set());
    let fewer = pages.remove(page);
    let residents = schedule.residents_on(page as int);
    let ready = ready_of(schedule.pages@[page as int].state);
    assert(residents == plan.layout[page as int]);
    assert(residents.len() <= 32);
    lemma_ready_residents(residents, ready, residents.len() as int);
    assert forall|job: JobId|
        job < schedule.jobs@.len() && schedule.jobs@[job as int].strict_wait == 0
            && !#[trigger] started.contains(job) && !more.contains(job) implies schedule.marked(
        job as int,
    ) && (schedule.hindered(running, job as int) || fewer.contains(
        schedule.jobs@[job as int].home.page,
    )) by {
        assert(!jobs.contains(job));
        let home = schedule.jobs@[job as int].home;
        if home.page == page {
            lemma_home_in_layout(plan.layout, plan.homes, job);
            assert(residents[home.slot as int] == job);
            assert(found.contains(residents[home.slot as int]));
        }
    }
    assert forall|job: JobId| #[trigger] more.contains(job) implies job < schedule.jobs@.len()
        && !started.contains(job) by {
        if !jobs.contains(job) {
            assert(found.contains(job));
            let slot = choose|slot: int|
                0 <= slot < residents.len() && mask_bit(ready, slot) && #[trigger] residents[slot]
                    == job;
            assert(plan.layout[page as int][slot] == job);
            assert(job < schedule.jobs@.len());
            assert(schedule.jobs@[job as int].home == plan.homes[job as int]);
            assert(schedule.pages@.len() <= u32::MAX);
            assert(schedule.marked(job as int));
        }
    }
}

pub(crate) proof fn lemma_last_waits<R>(schedule: Schedule<R>, list: Seq<JobId>, until: int)
    requires
        0 <= until <= list.len(),
    ensures
        forall|index: int|
            0 <= index < until && schedule.jobs@[list[index] as int].strict_wait == 1
                ==> last_waits(schedule.jobs@, list, until).contains(#[trigger] list[index]),
        forall|job: JobId| #[trigger]
            last_waits(schedule.jobs@, list, until).contains(job) ==> list.contains(job),
    decreases until,
{
    let all = last_waits(schedule.jobs@, list, until);
    if until > 0 {
        let before = last_waits(schedule.jobs@, list, until - 1);
        lemma_last_waits(schedule, list, until - 1);
        assert forall|index: int|
            0 <= index < until && schedule.jobs@[list[index] as int].strict_wait
                == 1 implies all.contains(#[trigger] list[index]) by {
            if index < until - 1 {
                let at = before.index_of(list[index]);
                assert(all[at] == list[index]);
            } else {
                assert(all[before.len() as int] == list[index]);
            }
        }
        assert forall|job: JobId| #[trigger] all.contains(job) implies list.contains(job) by {
            let at = all.index_of(job);
            if at < before.len() {
                assert(before.contains(before[at]));
            } else {
                assert(list[until - 1] == job);
            }
        }
    }
}

/// The jobs that are woken when a job has finished.
pub open spec fn woken_by<R>(schedule: Schedule<R>, job: JobId) -> Seq<JobId> {
    last_waits(
        schedule.jobs@,
        schedule.successors_of(job as int),
        schedule.successors_of(job as int).len() as int,
    )
}

/// When a job has finished, no job is left behind once the jobs that it wakes are tried.
pub proof fn completed_jobs_are_attended<R>(
    declared: Seq<Seq<DependencyView>>,
    plan: Plan,
    before: Schedule<R>,
    after: Schedule<R>,
    started: Set<JobId>,
    done: Set<JobId>,
    running: Set<JobId>,
    pages: Set<PageId>,
    jobs: Set<JobId>,
    job: JobId,
)
    requires
        planned(declared, plan),
        declared.len() <= u32::MAX,
        before.sound(),
        before.carries(plan),
        before.attended(started, running, pages, jobs),
        forall|other: JobId| #[trigger] running.contains(other) ==> other < before.jobs@.len(),
        in_step(plan.predecessors, before.waits(), started, done),
        job < before.jobs@.len(),
        !done.contains(job),
        before.completes(job as int, after),
    ensures
        after.carries(plan),
        after.attended(started, running, pages, jobs.union(woken_by(before, job).to_set())),
{
    let list = before.successors_of(job as int);
    let woken = woken_by(before, job);
    let more = jobs.union(woken.to_set());
    lemma_still_carries(plan, before, after);
    lemma_last_waits(before, list, list.len() as int);
    assert(list == plan.successors[job as int]);
    lemma_strict_is_backward(declared, plan.candidates);
    lemma_reduced_is_proper(plan.candidates, plan.predecessors);
    assert forall|other: JobId|
        other < before.jobs@.len() && #[trigger] list.contains(other) implies !started.contains(
        other,
    ) && before.jobs@[other as int].strict_wait > 0 by {
        let needed = plan.predecessors[other as int];
        assert(plan.successors[job as int].contains(other));
        assert(needed.contains(job));
        let index = needed.index_of(job);
        if !started.contains(other) {
            unfinished_predecessors_are_waited_for(
                plan.predecessors,
                before.waits(),
                started,
                done,
                other,
                index,
            );
            assert(before.waits()[other as int] == before.jobs@[other as int].strict_wait);
        }
    }
    assert forall|other: JobId| other < before.jobs@.len() implies #[trigger] after.marked(
        other as int,
    ) == before.marked(other as int) by {
        assert(after.jobs@[other as int].home == before.jobs@[other as int].home);
    }
    assert forall|other: JobId|
        other < after.jobs@.len() && after.jobs@[other as int].strict_wait == 0
            && !#[trigger] started.contains(other) && !more.contains(other) implies after.marked(
        other as int,
    ) && (after.hindered(running, other as int) || pages.contains(
        after.jobs@[other as int].home.page,
    )) by {
        assert(!jobs.contains(other));
        assert(!woken.contains(other));
        if list.contains(other) {
            let index = list.index_of(other);
            assert(before.jobs@[list[index] as int].strict_wait == 1);
        }
        assert(after.jobs@[other as int] == before.jobs@[other as int]);
        if before.hindered(running, other as int) {
            let by = choose|by: JobId| #[trigger]
                running.contains(by) && before.clash(other as int, by as int);
            assert(running.contains(by) && after.clash(other as int, by as int));
        }
    }
    assert forall|other: JobId| #[trigger] more.contains(other) implies other < after.jobs@.len()
        && !started.contains(other) by {
        if !jobs.contains(other) {
            assert(woken.contains(other));
            assert(list.contains(other));
        }
    }
    assert forall|page: int, slot: int|
        0 <= page < after.pages@.len() && 0 <= slot < 32 && #[trigger] mask_bit(
            ready_of(after.pages@[page].state),
            slot,
        ) implies slot < after.residents_on(page).len() by {
        assert(mask_bit(ready_of(before.pages@[page].state), slot));
        assert(after.residents_on(page) == before.residents_on(page));
    }
    assert forall|other: JobId|
        other < after.jobs@.len() && #[trigger] started.contains(other) && !running.contains(
            other,
        ) implies after.jobs@[other as int].strict_wait
        == after.jobs@[other as int].strict_wait_initial by {
        assert(!list.contains(other));
    }
}

/// A run leaves no job behind: when no job runs, and there is nothing left to scan or to try, all
/// jobs are done.
pub proof fn paged_runs_leave_no_job_behind<R>(
    declared: Seq<Seq<DependencyView>>,
    plan: Plan,
    schedule: Schedule<R>,
    done: Set<JobId>,
    job: JobId,
)
    requires
        planned(declared, plan),
        declared.len() <= u32::MAX,
        schedule.carries(plan),
        schedule.attended(done, Set::empty(), Set::empty(), Set::empty()),
        in_step(plan.predecessors, schedule.waits(), done, done),
        job < declared.len(),
    ensures
        done.contains(job),
    decreases job,
{
    if !done.contains(job) {
        let needed = plan.predecessors[job as int];
        lemma_strict_is_backward(declared, plan.candidates);
        lemma_reduced_is_proper(plan.candidates, plan.predecessors);
        assert forall|index: int| 0 <= index < needed.len() implies done.contains(
            #[trigger] needed[index],
        ) by {
            paged_runs_leave_no_job_behind(declared, plan, schedule, done, needed[index]);
        }
        lemma_none_missing(needed, done, needed.len() as int);
        assert(schedule.waits()[job as int] == 0);
        assert(schedule.jobs@[job as int].strict_wait == 0);
        assert(schedule.hindered(Set::empty(), job as int));
    }
}

proof fn lemma_none_missing(list: Seq<JobId>, done: Set<JobId>, until: int)
    requires
        0 <= until <= list.len(),
        forall|index: int| 0 <= index < list.len() ==> done.contains(#[trigger] list[index]),
    ensures
        missing(list, done, until) == 0,
    decreases until,
{
    if until > 0 {
        lemma_none_missing(list, done, until - 1);
    }
}

/// After a run of all jobs, the schedule is as it was before: no slot is locked, no job is marked,
/// and each job waits for what it waited for in the beginning.
pub proof fn complete_runs_leave_pages_at_rest<R>(
    declared: Seq<Seq<DependencyView>>,
    plan: Plan,
    schedule: Schedule<R>,
    done: Set<JobId>,
)
    requires
        planned(declared, plan),
        declared.len() <= u32::MAX,
        schedule.sound(),
        schedule.carries(plan),
        schedule.exclusive(Set::empty()),
        schedule.attended(done, Set::empty(), Set::empty(), Set::empty()),
        forall|job: JobId| job < declared.len() ==> #[trigger] done.contains(job),
    ensures
        forall|page: int|
            0 <= page < schedule.pages@.len() ==> (#[trigger] schedule.pages@[page]).state == 0,
        forall|job: int|
            0 <= job < schedule.jobs@.len() ==> (#[trigger] schedule.jobs@[job]).strict_wait
                == schedule.jobs@[job].strict_wait_initial,
{
    assert forall|page: int| 0 <= page < schedule.pages@.len() implies (
    #[trigger] schedule.pages@[page]).state == 0 by {
        let state = schedule.pages@[page].state;
        if lock_of(state) != 0 {
            let slot = lemma_set_slot(lock_of(state));
            assert(schedule.locked_by(Set::empty(), page as PageId, slot as int));
        }
        if ready_of(state) != 0 {
            let slot = lemma_set_slot(ready_of(state));
            assert(mask_bit(ready_of(state), slot as int));
            let job = schedule.residents_on(page)[slot as int];
            assert(schedule.residents_on(page) == plan.layout[page]);
            assert(plan.layout[page][slot as int] == job);
            assert(job < declared.len());
            assert(schedule.jobs@[job as int].home == plan.homes[job as int]);
            assert(schedule.marked(job as int));
            assert(done.contains(job));
        }
        assert((0u64 >> 32) as u32 == 0u32 && 0u64 as u32 == 0u32) by (bit_vector);
        halves_make_the_word(state, 0);
    }
    assert forall|job: int| 0 <= job < schedule.jobs@.len() implies (
    #[trigger] schedule.jobs@[job]).strict_wait == schedule.jobs@[job].strict_wait_initial by {
        assert(done.contains(job as JobId));
    }
}

} // verus!

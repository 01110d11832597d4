//! What the places of jobs on pages are for: what a job locks, what it finds locked, and whom it wakes.

use crate::dag::{essential, JobId};
use crate::depend::DependencyView;
use crate::layout::Home;
use crate::normalize::Relation;
use crate::pages::{
    last_waits, lemma_mask_on, locks, mask_on, occupies, other_pages, planned, ready_residents,
    Attempt, Node, PageId, Plan, Schedule,
};
use crate::plan::relation_between;
use crate::word::{lemma_common_slot, lemma_mask_join, lemma_mask_single, lock_of, mask_bit, ready_of};
use vstd::prelude::*;

verus! {

/// The bit of a place on a page is that of its slot, and no other.
pub proof fn places_have_one_bit(home: Home, bit: u32, slot: u32)
    requires
        home.slot < 32,
        slot < 32,
        call_ensures(Home::ready_bit, (home,), bit),
    ensures
        mask_bit(bit, slot as int) == (slot == home.slot),
{
    lemma_mask_single(home.slot as u32, slot);
}

/// A job locks its own place and those of the jobs that it is related to in a relaxed way. It locks the
/// place of no other job.
pub proof fn jobs_lock_no_more_than_they_must(
    declared: Seq<Seq<DependencyView>>,
    plan: Plan,
    left: JobId,
    right: JobId,
)
    requires
        planned(declared, plan),
        left < declared.len() <= u32::MAX,
        right < declared.len(),
    ensures
        locks(
            plan.acquires[left as int],
            plan.homes[right as int].page,
            plan.homes[right as int].slot as int,
        ) == (left == right || relation_between(declared, left as int, right as int)
            == Relation::Relaxed),
{
    let home = plan.homes[right as int];
    let jobs = seq![left] + plan.neighbors[left as int];
    let place = lemma_place(declared, plan, right);
    assert(crate::pages::acquires_of(plan.homes, jobs, plan.acquires[left as int]));
    assert(locks(plan.acquires[left as int], home.page, home.slot as int) == occupies(
        plan.homes,
        jobs,
        home.page,
        home.slot as int,
    ));
    assert(plan.neighbors[left as int].contains(right) == (right < declared.len() && right != left
        && relation_between(declared, right as int, left as int) == Relation::Relaxed));
    crate::plan::lemma_relation_is_mutual(declared, left as int, right as int);
    if occupies(plan.homes, jobs, home.page, home.slot as int) {
        let index = choose|index: int|
            0 <= index < jobs.len() && plan.homes[(#[trigger] jobs[index]) as int].page == home.page
                && plan.homes[jobs[index] as int].slot == home.slot;
        let other = jobs[index];
        if index > 0 {
            assert(other == plan.neighbors[left as int][index - 1]);
            assert(plan.neighbors[left as int].contains(other));
        }
        let there = lemma_place(declared, plan, other);
        assert(place == there);
        assert(other == right);
    }
    if left == right {
        assert(jobs[0] == right);
    } else if plan.neighbors[left as int].contains(right) {
        let index = plan.neighbors[left as int].index_of(right);
        assert(jobs[index + 1] == right);
    }
}

proof fn lemma_place(declared: Seq<Seq<DependencyView>>, plan: Plan, job: JobId) -> (place: (
    int,
    int,
))
    requires
        planned(declared, plan),
        job < declared.len() <= u32::MAX,
    ensures
        0 <= place.0 < plan.layout.len(),
        0 <= place.1 < plan.layout[place.0].len(),
        plan.layout[place.0][place.1] == job,
        plan.homes[job as int].page == place.0,
        plan.homes[job as int].slot == place.1,
        place.1 < 32,
{
    assert(crate::layout::placed(plan.layout, job));
    let page = choose|page: int|
        0 <= page < plan.layout.len() && (#[trigger] plan.layout[page]).contains(job);
    let slot = plan.layout[page].index_of(job);
    assert(plan.layout[page][slot] == job);
    crate::layout::lemma_page_bound(plan.layout, declared.len() as int);
    assert(plan.layout[page].len() <= 32);
    assert(plan.homes[plan.layout[page][slot] as int] == (Home {
        page: page as u32,
        slot: slot as u8,
    }));
    (page, slot)
}

/// A job waits for the end of those jobs only that are declared before it and strictly related to it.
pub proof fn jobs_wait_for_strict_ones_only(
    declared: Seq<Seq<DependencyView>>,
    plan: Plan,
    left: JobId,
    right: JobId,
)
    requires
        planned(declared, plan),
        right < declared.len() <= u32::MAX,
        plan.predecessors[right as int].contains(left),
    ensures
        left < right,
        relation_between(declared, left as int, right as int) == Relation::Strict,
{
    let index = choose|index: int| #[trigger]
        essential(plan.candidates, right as int, index) && plan.candidates[right as int][index]
            == left;
    assert(plan.candidates[right as int].contains(left));
}

/// A job that is tried starts exactly where it waits for no other and none of the places that it locks
/// is locked. All of them are locked then, and nothing else changes but that it is no longer ready.
/// Where one is locked the job is marked as ready, and nothing is locked.
pub proof fn jobs_start_where_nothing_is_locked<R>(
    schedule: &mut Schedule<R>,
    job: JobId,
    attempt: Attempt,
    page: PageId,
    slot: u32,
)
    requires
        old(schedule).sound(),
        job < old(schedule).jobs@.len(),
        call_ensures(Schedule::<R>::attempt_job, (schedule, job), attempt),
        page < old(schedule).pages@.len(),
        slot < 32,
    ensures
        ({
            let node = old(schedule).jobs@[job as int];
            let acquires = old(schedule).acquires_by(job as int);
            let before = old(schedule).pages@[page as int].state;
            let after = final(schedule).pages@[page as int].state;
            let own = node.home.page == page && node.home.slot == slot;
            let wanted = locks(acquires, page, slot as int);
            &&& attempt is Waiting == (node.strict_wait != 0)
            &&& attempt is Started ==> !(wanted && mask_bit(lock_of(before), slot as int))
            &&& attempt is Blocked ==> exists|at: int, bit: u32|
                0 <= at < acquires.len() && bit < 32 && mask_bit(
                    (#[trigger] acquires[at]).mask,
                    bit as int,
                ) && #[trigger] mask_bit(
                    lock_of(old(schedule).pages@[acquires[at].page as int].state),
                    bit as int,
                )
            &&& mask_bit(lock_of(after), slot as int) == (mask_bit(lock_of(before), slot as int)
                || attempt is Started && wanted)
            &&& mask_bit(ready_of(after), slot as int) == match attempt {
                Attempt::Waiting => mask_bit(ready_of(before), slot as int),
                Attempt::Started => mask_bit(ready_of(before), slot as int) && !own,
                Attempt::Blocked => mask_bit(ready_of(before), slot as int) || own,
            }
        }),
{
    let start = *old(schedule);
    let end = *final(schedule);
    let node = start.jobs@[job as int];
    let acquires = start.acquires_by(job as int);
    let before = start.pages@[page as int].state;
    let after = end.pages@[page as int].state;
    let mask = mask_on(acquires, page as int);
    let bit = start.bit_on(job as int, page as int);
    assert(node.home.slot < 32);
    lemma_mask_on(acquires, page as int);
    assert(mask_bit(mask, slot as int) == locks(acquires, page, slot as int));
    lemma_mask_join(lock_of(before), mask, slot);
    lemma_mask_join(ready_of(before), bit, slot);
    lemma_mask_single(node.home.slot as u32, slot);
    assert(mask_bit(bit, slot as int) == (node.home.page == page && node.home.slot == slot)) by {
        lemma_mask_join(0, 0, slot);
    }
    if attempt is Started {
        assert(end.pages@[page as int] == end.pages@[page as int]);
        if locks(acquires, page, slot as int) {
            let at = choose|index: int|
                0 <= index < acquires.len() && (#[trigger] acquires[index]).page == page && mask_bit(
                    acquires[index].mask,
                    slot as int,
                );
            assert(lock_of(start.pages@[acquires[at].page as int].state) & acquires[at].mask == 0);
            crate::word::lemma_masks_disjoint(lock_of(before), acquires[at].mask, slot);
        }
    }
    if attempt is Blocked {
        assert(end.pages@[page as int] == end.pages@[page as int]);
        let at = choose|index: int|
            0 <= index < acquires.len() && lock_of(
                start.pages@[(#[trigger] acquires[index]).page as int].state,
            ) & acquires[index].mask != 0;
        let taken = lemma_common_slot(
            lock_of(start.pages@[acquires[at].page as int].state),
            acquires[at].mask,
        );
        assert(mask_bit(acquires[at].mask, taken as int));
        assert(mask_bit(
            lock_of(start.pages@[acquires[at].page as int].state),
            taken as int,
        ));
    }
}

/// A job that has run unlocks the places that it locked, and no other. It waits again for as many jobs
/// as in the beginning.
pub proof fn released_jobs_unlock_their_places<R>(
    schedule: &mut Schedule<R>,
    job: JobId,
    page: PageId,
    slot: u32,
    other: JobId,
)
    requires
        old(schedule).sound(),
        job < old(schedule).jobs@.len(),
        other < old(schedule).jobs@.len(),
        call_ensures(Schedule::<R>::release_job, (schedule, job), ()),
        page < old(schedule).pages@.len(),
        slot < 32,
    ensures
        ({
            let acquires = old(schedule).acquires_by(job as int);
            let before = old(schedule).pages@[page as int].state;
            let after = final(schedule).pages@[page as int].state;
            &&& mask_bit(lock_of(after), slot as int) == (mask_bit(lock_of(before), slot as int)
                && !locks(acquires, page, slot as int))
            &&& ready_of(after) == ready_of(before)
            &&& final(schedule).jobs@[other as int].strict_wait == if other == job {
                old(schedule).jobs@[job as int].strict_wait_initial
            } else {
                old(schedule).jobs@[other as int].strict_wait
            }
        }),
{
    let start = *old(schedule);
    let end = *final(schedule);
    let acquires = start.acquires_by(job as int);
    let before = start.pages@[page as int].state;
    let mask = mask_on(acquires, page as int);
    assert(start.jobs@[job as int] == start.jobs@[job as int]);
    lemma_mask_on(acquires, page as int);
    assert(mask_bit(mask, slot as int) == locks(acquires, page, slot as int));
    lemma_mask_join(lock_of(before), mask, slot);
    assert(end.pages@[page as int] == end.pages@[page as int]);
    assert(end.jobs@[other as int] == end.jobs@[other as int]);
}

proof fn lemma_last_waits<R>(jobs: Seq<Node<R>>, list: Seq<JobId>, until: int, job: JobId)
    requires
        0 <= until <= list.len(),
    ensures
        last_waits(jobs, list, until).contains(job) == (list.take(until).contains(job)
            && jobs[job as int].strict_wait == 1),
    decreases until,
{
    let woken = last_waits(jobs, list, until);
    if until > 0 {
        let last = until - 1;
        lemma_last_waits(jobs, list, last, job);
        let before = last_waits(jobs, list, last);
        let shorter = list.take(last);
        let longer = list.take(until);
        assert(longer =~= shorter.push(list[last]));
        assert(longer.contains(job) == (shorter.contains(job) || job == list[last])) by {
            if shorter.contains(job) {
                assert(longer[shorter.index_of(job)] == job);
            }
            assert(longer[last] == list[last]);
            if longer.contains(job) {
                let at = longer.index_of(job);
                if at < last {
                    assert(shorter[at] == job);
                }
            }
        }
        if jobs[list[last] as int].strict_wait == 1 {
            assert(woken == before.push(list[last]));
            assert(woken.contains(job) == (before.contains(job) || job == list[last])) by {
                if before.contains(job) {
                    assert(woken[before.index_of(job)] == job);
                }
                assert(woken[before.len() as int] == list[last]);
                if woken.contains(job) {
                    let at = woken.index_of(job);
                    if at < before.len() {
                        assert(before[at] == job);
                    }
                }
            }
        }
    }
}

/// A job that has finished wakes those of its successors that waited for nothing but it. Each of its
/// successors waits for one job less, and no other job for anything else than before.
pub proof fn completed_jobs_wake_what_waited_for_them<R>(
    schedule: &mut Schedule<R>,
    job: JobId,
    woken: Vec<JobId>,
    other: JobId,
)
    requires
        old(schedule).sound(),
        job < old(schedule).jobs@.len(),
        other < old(schedule).jobs@.len(),
        call_ensures(Schedule::<R>::complete_job, (schedule, job), woken),
    ensures
        ({
            let list = old(schedule).successors_of(job as int);
            let before = old(schedule).jobs@[other as int];
            let after = final(schedule).jobs@[other as int];
            &&& woken@.contains(other) == (list.contains(other) && before.strict_wait == 1)
            &&& list.contains(other) && before.strict_wait > 0 ==> after.strict_wait
                == before.strict_wait - 1
            &&& !list.contains(other) ==> after == before
            &&& final(schedule).pages == old(schedule).pages
        }),
{
    let list = old(schedule).successors_of(job as int);
    lemma_last_waits(old(schedule).jobs@, list, list.len() as int, other);
    assert(list.take(list.len() as int) =~= list);
    assert(final(schedule).jobs@[other as int] == final(schedule).jobs@[other as int]);
}

proof fn lemma_ready_residents(residents: Seq<JobId>, ready: u32, until: int) -> (slots: Seq<int>)
    requires
        0 <= until <= residents.len(),
    ensures
        ({
            let list = ready_residents(residents, ready, until);
            &&& slots.len() == list.len()
            &&& forall|at: int|
                0 <= at < slots.len() ==> 0 <= #[trigger] slots[at] < until && mask_bit(
                    ready,
                    slots[at],
                ) && list[at] == residents[slots[at]]
            &&& forall|left: int, right: int|
                0 <= left < right < slots.len() ==> #[trigger] slots[left] < #[trigger] slots[right]
            &&& forall|slot: int|
                0 <= slot < until && #[trigger] mask_bit(ready, slot) ==> slots.contains(slot)
        }),
    decreases until,
{
    if until > 0 {
        let last = until - 1;
        let before = lemma_ready_residents(residents, ready, last);
        if mask_bit(ready, last) {
            let slots = before.push(last);
            assert forall|slot: int| 0 <= slot < until && #[trigger] mask_bit(
                ready,
                slot,
            ) implies slots.contains(slot) by {
                if slot < last {
                    assert(slots[before.index_of(slot)] == slot);
                } else {
                    assert(slots[before.len() as int] == slot);
                }
            }
            slots
        } else {
            before
        }
    } else {
        Seq::empty()
    }
}

/// Looking at a page finds the jobs whose slots are marked as ready, each once, in the order of the
/// slots.
pub proof fn pages_show_their_ready_jobs<R>(
    schedule: Schedule<R>,
    page: PageId,
    pending: Vec<JobId>,
) -> (slots: Seq<int>)
    requires
        schedule.sound(),
        page < schedule.pages@.len(),
        schedule.residents_on(page as int).len() <= 32,
        call_ensures(Schedule::<R>::scan_page, (&schedule, page), pending),
    ensures
        ({
            let residents = schedule.residents_on(page as int);
            let ready = ready_of(schedule.pages@[page as int].state);
            &&& slots.len() == pending@.len()
            &&& forall|at: int|
                0 <= at < slots.len() ==> 0 <= #[trigger] slots[at] < residents.len() && mask_bit(
                    ready,
                    slots[at],
                ) && pending@[at] == residents[slots[at]]
            &&& forall|left: int, right: int|
                0 <= left < right < slots.len() ==> #[trigger] slots[left] < #[trigger] slots[right]
            &&& forall|slot: int|
                0 <= slot < residents.len() && #[trigger] mask_bit(ready, slot)
                    ==> slots.contains(slot)
        }),
{
    let residents = schedule.residents_on(page as int);
    lemma_ready_residents(
        residents,
        ready_of(schedule.pages@[page as int].state),
        residents.len() as int,
    )
}

proof fn lemma_other_pages(list: Seq<PageId>, own: PageId, page: PageId)
    ensures
        other_pages(list, own).contains(page) == (list.contains(page) && page != own),
    decreases list.len(),
{
    reveal(Seq::filter);
    if list.len() > 0 {
        let shorter = list.drop_last();
        lemma_other_pages(shorter, own, page);
        let before = other_pages(shorter, own);
        let after = other_pages(list, own);
        assert(list =~= shorter.push(list.last()));
        if list.last() != own {
            assert(after == before.push(list.last()));
            assert(after[before.len() as int] == list.last());
        } else {
            assert(after == before);
        }
        if before.contains(page) {
            assert(after[before.index_of(page)] == page);
        }
        if after.contains(page) && list.last() != page {
            assert(before[after.index_of(page)] == page);
        }
        if shorter.contains(page) {
            assert(list[shorter.index_of(page)] == page);
        }
        if list.contains(page) && list.last() != page {
            assert(shorter[list.index_of(page)] == page);
        }
    }
}

proof fn lemma_followers_after<R>(schedule: Schedule<R>, job: int, until: int, page: PageId)
    requires
        0 <= until <= schedule.acquires_by(job).len(),
    ensures
        schedule.followers_after(job, until).contains(page) == (page != schedule.jobs@[job].home.page
            && exists|at: int|
            0 <= at < until && schedule.followers_of(
                (#[trigger] schedule.acquires_by(job)[at]).page as int,
            ).contains(page)),
    decreases until,
{
    if until > 0 {
        let last = until - 1;
        lemma_followers_after(schedule, job, last, page);
        let before = schedule.followers_after(job, last);
        let own = schedule.jobs@[job].home.page;
        let list = schedule.followers_of(schedule.acquires_by(job)[last].page as int);
        let more = other_pages(list, own);
        lemma_other_pages(list, own, page);
        let whole = before + more;
        assert(whole.contains(page) == (before.contains(page) || more.contains(page))) by {
            if before.contains(page) {
                assert(whole[before.index_of(page)] == page);
            }
            if more.contains(page) {
                assert(whole[before.len() + more.index_of(page)] == page);
            }
            if whole.contains(page) {
                let at = whole.index_of(page);
                if at < before.len() {
                    assert(before[at] == page);
                } else {
                    assert(more[at - before.len()] == page);
                }
            }
        }
        if exists|at: int|
            0 <= at < until && schedule.followers_of(
                (#[trigger] schedule.acquires_by(job)[at]).page as int,
            ).contains(page) {
            let at = choose|at: int|
                0 <= at < until && schedule.followers_of(
                    (#[trigger] schedule.acquires_by(job)[at]).page as int,
                ).contains(page);
            if at < last {
                assert(schedule.followers_of(
                    schedule.acquires_by(job)[at].page as int,
                ).contains(page));
            }
        }
    }
}

/// Once a job has run, its own page is looked at first, then each other page with a job that locks a
/// place on one of the pages that it locked, and no page beside these.
pub proof fn pages_that_waited_are_looked_at<R>(
    schedule: Schedule<R>,
    job: JobId,
    pages: Vec<PageId>,
    page: PageId,
)
    requires
        schedule.sound(),
        job < schedule.jobs@.len(),
        call_ensures(Schedule::<R>::pages_to_scan, (&schedule, job), pages),
    ensures
        pages@.len() > 0,
        pages@[0] == schedule.jobs@[job as int].home.page,
        pages@.contains(page) == (page == schedule.jobs@[job as int].home.page || exists|at: int|
            0 <= at < schedule.acquires_by(job as int).len() && schedule.followers_of(
                (#[trigger] schedule.acquires_by(job as int)[at]).page as int,
            ).contains(page)),
{
    let own = schedule.jobs@[job as int].home.page;
    let rest = schedule.followers_after(job as int, schedule.acquires_by(job as int).len() as int);
    lemma_followers_after(
        schedule,
        job as int,
        schedule.acquires_by(job as int).len() as int,
        page,
    );
    assert(pages@ == seq![own] + rest);
    assert(pages@[0] == own);
    if rest.contains(page) {
        assert(pages@[rest.index_of(page) + 1] == page);
    }
    if pages@.contains(page) {
        let at = pages@.index_of(page);
        if at > 0 {
            assert(rest[at - 1] == page);
        }
    }
}

/// A page is looked at again after a change on another one exactly where a job that is at home there
/// locks a place on that one.
pub proof fn pages_follow_where_their_jobs_lock(
    declared: Seq<Seq<DependencyView>>,
    plan: Plan,
    page: PageId,
    follower: PageId,
)
    requires
        planned(declared, plan),
        page < plan.followers.len(),
    ensures
        plan.followers[page as int].contains(follower) == (follower != page && exists|job: int|
            0 <= job < declared.len() && (#[trigger] plan.homes[job]).page == follower && exists|
                at: int,
            |
                0 <= at < plan.acquires[job].len() && (#[trigger] plan.acquires[job][at]).page
                    == page),
{
    assert(plan.followers[page as int].contains(follower) == crate::pages::follows(
        plan.homes,
        plan.acquires,
        page,
        follower,
    ));
}

} // verus!

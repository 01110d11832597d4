//! Schedules that keep jobs apart by locks on pages.
//!
//! Each job has a place on a page. Jobs that may not overlap, but may run in any order, lock each
//! other's places; jobs that are strictly related wait for one another.

use crate::dag::{
    ascending, build_successors, find_roots, insert_ascending, inverted, lists, proper, reaches,
    reduce_strict, reduced, JobId,
};
use crate::depend::DependencyView;
use crate::error::Error;
use crate::job::Job;
use crate::layout::{
    contents, find_homes, homes_in, join, joined, joined_range, laid_out, lay_out,
    layouts_place_each_job_once, lemma_joined, lemma_page_bound, placed, settled, undirected, Home,
};
use crate::normalize::{relation_of, Relation};
use crate::order::within;
use crate::plan::{
    all_consistent, declarations, jobs_rejected_with, lemma_reduced_is_proper,
    lemma_relation_is_mutual, lemma_strict_is_backward, normalize_jobs, payloads, relate_jobs,
    relation_between, relaxed_beside, strict_jobs_are_connected, strictly_after,
};
use crate::waits::{
    finishing_stays_in_step, in_step, jobs_start_after_those_that_reach_them, runs_begin_in_step,
    unfinished_predecessors_are_waited_for,
};
use crate::word::{
    lemma_mask_join, lemma_mask_single, lemma_masks_disjoint, lock_of, mark_ready, mask_bit,
    ready_of, release_mask, reserve_page,
};
use std::ops::Range;
use vstd::prelude::*;

verus! {

pub type PageId = u32;

impl Home {
    /// The bit of the slot.
    pub fn ready_bit(self) -> (bit: u32)
        requires
            self.slot < 32,
        ensures
            bit == 1u32 << (self.slot as u32),
    {
        1u32 << (self.slot as u32)
    }
}

/// The slots of a page that a job locks.
#[derive(Debug, Copy, Clone, PartialEq, Eq, Structural)]
pub struct Acquire {
    pub page: PageId,
    pub mask: u32,
}

impl Acquire {
    pub fn new(page: PageId, mask: u32) -> (acquire: Self)
        ensures
            acquire.page == page,
            acquire.mask == mask,
    {
        Acquire { page, mask }
    }
}

/// Whether each page of a list of acquires comes before those after it.
pub open spec fn rising_pages(acquires: Seq<Acquire>) -> bool {
    forall|left: int, right: int|
        0 <= left < right < acquires.len() ==> (#[trigger] acquires[left]).page < (
        #[trigger] acquires[right]).page
}

/// Whether a list of acquires names a page.
pub open spec fn names_page(acquires: Seq<Acquire>, page: PageId) -> bool {
    exists|index: int| 0 <= index < acquires.len() && (#[trigger] acquires[index]).page == page
}

/// Whether a list of acquires locks a slot of a page.
pub open spec fn locks(acquires: Seq<Acquire>, page: PageId, slot: int) -> bool {
    exists|index: int|
        0 <= index < acquires.len() && (#[trigger] acquires[index]).page == page && mask_bit(
            acquires[index].mask,
            slot,
        )
}

/// Whether one of `jobs` has its place in a slot of a page.
pub open spec fn occupies(
    homes: Seq<Home>,
    jobs: Seq<JobId>,
    page: PageId,
    slot: int,
) -> bool {
    exists|index: int|
        0 <= index < jobs.len() && homes[(#[trigger] jobs[index]) as int].page == page
            && homes[jobs[index] as int].slot == slot
}

/// Whether one of `jobs` has its place on a page.
pub open spec fn resides(homes: Seq<Home>, jobs: Seq<JobId>, page: PageId) -> bool {
    exists|index: int|
        0 <= index < jobs.len() && homes[(#[trigger] jobs[index]) as int].page == page
}

/// Whether `acquires` locks, page by page, the places of `jobs` and nothing else.
pub open spec fn acquires_of(
    homes: Seq<Home>,
    jobs: Seq<JobId>,
    acquires: Seq<Acquire>,
) -> bool {
    &&& rising_pages(acquires)
    &&& forall|page: PageId| #[trigger]
        names_page(acquires, page) == resides(homes, jobs, page)
    &&& forall|page: PageId, slot: int|
        0 <= slot < 32 ==> #[trigger] locks(acquires, page, slot) == occupies(
            homes,
            jobs,
            page,
            slot,
        )
}

/// Adds the place of a job to a list of acquires.
fn acquire_home(acquires: &mut Vec<Acquire>, home: Home)
    requires
        home.slot < 32,
        rising_pages(old(acquires)@),
    ensures
        rising_pages(final(acquires)@),
        forall|page: PageId| #[trigger]
            names_page(final(acquires)@, page) == (names_page(old(acquires)@, page) || page
                == home.page),
        forall|page: PageId, slot: int|
            0 <= slot < 32 ==> #[trigger] locks(final(acquires)@, page, slot) == (locks(
                old(acquires)@,
                page,
                slot,
            ) || page == home.page && slot == home.slot),
{
    let ghost before = acquires@;
    let mut index: usize = 0;
    while index < acquires.len() && acquires[index].page < home.page
        invariant
            index <= acquires.len(),
            acquires@ == before,
            forall|at: int| 0 <= at < index ==> (#[trigger] before[at]).page < home.page,
        decreases acquires.len() - index,
    {
        index += 1;
    }
    let bit = home.ready_bit();
    let ghost own = index as int;
    if index < acquires.len() && acquires[index].page == home.page {
        let mask = acquires[index].mask | bit;
        acquires.set(index, Acquire::new(home.page, mask));
        let ghost after = acquires@;
        assert forall|page: PageId| #[trigger] names_page(after, page) == (names_page(before, page)
            || page == home.page) by {
            if names_page(before, page) {
                let at = choose|at: int|
                    0 <= at < before.len() && (#[trigger] before[at]).page == page;
                assert(after[at].page == page);
            }
            if names_page(after, page) {
                let at = choose|at: int|
                    0 <= at < after.len() && (#[trigger] after[at]).page == page;
                assert(before[at].page == page);
            }
            assert(after[own].page == home.page);
        }
        assert forall|page: PageId, slot: int| 0 <= slot < 32 implies #[trigger] locks(
            after,
            page,
            slot,
        ) == (locks(before, page, slot) || page == home.page && slot == home.slot) by {
            lemma_mask_join(before[own].mask, bit, slot as u32);
            lemma_mask_single(home.slot as u32, slot as u32);
            if locks(before, page, slot) {
                let at = choose|at: int|
                    0 <= at < before.len() && (#[trigger] before[at]).page == page && mask_bit(
                        before[at].mask,
                        slot,
                    );
                assert(after[at].page == page && mask_bit(after[at].mask, slot));
            }
            if page == home.page && slot == home.slot {
                assert(after[own].page == page && mask_bit(after[own].mask, slot));
            }
            if locks(after, page, slot) {
                let at = choose|at: int|
                    0 <= at < after.len() && (#[trigger] after[at]).page == page && mask_bit(
                        after[at].mask,
                        slot,
                    );
                assert(before[at].page == page);
            }
        }
    } else {
        acquires.insert(index, Acquire::new(home.page, bit));
        let ghost after = acquires@;
        assert forall|page: PageId| #[trigger] names_page(after, page) == (names_page(before, page)
            || page == home.page) by {
            if names_page(before, page) {
                let at = choose|at: int|
                    0 <= at < before.len() && (#[trigger] before[at]).page == page;
                assert(after[if at < own {
                    at
                } else {
                    at + 1
                }].page == page);
            }
            if names_page(after, page) && page != home.page {
                let at = choose|at: int|
                    0 <= at < after.len() && (#[trigger] after[at]).page == page;
                assert(before[if at < own {
                    at
                } else {
                    at - 1
                }].page == page);
            }
            assert(after[own].page == home.page);
        }
        assert forall|page: PageId, slot: int| 0 <= slot < 32 implies #[trigger] locks(
            after,
            page,
            slot,
        ) == (locks(before, page, slot) || page == home.page && slot == home.slot) by {
            lemma_mask_single(home.slot as u32, slot as u32);
            if locks(before, page, slot) {
                let at = choose|at: int|
                    0 <= at < before.len() && (#[trigger] before[at]).page == page && mask_bit(
                        before[at].mask,
                        slot,
                    );
                let place = if at < own {
                    at
                } else {
                    at + 1
                };
                assert(after[place] == before[at]);
            }
            if page == home.page && slot == home.slot {
                assert(after[own].page == page && mask_bit(after[own].mask, slot));
            }
            if locks(after, page, slot) {
                let at = choose|at: int|
                    0 <= at < after.len() && (#[trigger] after[at]).page == page && mask_bit(
                        after[at].mask,
                        slot,
                    );
                if at != own {
                    let place = if at < own {
                        at
                    } else {
                        at - 1
                    };
                    assert(before[place] == after[at]);
                }
            }
        }
    }
}

/// The locks that a job takes: its own place and those of its neighbors.
fn build_acquires(homes: &[Home], job: JobId, neighbors: &[JobId]) -> (acquires: Vec<Acquire>)
    requires
        job < homes@.len(),
        within(neighbors@, homes@.len() as int),
        forall|at: int| 0 <= at < homes@.len() ==> (#[trigger] homes@[at]).slot < 32,
    ensures
        acquires_of(homes@, seq![job] + neighbors@, acquires@),
{
    let ghost all = seq![job] + neighbors@;
    let mut acquires: Vec<Acquire> = Vec::new();
    acquire_home(&mut acquires, homes[job as usize]);
    proof {
        assert forall|page: PageId| #[trigger] names_page(acquires@, page) == resides(
            homes@,
            all.take(1),
            page,
        ) by {
            assert(all.take(1)[0] == job);
        }
        assert forall|page: PageId, slot: int| 0 <= slot < 32 implies #[trigger] locks(
            acquires@,
            page,
            slot,
        ) == occupies(homes@, all.take(1), page, slot) by {
            assert(all.take(1)[0] == job);
        }
    }
    for index in 0..neighbors.len()
        invariant
            all == seq![job] + neighbors@,
            within(neighbors@, homes@.len() as int),
            forall|at: int| 0 <= at < homes@.len() ==> (#[trigger] homes@[at]).slot < 32,
            acquires_of(homes@, all.take(index + 1), acquires@),
    {
        let ghost shorter = all.take(index + 1);
        let ghost longer = all.take(index + 2);
        let neighbor = neighbors[index];
        let ghost held = acquires@;
        acquire_home(&mut acquires, homes[neighbor as usize]);
        proof {
            assert(longer =~= shorter.push(neighbor));
            let last = shorter.len() as int;
            assert forall|page: PageId| resides(homes@, longer, page) == (#[trigger] resides(
                homes@,
                shorter,
                page,
            ) || homes@[neighbor as int].page == page) by {
                if resides(homes@, shorter, page) {
                    let at = choose|at: int|
                        0 <= at < shorter.len() && homes@[(#[trigger] shorter[at]) as int].page
                            == page;
                    assert(longer[at] == shorter[at]);
                }
                assert(longer[last] == neighbor);
                if resides(homes@, longer, page) {
                    let at = choose|at: int|
                        0 <= at < longer.len() && homes@[(#[trigger] longer[at]) as int].page
                            == page;
                    if at < last {
                        assert(shorter[at] == longer[at]);
                    }
                }
            }
            assert forall|page: PageId, slot: int| occupies(homes@, longer, page, slot) == (
            #[trigger] occupies(homes@, shorter, page, slot) || homes@[neighbor as int].page == page
                && homes@[neighbor as int].slot == slot) by {
                if occupies(homes@, shorter, page, slot) {
                    let at = choose|at: int|
                        0 <= at < shorter.len() && homes@[(#[trigger] shorter[at]) as int].page
                            == page && homes@[shorter[at] as int].slot == slot;
                    assert(longer[at] == shorter[at]);
                }
                assert(longer[last] == neighbor);
                if occupies(homes@, longer, page, slot) {
                    let at = choose|at: int|
                        0 <= at < longer.len() && homes@[(#[trigger] longer[at]) as int].page
                            == page && homes@[longer[at] as int].slot == slot;
                    if at < last {
                        assert(shorter[at] == longer[at]);
                    }
                }
            }
            assert forall|page: PageId| #[trigger] names_page(acquires@, page) == resides(
                homes@,
                longer,
                page,
            ) by {
                assert(names_page(held, page) == resides(homes@, shorter, page));
            }
            assert forall|page: PageId, slot: int| 0 <= slot < 32 implies #[trigger] locks(
                acquires@,
                page,
                slot,
            ) == occupies(homes@, longer, page, slot) by {
                assert(locks(held, page, slot) == occupies(homes@, shorter, page, slot));
            }
        }
    }
    assert(all.take(all.len() as int) =~= all);
    acquires
}

/// Whether a job on page `follower` locks a place on another page, `page`.
pub open spec fn follows(
    homes: Seq<Home>,
    acquires: Seq<Seq<Acquire>>,
    page: PageId,
    follower: PageId,
) -> bool {
    follower != page && exists|job: int|
        0 <= job < homes.len() && (#[trigger] homes[job]).page == follower && names_page(
            acquires[job],
            page,
        )
}

/// Whether `followers` holds, in order, for each page the other pages with a job that locks a place
/// on it.
pub open spec fn followed(
    homes: Seq<Home>,
    acquires: Seq<Seq<Acquire>>,
    followers: Seq<Seq<PageId>>,
) -> bool {
    forall|page: PageId|
        #![trigger followers[page as int]]
        page < followers.len() ==> ascending(followers[page as int]) && forall|follower: PageId|
            #[trigger]
            followers[page as int].contains(follower) == follows(homes, acquires, page, follower)
}

/// The pages that have to be looked at again when a place on a page becomes free.
fn build_followers(homes: &[Home], acquires: &[Vec<Acquire>], pages: usize) -> (followers: Vec<
    Vec<PageId>,
>)
    requires
        homes@.len() == acquires@.len(),
        forall|job: int, index: int|
            0 <= job < acquires@.len() && 0 <= index < acquires@[job]@.len() ==> (
            #[trigger] acquires@[job]@[index]).page < pages,
    ensures
        followers@.len() == pages,
        followed(homes@, contents(acquires@), lists(followers@)),
{
    let ghost all = contents(acquires@);
    let mut followers: Vec<Vec<PageId>> = Vec::new();
    for page in 0..pages
        invariant
            followers.len() == page,
            forall|at: int|
                0 <= at < page ==> (#[trigger] followers@[at])@ == Seq::<PageId>::empty(),
    {
        followers.push(Vec::new());
    }
    for job in 0..homes.len()
        invariant
            all == contents(acquires@),
            homes@.len() == acquires@.len(),
            forall|job: int, index: int|
                0 <= job < acquires@.len() && 0 <= index < acquires@[job]@.len() ==> (
                #[trigger] acquires@[job]@[index]).page < pages,
            followers.len() == pages,
            forall|page: PageId|
                #![trigger followers@[page as int]]
                page < pages ==> ascending(followers@[page as int]@) && forall|follower: PageId|
                    #[trigger]
                    followers@[page as int]@.contains(follower) == (follower != page && exists|
                        at: int,
                    |
                        0 <= at < job && (#[trigger] homes@[at]).page == follower && names_page(
                            all[at],
                            page,
                        )),
    {
        let home = homes[job];
        let ghost own = all[job as int];
        assert(own == acquires@[job as int]@);
        let ghost start = followers@;
        let length: usize = acquires[job].len();
        for index in 0..length
            invariant
                all == contents(acquires@),
                job < homes@.len(),
                homes@.len() == acquires@.len(),
                home == homes@[job as int],
                own == all[job as int],
                own == acquires@[job as int]@,
                length == own.len(),
                forall|job: int, index: int|
                    0 <= job < acquires@.len() && 0 <= index < acquires@[job]@.len() ==> (
                    #[trigger] acquires@[job]@[index]).page < pages,
                start.len() == pages,
                followers.len() == pages,
                forall|page: PageId|
                    #![trigger followers@[page as int]]
                    page < pages ==> ascending(followers@[page as int]@) && forall|
                        follower: PageId,
                    | #[trigger]
                        followers@[page as int]@.contains(follower) == (
                        start[page as int]@.contains(follower) || follower == home.page && follower
                            != page && names_page(own.take(index as int), page)),
        {
            let acquire = acquires[job][index];
            assert(acquires@[job as int]@[index as int] == acquire);
            let ghost before = followers@;
            if acquire.page != home.page {
                let mut list: Vec<PageId> = Vec::new();
                std::mem::swap(&mut list, &mut followers[acquire.page as usize]);
                insert_ascending(&mut list, home.page);
                followers.set(acquire.page as usize, list);
            }
            assert forall|page: PageId|
                #![trigger followers@[page as int]]
                page < pages implies ascending(followers@[page as int]@) && forall|follower: PageId|
                #[trigger]
                followers@[page as int]@.contains(follower) == (start[page as int]@.contains(
                    follower,
                ) || follower == home.page && follower != page && names_page(
                    own.take(index + 1),
                    page,
                )) by {
                let shorter = own.take(index as int);
                let longer = own.take(index + 1);
                assert(longer =~= shorter.push(acquire));
                assert(names_page(longer, page) == (names_page(shorter, page) || page
                    == acquire.page)) by {
                    if names_page(shorter, page) {
                        let at = choose|at: int|
                            0 <= at < shorter.len() && (#[trigger] shorter[at]).page == page;
                        assert(longer[at].page == page);
                    }
                    if page == acquire.page {
                        assert(longer[index as int].page == page);
                    }
                    if names_page(longer, page) {
                        let at = choose|at: int|
                            0 <= at < longer.len() && (#[trigger] longer[at]).page == page;
                        if at < index {
                            assert(shorter[at].page == page);
                        }
                    }
                }
                assert(before[page as int]@.len() >= 0);
                if page != acquire.page || acquire.page == home.page {
                    assert(followers@[page as int] == before[page as int]);
                }
            }
        }
        assert(own.take(length as int) =~= own);
        assert forall|page: PageId|
            #![trigger followers@[page as int]]
            page < pages implies forall|follower: PageId| #[trigger]
            followers@[page as int]@.contains(follower) == (follower != page && exists|at: int|
                0 <= at < job + 1 && (#[trigger] homes@[at]).page == follower && names_page(
                    all[at],
                    page,
                )) by {
            assert(start[page as int]@.len() >= 0);
            assert forall|follower: PageId| #[trigger]
                followers@[page as int]@.contains(follower) == (follower != page && exists|at: int|
                    0 <= at < job + 1 && (#[trigger] homes@[at]).page == follower && names_page(
                        all[at],
                        page,
                    )) by {
                assert(start[page as int]@.contains(follower) == (follower != page && exists|
                    at: int,
                |
                    0 <= at < job && (#[trigger] homes@[at]).page == follower && names_page(
                        all[at],
                        page,
                    )));
                if start[page as int]@.contains(follower) {
                    let at = choose|at: int|
                        0 <= at < job && (#[trigger] homes@[at]).page == follower && names_page(
                            all[at],
                            page,
                        );
                    assert(homes@[at].page == follower);
                }
                if follower == home.page && follower != page && names_page(own, page) {
                    assert(homes@[job as int].page == follower);
                }
            }
        }
    }
    proof {
        let result = lists(followers@);
        assert forall|page: PageId|
            #![trigger result[page as int]]
            page < result.len() implies ascending(result[page as int]) && forall|follower: PageId|
            #[trigger]
            result[page as int].contains(follower) == follows(homes@, all, page, follower) by {
            assert(result[page as int] == followers@[page as int]@);
        }
    }
    followers
}

/// A job of a schedule.
#[derive(Debug)]
pub struct Node<R> {
    pub run: R,
    pub home: Home,
    /// How many jobs have to finish before the job may start.
    pub strict_wait_initial: u32,
    /// How many of them have not finished in the current run.
    pub strict_wait: u32,
    pub successor_range: Range<u32>,
    pub acquire_range: Range<u32>,
}

impl<R> Node<R> {
    pub fn new(
        run: R,
        home: Home,
        strict_wait_initial: u32,
        successor_range: Range<u32>,
        acquire_range: Range<u32>,
    ) -> (node: Self)
        ensures
            node.run == run,
            node.home == home,
            node.strict_wait_initial == strict_wait_initial,
            node.strict_wait == strict_wait_initial,
            node.successor_range == successor_range,
            node.acquire_range == acquire_range,
    {
        Node {
            run,
            home,
            strict_wait_initial,
            strict_wait: strict_wait_initial,
            successor_range,
            acquire_range,
        }
    }
}

/// A page of a schedule.
#[derive(Debug)]
pub struct Page {
    /// Which of the jobs on the page are ready and have to be tried again, and which are locked.
    pub state: u64,
    pub resident_range: Range<u32>,
    pub follower_range: Range<u32>,
}

impl Page {
    pub fn new(resident_range: Range<u32>, follower_range: Range<u32>) -> (page: Self)
        ensures
            page.state == 0,
            page.resident_range == resident_range,
            page.follower_range == follower_range,
    {
        Page { state: 0, resident_range, follower_range }
    }
}

/// Jobs that are ready to be run.
#[derive(Debug)]
pub struct Schedule<R> {
    pub jobs: Vec<Node<R>>,
    pub pages: Vec<Page>,
    pub successors: Vec<JobId>,
    pub acquires: Vec<Acquire>,
    pub residents: Vec<JobId>,
    pub followers: Vec<PageId>,
    pub roots: Vec<JobId>,
}

/// What a schedule is made of.
pub struct Plan {
    /// For each job the earlier jobs that it is strictly related to.
    pub candidates: Seq<Seq<JobId>>,
    /// For each job the jobs that it is related to in a relaxed way.
    pub neighbors: Seq<Seq<JobId>>,
    /// For each job those of the candidates that the others do not imply.
    pub predecessors: Seq<Seq<JobId>>,
    pub successors: Seq<Seq<JobId>>,
    /// For each page the jobs that have their place on it.
    pub layout: Seq<Seq<JobId>>,
    pub homes: Seq<Home>,
    pub acquires: Seq<Seq<Acquire>>,
    pub followers: Seq<Seq<PageId>>,
}

/// Whether a plan is the one for jobs with these dependencies.
pub open spec fn planned(declared: Seq<Seq<DependencyView>>, plan: Plan) -> bool {
    &&& strictly_after(declared, plan.candidates)
    &&& relaxed_beside(declared, plan.neighbors)
    &&& reduced(plan.candidates, plan.predecessors)
    &&& inverted(plan.predecessors, plan.successors)
    &&& laid_out(plan.neighbors, plan.layout)
    &&& settled(plan.layout, declared.len() as int)
    &&& plan.homes.len() == declared.len()
    &&& homes_in(plan.layout, plan.homes)
    &&& plan.acquires.len() == declared.len()
    &&& forall|job: int|
        0 <= job < declared.len() ==> acquires_of(
            plan.homes,
            seq![job as JobId] + plan.neighbors[job],
            #[trigger] plan.acquires[job],
        )
    &&& plan.followers.len() == plan.layout.len()
    &&& followed(plan.homes, plan.acquires, plan.followers)
}

impl<R> Schedule<R> {
    /// Whether the schedule is that of a plan, before anything has run.
    pub open spec fn follows_plan(self, plan: Plan, runs: Seq<R>) -> bool {
        let count = runs.len() as int;
        &&& self.jobs@.len() == count
        &&& forall|job: int|
            #![trigger self.jobs@[job]]
            0 <= job < count ==> {
                let node = self.jobs@[job];
                &&& node.run == runs[job]
                &&& node.home == plan.homes[job]
                &&& node.strict_wait_initial == plan.predecessors[job].len()
                &&& node.strict_wait == node.strict_wait_initial
                &&& node.successor_range == joined_range(plan.successors, job)
                &&& node.acquire_range == joined_range(plan.acquires, job)
            }
        &&& self.pages@.len() == plan.layout.len()
        &&& forall|page: int|
            #![trigger self.pages@[page]]
            0 <= page < plan.layout.len() ==> {
                let node = self.pages@[page];
                &&& node.state == 0
                &&& node.resident_range == joined_range(plan.layout, page)
                &&& node.follower_range == joined_range(plan.followers, page)
            }
        &&& self.successors@ == joined(plan.successors, count)
        &&& self.acquires@ == joined(plan.acquires, count)
        &&& self.residents@ == joined(plan.layout, plan.layout.len() as int)
        &&& self.followers@ == joined(plan.followers, plan.followers.len() as int)
        &&& ascending(self.roots@)
        &&& forall|job: JobId| #[trigger]
            self.roots@.contains(job) == (job < count && plan.predecessors[job as int].len() == 0)
    }
}

pub(crate) proof fn lemma_relaxed_is_undirected(
    declared: Seq<Seq<DependencyView>>,
    neighbors: Seq<Seq<JobId>>,
)
    requires
        relaxed_beside(declared, neighbors),
    ensures
        undirected(neighbors),
{
    assert forall|job: int, index: int|
        0 <= job < neighbors.len() && 0 <= index < neighbors[job].len() implies (
    #[trigger] neighbors[job][index]) < neighbors.len() by {
        assert(neighbors[job].contains(neighbors[job][index]));
    }
    assert forall|left: JobId, right: JobId|
        left < neighbors.len() && right < neighbors.len()
            && #[trigger] neighbors[left as int].contains(
            right,
        ) implies neighbors[right as int].contains(left) by {
        lemma_relation_is_mutual(declared, left as int, right as int);
        assert(neighbors[right as int].contains(left) == (left < declared.len() && left != right
            && relation_between(declared, left as int, right as int) == Relation::Relaxed));
    }
}

/// Each job's home is a place on the layout.
pub(crate) proof fn lemma_home_in_layout(layout: Seq<Seq<JobId>>, homes: Seq<Home>, job: JobId)
    requires
        settled(layout, homes.len() as int),
        homes_in(layout, homes),
        homes.len() <= u32::MAX,
        job < homes.len(),
    ensures
        homes[job as int].page < layout.len(),
        homes[job as int].slot < 32,
        homes[job as int].slot < layout[homes[job as int].page as int].len(),
        layout[homes[job as int].page as int][homes[job as int].slot as int] == job,
{
    lemma_page_bound(layout, homes.len() as int);
    assert(placed(layout, job));
    let page = choose|page: int|
        0 <= page < layout.len() && (#[trigger] layout[page]).contains(job);
    let slot = layout[page].index_of(job);
    assert(layout[page].len() <= 32);
    assert(layout[page][slot] == job);
}

impl<R> Schedule<R> {
    /// Builds the schedule of jobs, unless the dependencies of one of them clash.
    pub fn compile(jobs: Vec<Job<R>>) -> (result: Result<Self, Error>)
        requires
            jobs@.len() <= u32::MAX,
        ensures
            match result {
                Ok(schedule) => {
                    &&& all_consistent(declarations(jobs@))
                    &&& exists|plan: Plan| #[trigger]
                        planned(declarations(jobs@), plan) && schedule.follows_plan(
                            plan,
                            payloads(jobs@),
                        )
                },
                Err(error) => jobs_rejected_with(declarations(jobs@), error@),
            },
    {
        let ghost declared = declarations(jobs@);
        let ghost runs_of_jobs = payloads(jobs@);
        let (runs, normals) = match normalize_jobs(jobs) {
            Ok(parts) => parts,
            Err(error) => {
                return Err(error);
            },
        };
        assert(all_consistent(declared));
        let count: usize = runs.len();
        let (strict_candidates, relaxed_neighbors) = relate_jobs(Ghost(declared), &normals);
        proof {
            lemma_strict_is_backward(declared, lists(strict_candidates@));
            lemma_relaxed_is_undirected(declared, lists(relaxed_neighbors@));
        }
        let predecessors = reduce_strict(&strict_candidates);
        proof {
            lemma_reduced_is_proper(lists(strict_candidates@), lists(predecessors@));
        }
        let successors_by_job = build_successors(&predecessors);
        let roots = find_roots(&predecessors);
        let layout = lay_out(&relaxed_neighbors);
        proof {
            layouts_place_each_job_once(lists(relaxed_neighbors@), lists(layout@));
        }
        let homes = find_homes(&layout, count);
        let ghost neighbors = lists(relaxed_neighbors@);
        let ghost pages = lists(layout@);

        let mut acquire_lists: Vec<Vec<Acquire>> = Vec::new();
        for job in 0..count
            invariant
                count == homes@.len(),
                count == neighbors.len(),
                count <= u32::MAX,
                neighbors == lists(relaxed_neighbors@),
                undirected(neighbors),
                settled(pages, count as int),
                homes_in(pages, homes@),
                acquire_lists.len() == job,
                forall|at: int|
                    0 <= at < job ==> acquires_of(
                        homes@,
                        seq![at as JobId] + neighbors[at],
                        (#[trigger] acquire_lists@[at])@,
                    ),
        {
            proof {
                assert forall|at: int| 0 <= at < homes@.len() implies (#[trigger] homes@[at]).slot
                    < 32 by {
                    lemma_home_in_layout(pages, homes@, at as JobId);
                }
                assert(neighbors[job as int] == relaxed_neighbors@[job as int]@);
                assert forall|index: int| 0 <= index < neighbors[job as int].len() implies (
                #[trigger] relaxed_neighbors@[job as int]@[index]) < homes@.len() by {
                    assert(neighbors[job as int][index] < neighbors.len());
                }
            }
            acquire_lists.push(build_acquires(&homes, job as JobId, &relaxed_neighbors[job]));
        }
        let ghost acquires_by_job = contents(acquire_lists@);
        proof {
            assert forall|job: int, index: int|
                0 <= job < acquire_lists@.len() && 0 <= index
                    < acquire_lists@[job]@.len() implies (
            #[trigger] acquire_lists@[job]@[index]).page < layout@.len() by {
                let list = acquire_lists@[job]@;
                let all = seq![job as JobId] + neighbors[job];
                assert(names_page(list, list[index].page));
                assert(resides(homes@, all, list[index].page));
                let at = choose|at: int|
                    0 <= at < all.len() && homes@[(#[trigger] all[at]) as int].page
                        == list[index].page;
                if at > 0 {
                    assert(neighbors[job][at - 1] < neighbors.len());
                    assert(all[at] == neighbors[job][at - 1]);
                }
                lemma_home_in_layout(pages, homes@, all[at]);
            }
        }
        let followers_by_page = build_followers(&homes, &acquire_lists, layout.len());

        let (residents, resident_ranges) = join(&layout);
        let (followers, follower_ranges) = join(&followers_by_page);
        let (successors, successor_ranges) = join(&successors_by_job);
        let (acquires, acquire_ranges) = join(&acquire_lists);
        let ghost plan = Plan {
            candidates: lists(strict_candidates@),
            neighbors,
            predecessors: lists(predecessors@),
            successors: lists(successors_by_job@),
            layout: pages,
            homes: homes@,
            acquires: acquires_by_job,
            followers: lists(followers_by_page@),
        };
        proof {
            assert(contents(layout@) =~= pages);
            assert(contents(followers_by_page@) =~= plan.followers);
            assert(contents(successors_by_job@) =~= plan.successors);
            assert forall|job: int| 0 <= job < declared.len() implies acquires_of(
                plan.homes,
                seq![job as JobId] + plan.neighbors[job],
                #[trigger] plan.acquires[job],
            ) by {
                assert(plan.acquires[job] == acquire_lists@[job]@);
            }
            assert(planned(declared, plan));
        }

        let mut schedule_pages: Vec<Page> = Vec::new();
        for page in 0..layout.len()
            invariant
                pages.len() == layout@.len(),
                pages == plan.layout,
                resident_ranges@.len() == pages.len(),
                follower_ranges@.len() == pages.len(),
                forall|at: int|
                    0 <= at < pages.len() ==> #[trigger] resident_ranges@[at] == joined_range(
                        pages,
                        at,
                    ),
                forall|at: int|
                    0 <= at < pages.len() ==> #[trigger] follower_ranges@[at] == joined_range(
                        plan.followers,
                        at,
                    ),
                schedule_pages.len() == page,
                forall|at: int|
                    #![trigger schedule_pages@[at]]
                    0 <= at < page ==> {
                        let node = schedule_pages@[at];
                        &&& node.state == 0
                        &&& node.resident_range == joined_range(plan.layout, at)
                        &&& node.follower_range == joined_range(plan.followers, at)
                    },
        {
            let resident_range = resident_ranges[page].start..resident_ranges[page].end;
            let follower_range = follower_ranges[page].start..follower_ranges[page].end;
            schedule_pages.push(Page::new(resident_range, follower_range));
        }

        let mut nodes: Vec<Node<R>> = Vec::new();
        let ghost node_runs = runs@;
        let mut index: usize = 0;
        for run in iterator: runs
            invariant
                iterator.seq() == node_runs,
                index == iterator.index(),
                count == node_runs.len(),
                count == homes@.len(),
                count == predecessors@.len(),
                count <= u32::MAX,
                homes@ == plan.homes,
                lists(predecessors@) == plan.predecessors,
                proper(plan.predecessors),
                successor_ranges@.len() == count,
                acquire_ranges@.len() == count,
                forall|at: int|
                    0 <= at < count ==> #[trigger] successor_ranges@[at] == joined_range(
                        plan.successors,
                        at,
                    ),
                forall|at: int|
                    0 <= at < count ==> #[trigger] acquire_ranges@[at] == joined_range(
                        plan.acquires,
                        at,
                    ),
                nodes.len() == index,
                forall|at: int|
                    #![trigger nodes@[at]]
                    0 <= at < index ==> {
                        let node = nodes@[at];
                        &&& node.run == node_runs[at]
                        &&& node.home == plan.homes[at]
                        &&& node.strict_wait_initial == plan.predecessors[at].len()
                        &&& node.strict_wait == node.strict_wait_initial
                        &&& node.successor_range == joined_range(plan.successors, at)
                        &&& node.acquire_range == joined_range(plan.acquires, at)
                    },
        {
            assert(plan.predecessors[index as int] == predecessors@[index as int]@);
            proof {
                let list = plan.predecessors[index as int];
                assert(list.no_duplicates());
                crate::order::lemma_distinct_bound(list, count as int);
            }
            let wait = predecessors[index].len() as u32;
            let successor_range = successor_ranges[index].start..successor_ranges[index].end;
            let acquire_range = acquire_ranges[index].start..acquire_ranges[index].end;
            nodes.push(Node::new(run, homes[index], wait, successor_range, acquire_range));
            index += 1;
        }

        let schedule = Schedule {
            jobs: nodes,
            pages: schedule_pages,
            successors,
            acquires,
            residents,
            followers,
            roots,
        };
        proof {
            assert forall|job: JobId| #[trigger] schedule.roots@.contains(job) == (job < count
                && plan.predecessors[job as int].len() == 0) by {
                if job < count {
                    assert(plan.predecessors[job as int] == predecessors@[job as int]@);
                }
            }
            assert(schedule.follows_plan(plan, runs_of_jobs));
        }
        Ok(schedule)
    }
}

/// Two strictly related jobs are connected by a path of jobs that wait for one another.
pub proof fn strict_jobs_wait(
    declared: Seq<Seq<DependencyView>>,
    plan: Plan,
    left: int,
    right: int,
)
    requires
        planned(declared, plan),
        0 <= left < right < declared.len() <= u32::MAX,
        relation_of(declared[left], declared[right]) == Relation::Strict,
    ensures
        reaches(plan.predecessors, left, right),
{
    strict_jobs_are_connected(declared, plan.candidates, plan.predecessors, left, right);
}

/// Two jobs that are related in a relaxed way lock the places of each other.
pub proof fn relaxed_jobs_lock_each_other(
    declared: Seq<Seq<DependencyView>>,
    plan: Plan,
    left: int,
    right: int,
)
    requires
        planned(declared, plan),
        0 <= left < declared.len() <= u32::MAX,
        0 <= right < declared.len(),
        left != right,
        relation_between(declared, left, right) == Relation::Relaxed,
    ensures
        locks(plan.acquires[left], plan.homes[left].page, plan.homes[left].slot as int),
        locks(plan.acquires[right], plan.homes[left].page, plan.homes[left].slot as int),
{
    let home = plan.homes[left];
    lemma_home_in_layout(plan.layout, plan.homes, left as JobId);
    let own = seq![left as JobId] + plan.neighbors[left];
    let other = seq![right as JobId] + plan.neighbors[right];
    assert(own[0] == left as JobId);
    assert(occupies(plan.homes, own, home.page, home.slot as int));
    assert(acquires_of(plan.homes, own, plan.acquires[left]));
    lemma_relation_is_mutual(declared, left, right);
    assert(plan.neighbors[right].contains(left as JobId));
    let at = plan.neighbors[right].index_of(left as JobId);
    assert(other[at + 1] == left as JobId);
    assert(occupies(plan.homes, other, home.page, home.slot as int));
    assert(acquires_of(plan.homes, other, plan.acquires[right]));
}

/// What came of the attempt to start a job.
#[derive(Debug, Copy, Clone, PartialEq, Eq, Structural)]
pub enum Attempt {
    /// The job still waits for others to finish.
    Waiting,
    /// The job holds its locks and may run.
    Started,
    /// A lock is held by another job; the job is marked as ready.
    Blocked,
}

/// The part of a list that a range covers.
pub open spec fn covered<T>(list: Seq<T>, range: Range<u32>) -> Seq<T> {
    list.subrange(range.start as int, range.end as int)
}

/// Whether a range lies within a list.
pub open spec fn range_within<T>(list: Seq<T>, range: Range<u32>) -> bool {
    range.start <= range.end <= list.len()
}

/// The slots of a page that a list of acquires locks.
pub open spec fn mask_on(acquires: Seq<Acquire>, page: int) -> u32
    decreases acquires.len(),
{
    if acquires.len() == 0 {
        0
    } else if acquires.last().page == page {
        acquires.last().mask
    } else {
        mask_on(acquires.drop_last(), page)
    }
}

pub(crate) proof fn lemma_mask_on(acquires: Seq<Acquire>, page: int)
    requires
        rising_pages(acquires),
        0 <= page <= u32::MAX,
    ensures
        forall|index: int|
            0 <= index < acquires.len() && (#[trigger] acquires[index]).page == page ==> mask_on(
                acquires,
                page,
            ) == acquires[index].mask,
        !names_page(acquires, page as PageId) ==> mask_on(acquires, page) == 0,
        forall|slot: int|
            0 <= slot < 32 ==> mask_bit(mask_on(acquires, page), slot) == #[trigger] locks(
                acquires,
                page as PageId,
                slot,
            ),
    decreases acquires.len(),
{
    if acquires.len() > 0 {
        let shorter = acquires.drop_last();
        let last = acquires.len() - 1;
        lemma_mask_on(shorter, page);
        assert forall|index: int|
            0 <= index < acquires.len() && (#[trigger] acquires[index]).page
                == page implies mask_on(acquires, page) == acquires[index].mask by {
            if index < last {
                assert(acquires[index].page < acquires[last].page);
                assert(shorter[index].page == page);
            }
        }
        if !names_page(acquires, page as PageId) {
            assert(acquires[last].page != page);
            if names_page(shorter, page as PageId) {
                let at = choose|at: int|
                    0 <= at < shorter.len() && (#[trigger] shorter[at]).page == page;
                assert(acquires[at].page == page);
            }
        }
    }
    assert forall|slot: int| 0 <= slot < 32 implies mask_bit(mask_on(acquires, page), slot)
        == #[trigger] locks(acquires, page as PageId, slot) by {
        if names_page(acquires, page as PageId) {
            let at = choose|at: int|
                0 <= at < acquires.len() && (#[trigger] acquires[at]).page == page as PageId;
            if mask_bit(mask_on(acquires, page), slot) {
                assert(acquires[at].page == page && mask_bit(acquires[at].mask, slot));
            }
        } else {
            lemma_mask_join(0, 0, slot as u32);
            if locks(acquires, page as PageId, slot) {
                let at = choose|at: int|
                    0 <= at < acquires.len() && (#[trigger] acquires[at]).page == page as PageId
                        && mask_bit(acquires[at].mask, slot);
                assert(acquires[at].page == page as PageId);
            }
        }
    }
}

impl<R> Schedule<R> {
    /// The locks that a job takes.
    pub open spec fn acquires_by(self, job: int) -> Seq<Acquire> {
        covered(self.acquires@, self.jobs@[job].acquire_range)
    }

    /// The jobs that wait for a job.
    pub open spec fn successors_of(self, job: int) -> Seq<JobId> {
        covered(self.successors@, self.jobs@[job].successor_range)
    }

    /// The jobs on a page.
    pub open spec fn residents_on(self, page: int) -> Seq<JobId> {
        covered(self.residents@, self.pages@[page].resident_range)
    }

    /// The pages that have to be looked at again when a place on a page becomes free.
    pub open spec fn followers_of(self, page: int) -> Seq<PageId> {
        covered(self.followers@, self.pages@[page].follower_range)
    }

    /// Whether the parts of the schedule fit together.
    pub open spec fn sound(self) -> bool {
        &&& self.jobs@.len() <= u32::MAX
        &&& self.pages@.len() <= u32::MAX
        &&& forall|job: int|
            #![trigger self.jobs@[job]]
            0 <= job < self.jobs@.len() ==> {
                let node = self.jobs@[job];
                &&& node.home.page < self.pages@.len()
                &&& node.home.slot < 32
                &&& range_within(self.successors@, node.successor_range)
                &&& ascending(self.successors_of(job))
                &&& within(self.successors_of(job), self.jobs@.len() as int)
                &&& range_within(self.acquires@, node.acquire_range)
                &&& rising_pages(self.acquires_by(job))
                &&& locks(self.acquires_by(job), node.home.page, node.home.slot as int)
                &&& forall|index: int|
                    0 <= index < self.acquires_by(job).len() ==> (#[trigger] self.acquires_by(
                        job,
                    )[index]).page < self.pages@.len()
            }
        &&& forall|page: int|
            #![trigger self.pages@[page]]
            0 <= page < self.pages@.len() ==> {
                let node = self.pages@[page];
                &&& range_within(self.residents@, node.resident_range)
                &&& range_within(self.followers@, node.follower_range)
                &&& within(self.residents_on(page), self.jobs@.len() as int)
                &&& within(self.followers_of(page), self.pages@.len() as int)
            }
    }

    /// Whether nothing but the states of the pages differs.
    pub open spec fn same_but_states(self, other: Self) -> bool {
        &&& self.jobs@ == other.jobs@
        &&& self.successors@ == other.successors@
        &&& self.acquires@ == other.acquires@
        &&& self.residents@ == other.residents@
        &&& self.followers@ == other.followers@
        &&& self.roots@ == other.roots@
        &&& self.pages@.len() == other.pages@.len()
        &&& forall|page: int|
            #![trigger self.pages@[page]]
            #![trigger other.pages@[page]]
            0 <= page < self.pages@.len() ==> {
                &&& self.pages@[page].resident_range == other.pages@[page].resident_range
                &&& self.pages@[page].follower_range == other.pages@[page].follower_range
            }
    }

    /// Whether none of the locks that a job takes is held.
    pub open spec fn unlocked(self, job: int) -> bool {
        forall|index: int|
            0 <= index < self.acquires_by(job).len() ==> lock_of(
                self.pages@[(#[trigger] self.acquires_by(job)[index]).page as int].state,
            ) & self.acquires_by(job)[index].mask == 0
    }

    /// The bit of a job on a page: its slot on its own page, and none on others.
    pub open spec fn bit_on(self, job: int, page: int) -> u32 {
        if self.jobs@[job].home.page == page {
            1u32 << (self.jobs@[job].home.slot as u32)
        } else {
            0
        }
    }

    /// Whether `after` is the schedule once a job has taken its locks.
    pub open spec fn starts(self, job: int, after: Self) -> bool {
        &&& self.same_but_states(after)
        &&& forall|page: int|
            #![trigger after.pages@[page]]
            0 <= page < self.pages@.len() ==> {
                &&& lock_of(after.pages@[page].state) == lock_of(self.pages@[page].state) | mask_on(
                    self.acquires_by(job),
                    page,
                )
                &&& ready_of(after.pages@[page].state) == ready_of(self.pages@[page].state)
                    & !self.bit_on(job, page)
            }
    }

    /// Whether `after` is the schedule once a job has been marked as ready.
    pub open spec fn marks(self, job: int, after: Self) -> bool {
        &&& self.same_but_states(after)
        &&& forall|page: int|
            #![trigger after.pages@[page]]
            0 <= page < self.pages@.len() ==> {
                &&& lock_of(after.pages@[page].state) == lock_of(self.pages@[page].state)
                &&& ready_of(after.pages@[page].state) == ready_of(self.pages@[page].state)
                    | self.bit_on(job, page)
            }
    }

    /// Whether `after` is the schedule once a job has given its locks back and waits again for the
    /// next run.
    pub open spec fn releases(self, job: int, after: Self) -> bool {
        &&& after.jobs@.len() == self.jobs@.len()
        &&& forall|other: int|
            #![trigger after.jobs@[other]]
            0 <= other < self.jobs@.len() ==> after.jobs@[other] == (if other == job {
                Node { strict_wait: self.jobs@[job].strict_wait_initial, ..self.jobs@[job] }
            } else {
                self.jobs@[other]
            })
        &&& (Schedule { jobs: after.jobs, ..self }).same_but_states(after)
        &&& forall|page: int|
            #![trigger after.pages@[page]]
            0 <= page < self.pages@.len() ==> {
                &&& lock_of(after.pages@[page].state) == lock_of(self.pages@[page].state)
                    & !mask_on(self.acquires_by(job), page)
                &&& ready_of(after.pages@[page].state) == ready_of(self.pages@[page].state)
            }
    }
}

proof fn lemma_undo(lock: u32, mask: u32, ready: u32, bit: u32)
    by (bit_vector)
    ensures
        lock & mask == 0 ==> (lock | mask) & !mask == lock,
        (ready & !bit) | bit == ready | bit,
        lock | 0 == lock,
        lock & !0u32 == lock,
{
}

impl<R> Schedule<R> {
    /// Whether the first `until` locks of a job are taken in `after`, and nothing else.
    spec fn partly_starts(self, job: int, until: int, after: Self) -> bool {
        let taken = self.acquires_by(job).take(until);
        &&& self.same_but_states(after)
        &&& forall|page: int|
            #![trigger after.pages@[page]]
            0 <= page < self.pages@.len() ==> {
                &&& lock_of(after.pages@[page].state) == lock_of(self.pages@[page].state) | mask_on(
                    taken,
                    page,
                )
                &&& ready_of(after.pages@[page].state) == ready_of(self.pages@[page].state) & !(if
                names_page(taken, page as PageId) {
                    self.bit_on(job, page)
                } else {
                    0
                })
            }
    }

    /// Whether the first `until` locks of a job are given back in `after`.
    spec fn partly_releases(self, job: int, from: int, until: int, after: Self) -> bool {
        let given = self.acquires_by(job).subrange(from, until);
        &&& self.same_but_states(after)
        &&& forall|page: int|
            #![trigger after.pages@[page]]
            0 <= page < self.pages@.len() ==> {
                &&& lock_of(after.pages@[page].state) == lock_of(self.pages@[page].state)
                    & !mask_on(given, page)
                &&& ready_of(after.pages@[page].state) == ready_of(self.pages@[page].state)
            }
    }

    /// Gives the first `count` locks of a job back, from last to first.
    fn give_back(&mut self, job: usize, count: usize)
        requires
            old(self).sound(),
            job < old(self).jobs@.len(),
            count <= old(self).acquires_by(job as int).len(),
        ensures
            old(self).partly_releases(job as int, 0, count as int, *final(self)),
    {
        let ghost before = *self;
        let ghost own = self.acquires_by(job as int);
        let start: usize = self.jobs[job].acquire_range.start as usize;
        let mut remaining: usize = count;
        proof {
            assert(own.subrange(count as int, count as int) =~= Seq::<Acquire>::empty());
            assert forall|page: int| 0 <= page < before.pages@.len() implies #[trigger] lock_of(
                before.pages@[page].state,
            ) == lock_of(before.pages@[page].state) & !0u32 by {
                lemma_undo(lock_of(before.pages@[page].state), 0, 0, 0);
            }
        }
        while remaining > 0
            invariant
                before.sound(),
                job < before.jobs@.len(),
                own == before.acquires_by(job as int),
                start == before.jobs@[job as int].acquire_range.start,
                remaining <= count <= own.len(),
                before.partly_releases(job as int, remaining as int, count as int, *self),
            decreases remaining,
        {
            remaining -= 1;
            let ghost middle = *self;
            let ghost given = own.subrange(remaining + 1, count as int);
            let ghost more = own.subrange(remaining as int, count as int);
            let acquire = self.acquires[start + remaining];
            let ghost at = acquire.page as int;
            assert(before.acquires_by(job as int)[remaining as int] == acquire);
            release_mask(&mut self.pages[acquire.page as usize].state, acquire.mask);
            proof {
                assert(more =~= seq![acquire] + given);
                assert(rising_pages(more)) by {
                    assert forall|left: int, right: int| 0 <= left < right < more.len() implies (
                    #[trigger] more[left]).page < (#[trigger] more[right]).page by {
                        assert(own[left + remaining].page < own[right + remaining].page);
                    }
                }
                assert forall|page: int|
                    #![trigger self.pages@[page]]
                    0 <= page < before.pages@.len() implies lock_of(self.pages@[page].state)
                    == lock_of(before.pages@[page].state) & !mask_on(more, page) && ready_of(
                    self.pages@[page].state,
                ) == ready_of(before.pages@[page].state) by {
                    lemma_mask_on(more, page);
                    assert(middle.pages@[page].resident_range
                        == before.pages@[page].resident_range);
                    lemma_mask_front(acquire, given, page);
                    if page == at {
                        assert(more[0].page == page);
                        lemma_release_join(
                            lock_of(before.pages@[page].state),
                            mask_on(given, page),
                            acquire.mask,
                        );
                        if mask_on(given, page) != 0 {
                            lemma_mask_named(given, page);
                            let other = choose|other: int|
                                0 <= other < given.len() && (#[trigger] given[other]).page == page;
                            assert(more[other + 1].page == page);
                            assert(more[0].page < more[other + 1].page);
                        }
                    }
                }
                assert(before.same_but_states(*self));
            }
        }
    }

    /// Tries to start a job.
    pub fn attempt_job(&mut self, job: JobId) -> (attempt: Attempt)
        requires
            old(self).sound(),
            job < old(self).jobs@.len(),
        ensures
            final(self).sound(),
            match attempt {
                Attempt::Waiting => {
                    &&& old(self).jobs@[job as int].strict_wait != 0
                    &&& *final(self) == *old(self)
                },
                Attempt::Started => {
                    &&& old(self).jobs@[job as int].strict_wait == 0
                    &&& old(self).unlocked(job as int)
                    &&& old(self).starts(job as int, *final(self))
                },
                Attempt::Blocked => {
                    &&& old(self).jobs@[job as int].strict_wait == 0
                    &&& !old(self).unlocked(job as int)
                    &&& old(self).marks(job as int, *final(self))
                },
            },
    {
        let ghost before = *self;
        let index: usize = job as usize;
        let ghost at = index as int;
        if self.jobs[index].strict_wait != 0 {
            return Attempt::Waiting;
        }
        let home = self.jobs[index].home;
        let start: usize = self.jobs[index].acquire_range.start as usize;
        let end: usize = self.jobs[index].acquire_range.end as usize;
        let count: usize = end - start;
        let ghost own = self.acquires_by(at);
        let mut reserved: usize = 0;
        assert(before.partly_starts(at, 0, *self)) by {
            assert forall|page: int|
                #![trigger self.pages@[page]]
                0 <= page < before.pages@.len() implies lock_of(self.pages@[page].state) == lock_of(
                before.pages@[page].state,
            ) | mask_on(own.take(0), page) && ready_of(self.pages@[page].state) == ready_of(
                before.pages@[page].state,
            ) & !(if names_page(own.take(0), page as PageId) {
                before.bit_on(at, page)
            } else {
                0
            }) by {
                assert(mask_on(own.take(0), page) == 0);
                assert(!names_page(own.take(0), page as PageId));
                lemma_undo(lock_of(before.pages@[page].state), 0, 0, 0);
                lemma_undo(ready_of(before.pages@[page].state), 0, 0, 0);
            }
        }
        while reserved < count
            invariant
                before.sound(),
                job == index,
                at == index,
                index < before.jobs@.len(),
                before.jobs@[at].strict_wait == 0,
                home == before.jobs@[at].home,
                own == before.acquires_by(at),
                own.len() == count,
                start == before.jobs@[at].acquire_range.start,
                reserved <= count,
                before.partly_starts(at, reserved as int, *self),
                before == *old(self),
                forall|index: int|
                    0 <= index < reserved ==> lock_of(
                        before.pages@[(#[trigger] own[index]).page as int].state,
                    ) & own[index].mask == 0,
            decreases count - reserved,
        {
            let acquire = self.acquires[start + reserved];
            let ghost page_at = acquire.page as int;
            let ghost taken = own.take(reserved as int);
            let ghost more = own.take(reserved + 1);
            let ghost middle = *self;
            assert(own[reserved as int] == acquire);
            let ready_clear: u32 = if acquire.page == home.page {
                home.ready_bit()
            } else {
                0
            };
            proof {
                assert(before.acquires_by(at)[reserved as int].page < before.pages@.len());
                assert(rising_pages(more)) by {
                    assert forall|left: int, right: int| 0 <= left < right < more.len() implies (
                    #[trigger] more[left]).page < (#[trigger] more[right]).page by {
                        assert(own[left].page < own[right].page);
                    }
                }
                assert(rising_pages(taken)) by {
                    assert forall|left: int, right: int| 0 <= left < right < taken.len() implies (
                    #[trigger] taken[left]).page < (#[trigger] taken[right]).page by {
                        assert(own[left].page < own[right].page);
                    }
                }
                assert(more =~= taken.push(acquire));
                assert(more.drop_last() =~= taken);
                assert(!names_page(taken, acquire.page)) by {
                    if names_page(taken, acquire.page) {
                        let other = choose|other: int|
                            0 <= other < taken.len() && (#[trigger] taken[other]).page
                                == acquire.page;
                        assert(own[other].page < own[reserved as int].page);
                    }
                }
                lemma_mask_on(taken, page_at);
                lemma_undo(lock_of(before.pages@[page_at].state), 0, 0, 0);
                lemma_undo(ready_of(before.pages@[page_at].state), 0, 0, 0);
                assert(middle.pages@[page_at].resident_range
                    == before.pages@[page_at].resident_range);
            }
            if reserve_page(
                &mut self.pages[acquire.page as usize].state,
                acquire.mask,
                ready_clear,
            ) {
                reserved += 1;
                proof {
                    assert forall|page: int|
                        #![trigger self.pages@[page]]
                        0 <= page < before.pages@.len() implies lock_of(self.pages@[page].state)
                        == lock_of(before.pages@[page].state) | mask_on(more, page) && ready_of(
                        self.pages@[page].state,
                    ) == ready_of(before.pages@[page].state) & !(if names_page(
                        more,
                        page as PageId,
                    ) {
                        before.bit_on(at, page)
                    } else {
                        0
                    }) by {
                        assert(middle.pages@[page].resident_range
                            == before.pages@[page].resident_range);
                        assert(names_page(more, page as PageId) == (names_page(
                            taken,
                            page as PageId,
                        ) || page == page_at)) by {
                            if names_page(taken, page as PageId) {
                                let other = choose|other: int|
                                    0 <= other < taken.len() && (#[trigger] taken[other]).page
                                        == page as PageId;
                                assert(more[other].page == page as PageId);
                            }
                            if page == page_at {
                                assert(more[reserved - 1].page == page as PageId);
                            }
                            if names_page(more, page as PageId) {
                                let other = choose|other: int|
                                    0 <= other < more.len() && (#[trigger] more[other]).page
                                        == page as PageId;
                                if other < taken.len() {
                                    assert(taken[other].page == page as PageId);
                                }
                            }
                        }
                    }
                    assert(before.same_but_states(*self));
                    assert(before.partly_starts(at, reserved as int, *self));
                }
            } else {
                proof {
                    assert(self.pages@ =~= middle.pages@);
                    assert(before.same_but_states(*self));
                    assert(before.partly_starts(at, reserved as int, *self));
                    assert(before.acquires_by(at)[reserved as int] == acquire);
                    assert(!before.unlocked(at));
                    lemma_same_sound(before, *self);
                    assert(self.acquires_by(at) == own);
                }
                self.give_back(index, reserved);
                let ghost undone = *self;
                mark_ready(&mut self.pages[home.page as usize].state, home.ready_bit());
                proof {
                    assert(own.subrange(0, reserved as int) =~= taken);
                    assert forall|page: int|
                        #![trigger self.pages@[page]]
                        0 <= page < before.pages@.len() implies lock_of(self.pages@[page].state)
                        == lock_of(before.pages@[page].state) && ready_of(self.pages@[page].state)
                        == ready_of(before.pages@[page].state) | before.bit_on(at, page) by {
                        assert(middle.pages@[page].resident_range
                            == before.pages@[page].resident_range);
                        assert(undone.pages@[page].resident_range
                            == middle.pages@[page].resident_range);
                        let bit = before.bit_on(at, page);
                        let mask = mask_on(taken, page);
                        lemma_mask_on(taken, page);
                        if names_page(taken, page as PageId) {
                            let other = choose|other: int|
                                0 <= other < taken.len() && (#[trigger] taken[other]).page
                                    == page as PageId;
                            assert(own[other] == taken[other]);
                            assert(lock_of(before.pages@[own[other].page as int].state)
                                & own[other].mask == 0);
                            assert(mask == taken[other].mask);
                        } else {
                            assert(lock_of(before.pages@[page].state) & 0u32 == 0) by {
                                lemma_undo(lock_of(before.pages@[page].state), 0, 0, 0);
                                lemma_and_zero(lock_of(before.pages@[page].state));
                            }
                        }
                        lemma_undo(lock_of(before.pages@[page].state), mask, 0, 0);
                        lemma_undo(0, 0, ready_of(before.pages@[page].state), bit);
                        lemma_undo(ready_of(before.pages@[page].state), 0, 0, 0);
                    }
                    assert(before.marks(at, *self));
                    lemma_same_sound(before, *self);
                }
                return Attempt::Blocked;
            }
        }
        proof {
            assert(own.take(count as int) =~= own);
            assert(before.unlocked(at));
            assert forall|page: int|
                #![trigger self.pages@[page]]
                0 <= page < before.pages@.len() implies ready_of(self.pages@[page].state)
                == ready_of(before.pages@[page].state) & !before.bit_on(at, page) by {
                if page == home.page {
                    assert(locks(own, home.page, home.slot as int));
                    let other = choose|other: int|
                        0 <= other < own.len() && (#[trigger] own[other]).page == home.page
                            && mask_bit(own[other].mask, home.slot as int);
                    assert(own[other].page == page as PageId);
                    assert(names_page(own, page as PageId));
                }
            }
            assert(before.starts(at, *self));
            lemma_same_sound(before, *self);
        }
        Attempt::Started
    }

    /// Gives the locks of a job back once it has run, and lets it wait again for the next run.
    pub fn release_job(&mut self, job: JobId)
        requires
            old(self).sound(),
            job < old(self).jobs@.len(),
        ensures
            final(self).sound(),
            old(self).releases(job as int, *final(self)),
    {
        let ghost before = *self;
        let ghost own = self.acquires_by(job as int);
        let index: usize = job as usize;
        let start: usize = self.jobs[index].acquire_range.start as usize;
        let end: usize = self.jobs[index].acquire_range.end as usize;
        self.give_back(index, end - start);
        let ghost middle = *self;
        self.jobs[index].strict_wait = self.jobs[index].strict_wait_initial;
        proof {
            assert(own.subrange(0, own.len() as int) =~= own);
            assert forall|page: int|
                #![trigger self.pages@[page]]
                0 <= page < before.pages@.len() implies self.pages@[page]
                == middle.pages@[page] by {}
            assert forall|other: int|
                #![trigger self.jobs@[other]]
                0 <= other < before.jobs@.len() implies self.jobs@[other] == (if other
                == job as int {
                Node {
                    strict_wait: before.jobs@[job as int].strict_wait_initial,
                    ..before.jobs@[job as int]
                }
            } else {
                before.jobs@[other]
            }) by {}
            assert(before.releases(job as int, *self));
            lemma_released_sound(before, job as int, *self);
        }
    }
}

proof fn lemma_and_zero(word: u32)
    by (bit_vector)
    ensures
        word & 0 == 0,
{
}

proof fn lemma_release_join(word: u32, first: u32, second: u32)
    by (bit_vector)
    ensures
        first == 0 ==> (word & !first) & !second == word & !second,
{
}

proof fn lemma_mask_front(acquire: Acquire, rest: Seq<Acquire>, page: int)
    ensures
        acquire.page != page ==> mask_on(seq![acquire] + rest, page) == mask_on(rest, page),
    decreases rest.len(),
{
    let whole = seq![acquire] + rest;
    if rest.len() > 0 {
        assert(whole.drop_last() =~= seq![acquire] + rest.drop_last());
        lemma_mask_front(acquire, rest.drop_last(), page);
    } else {
        assert(whole.drop_last() =~= Seq::<Acquire>::empty());
        assert(mask_on(Seq::<Acquire>::empty(), page) == 0);
    }
}

proof fn lemma_mask_named(acquires: Seq<Acquire>, page: int)
    requires
        mask_on(acquires, page) != 0,
    ensures
        exists|index: int| 0 <= index < acquires.len() && (#[trigger] acquires[index]).page == page,
    decreases acquires.len(),
{
    if acquires.last().page == page {
        assert(acquires[acquires.len() - 1].page == page);
    } else {
        lemma_mask_named(acquires.drop_last(), page);
        let index = choose|index: int|
            0 <= index < acquires.drop_last().len() && (
            #[trigger] acquires.drop_last()[index]).page == page;
        assert(acquires[index].page == page);
    }
}

pub(crate) proof fn lemma_same_sound<R>(before: Schedule<R>, after: Schedule<R>)
    requires
        before.sound(),
        before.same_but_states(after),
    ensures
        after.sound(),
{
    assert forall|job: int| 0 <= job < after.jobs@.len() implies {
        let node = #[trigger] after.jobs@[job];
        &&& after.acquires_by(job) == before.acquires_by(job)
        &&& after.successors_of(job) == before.successors_of(job)
    } by {}
    assert forall|page: int| 0 <= page < after.pages@.len() implies {
        let node = #[trigger] after.pages@[page];
        &&& after.residents_on(page) == before.residents_on(page)
        &&& after.followers_of(page) == before.followers_of(page)
    } by {
        assert(before.pages@[page].resident_range == after.pages@[page].resident_range);
    }
    assert forall|page: int|
        #![trigger after.pages@[page]]
        0 <= page < after.pages@.len() implies range_within(
        after.residents@,
        after.pages@[page].resident_range,
    ) && range_within(after.followers@, after.pages@[page].follower_range) && within(
        after.residents_on(page),
        after.jobs@.len() as int,
    ) && within(after.followers_of(page), after.pages@.len() as int) by {
        assert(before.pages@[page].resident_range == after.pages@[page].resident_range);
    }
}

pub(crate) proof fn lemma_released_sound<R>(before: Schedule<R>, job: int, after: Schedule<R>)
    requires
        before.sound(),
        0 <= job < before.jobs@.len(),
        before.releases(job, after),
    ensures
        after.sound(),
{
    let middle = Schedule { jobs: after.jobs, ..before };
    assert forall|other: int| 0 <= other < middle.jobs@.len() implies {
        let node = #[trigger] middle.jobs@[other];
        &&& middle.acquires_by(other) == before.acquires_by(other)
        &&& middle.successors_of(other) == before.successors_of(other)
        &&& node.home == before.jobs@[other].home
    } by {
        assert(after.jobs@[other].home == before.jobs@[other].home);
    }
    assert forall|page: int| 0 <= page < middle.pages@.len() implies {
        let node = #[trigger] middle.pages@[page];
        &&& middle.residents_on(page) == before.residents_on(page)
        &&& middle.followers_of(page) == before.followers_of(page)
    } by {}
    assert(middle.sound()) by {
        assert forall|other: int|
            #![trigger middle.jobs@[other]]
            0 <= other < middle.jobs@.len() implies {
            let node = middle.jobs@[other];
            &&& node.home.page < middle.pages@.len()
            &&& node.home.slot < 32
            &&& range_within(middle.successors@, node.successor_range)
            &&& ascending(middle.successors_of(other))
            &&& within(middle.successors_of(other), middle.jobs@.len() as int)
            &&& range_within(middle.acquires@, node.acquire_range)
            &&& rising_pages(middle.acquires_by(other))
            &&& locks(middle.acquires_by(other), node.home.page, node.home.slot as int)
            &&& forall|index: int|
                0 <= index < middle.acquires_by(other).len() ==> (#[trigger] middle.acquires_by(
                    other,
                )[index]).page < middle.pages@.len()
        } by {
            assert(after.jobs@[other].successor_range == before.jobs@[other].successor_range);
            assert(middle.acquires_by(other) == before.acquires_by(other));
            assert(middle.successors_of(other) == before.successors_of(other));
            assert(before.jobs@[other].home.slot < 32);
            assert forall|index: int| 0 <= index < middle.acquires_by(other).len() implies (
            #[trigger] middle.acquires_by(other)[index]).page < middle.pages@.len() by {
                assert(before.acquires_by(other)[index].page < before.pages@.len());
            }
        }
        assert forall|page: int|
            #![trigger middle.pages@[page]]
            0 <= page < middle.pages@.len() implies {
            let node = middle.pages@[page];
            &&& range_within(middle.residents@, node.resident_range)
            &&& range_within(middle.followers@, node.follower_range)
            &&& within(middle.residents_on(page), middle.jobs@.len() as int)
            &&& within(middle.followers_of(page), middle.pages@.len() as int)
        } by {
            assert(before.pages@[page].state == middle.pages@[page].state);
        }
    }
    lemma_same_sound(middle, after);
}

/// Those of the first `until` jobs of a page whose ready bit is set, in order.
pub open spec fn ready_residents(residents: Seq<JobId>, ready: u32, until: int) -> Seq<JobId>
    decreases until,
{
    if until <= 0 {
        Seq::empty()
    } else {
        let before = ready_residents(residents, ready, until - 1);
        if mask_bit(ready, until - 1) {
            before.push(residents[until - 1])
        } else {
            before
        }
    }
}

/// Those of the first `until` jobs of a list that waited for one job only.
pub open spec fn last_waits<R>(jobs: Seq<Node<R>>, list: Seq<JobId>, until: int) -> Seq<JobId>
    decreases until,
{
    if until <= 0 {
        Seq::empty()
    } else {
        let before = last_waits(jobs, list, until - 1);
        if jobs[list[until - 1] as int].strict_wait == 1 {
            before.push(list[until - 1])
        } else {
            before
        }
    }
}

/// A list without the pages that equal `page`.
pub open spec fn other_pages(list: Seq<PageId>, page: PageId) -> Seq<PageId> {
    list.filter(|other: PageId| other != page)
}

impl<R> Schedule<R> {
    /// The pages that follow the first `until` pages of a job's locks, in order, without the job's
    /// own page.
    pub open spec fn followers_after(self, job: int, until: int) -> Seq<PageId>
        decreases until,
    {
        if until <= 0 {
            Seq::empty()
        } else {
            self.followers_after(job, until - 1) + other_pages(
                self.followers_of(self.acquires_by(job)[until - 1].page as int),
                self.jobs@[job].home.page,
            )
        }
    }

    /// Whether `after` is the schedule once the jobs that wait for a job have been told that it has
    /// finished.
    pub open spec fn completes(self, job: int, after: Self) -> bool {
        &&& after.jobs@.len() == self.jobs@.len()
        &&& forall|other: int|
            #![trigger after.jobs@[other]]
            0 <= other < self.jobs@.len() ==> after.jobs@[other] == (if self.successors_of(
                job,
            ).contains(other as JobId) {
                (Node {
                    strict_wait: self.jobs@[other].strict_wait.wrapping_sub(1),
                    ..self.jobs@[other]
                })
            } else {
                self.jobs@[other]
            })
        &&& (Schedule { jobs: after.jobs, ..self }) == after
    }

    /// How many jobs each job still waits for.
    pub open spec fn waits(self) -> Seq<int> {
        self.jobs@.map_values(|node: Node<R>| node.strict_wait as int)
    }

    /// The jobs on a page that are marked as ready, in order of their slots.
    pub fn scan_page(&self, page: PageId) -> (pending: Vec<JobId>)
        requires
            self.sound(),
            page < self.pages@.len(),
        ensures
            ({
                let residents = self.residents_on(page as int);
                pending@ == ready_residents(
                    residents,
                    ready_of(self.pages@[page as int].state),
                    if residents.len() < 32 {
                        residents.len() as int
                    } else {
                        32
                    },
                )
            }),
            within(pending@, self.jobs@.len() as int),
    {
        let ghost residents = self.residents_on(page as int);
        let start: usize = self.pages[page as usize].resident_range.start as usize;
        let end: usize = self.pages[page as usize].resident_range.end as usize;
        let ready: u32 = (self.pages[page as usize].state >> 32) as u32;
        let mut pending: Vec<JobId> = Vec::new();
        let mut slot: usize = 0;
        while slot < end - start && slot < 32
            invariant
                self.sound(),
                page < self.pages@.len(),
                residents == self.residents_on(page as int),
                start == self.pages@[page as int].resident_range.start,
                end == self.pages@[page as int].resident_range.end,
                start <= end <= self.residents@.len(),
                residents.len() == end - start,
                slot <= residents.len(),
                slot <= 32,
                pending@ == ready_residents(residents, ready, slot as int),
                within(pending@, self.jobs@.len() as int),
            decreases 32 - slot,
        {
            if ready & (1u32 << (slot as u32)) != 0 {
                let job = self.residents[start + slot];
                assert(residents[slot as int] == job);
                pending.push(job);
            }
            slot += 1;
        }
        pending
    }

    /// The pages to scan once a job has given its locks back: its own page, and those that follow
    /// the pages it had locks on.
    pub fn pages_to_scan(&self, job: JobId) -> (pages: Vec<PageId>)
        requires
            self.sound(),
            job < self.jobs@.len(),
        ensures
            pages@ == seq![self.jobs@[job as int].home.page] + self.followers_after(
                job as int,
                self.acquires_by(job as int).len() as int,
            ),
            within(pages@, self.pages@.len() as int),
    {
        let ghost at = job as int;
        let ghost own = self.acquires_by(at);
        let home = self.jobs[job as usize].home.page;
        let start: usize = self.jobs[job as usize].acquire_range.start as usize;
        let end: usize = self.jobs[job as usize].acquire_range.end as usize;
        let mut pages: Vec<PageId> = vec![home];
        assert(pages@ =~= seq![home] + self.followers_after(at, 0));
        for index in 0..(end - start)
            invariant
                self.sound(),
                at == job,
                job < self.jobs@.len(),
                home == self.jobs@[at].home.page,
                own == self.acquires_by(at),
                start == self.jobs@[at].acquire_range.start,
                end == self.jobs@[at].acquire_range.end,
                start <= end <= self.acquires@.len(),
                pages@ == seq![home] + self.followers_after(at, index as int),
                within(pages@, self.pages@.len() as int),
        {
            let page = self.acquires[start + index].page;
            assert(self.acquires_by(at)[index as int].page == page);
            let ghost before = pages@;
            let ghost list = self.followers_of(page as int);
            let first: usize = self.pages[page as usize].follower_range.start as usize;
            let last: usize = self.pages[page as usize].follower_range.end as usize;
            assert(list.take(0) =~= Seq::<PageId>::empty());
            assert(other_pages(list.take(0), home) =~= Seq::<PageId>::empty()) by {
                reveal(Seq::filter);
            }
            assert(before + other_pages(list.take(0), home) =~= before);
            for place in 0..(last - first)
                invariant
                    self.sound(),
                    page < self.pages@.len(),
                    list == self.followers_of(page as int),
                    first == self.pages@[page as int].follower_range.start,
                    last == self.pages@[page as int].follower_range.end,
                    first <= last <= self.followers@.len(),
                    pages@ == before + other_pages(list.take(place as int), home),
                    within(pages@, self.pages@.len() as int),
            {
                let follower = self.followers[first + place];
                assert(list[place as int] == follower);
                proof {
                    let shorter = list.take(place as int);
                    assert(list.take(place + 1) =~= shorter.push(follower));
                    assert(shorter.push(follower).drop_last() =~= shorter);
                    reveal(Seq::filter);
                    assert(other_pages(list.take(place + 1), home) =~= (if follower != home {
                        other_pages(shorter, home).push(follower)
                    } else {
                        other_pages(shorter, home)
                    }));
                }
                let ghost previous = pages@;
                if follower != home {
                    pages.push(follower);
                    assert(pages@ =~= before + other_pages(list.take(place + 1), home));
                }
            }
            assert(list.take(list.len() as int) =~= list);
            assert(pages@ =~= seq![home] + self.followers_after(at, index + 1));
        }
        pages
    }

    /// Tells the jobs that wait for a job that it has finished, and returns those that waited for
    /// nothing else.
    pub fn complete_job(&mut self, job: JobId) -> (woken: Vec<JobId>)
        requires
            old(self).sound(),
            job < old(self).jobs@.len(),
        ensures
            final(self).sound(),
            old(self).completes(job as int, *final(self)),
            woken@ == last_waits(
                old(self).jobs@,
                old(self).successors_of(job as int),
                old(self).successors_of(job as int).len() as int,
            ),
    {
        let ghost before = *self;
        let ghost at = job as int;
        let ghost own = self.successors_of(at);
        let start: usize = self.jobs[job as usize].successor_range.start as usize;
        let end: usize = self.jobs[job as usize].successor_range.end as usize;
        let mut woken: Vec<JobId> = Vec::new();
        for index in 0..(end - start)
            invariant
                before.sound(),
                at < before.jobs@.len(),
                own == before.successors_of(at),
                start == before.jobs@[at].successor_range.start,
                end == before.jobs@[at].successor_range.end,
                start <= end <= before.successors@.len(),
                own.len() == end - start,
                0 <= at,
                (Schedule { jobs: self.jobs, ..before }) == *self,
                self.jobs@.len() == before.jobs@.len(),
                forall|other: int|
                    #![trigger self.jobs@[other]]
                    0 <= other < before.jobs@.len() ==> self.jobs@[other] == (if own.take(
                        index as int,
                    ).contains(other as JobId) {
                        (Node {
                            strict_wait: before.jobs@[other].strict_wait.wrapping_sub(1),
                            ..before.jobs@[other]
                        })
                    } else {
                        before.jobs@[other]
                    }),
                woken@ == last_waits(before.jobs@, own, index as int),
        {
            let ghost middle = self.jobs@;
            let ghost shorter = own.take(index as int);
            let ghost longer = own.take(index + 1);
            let successor = self.successors[start + index];
            proof {
                assert(own[index as int] == successor);
                assert(before.jobs@[at].home.slot < 32);
                assert(successor < before.jobs@.len());
                assert(longer =~= shorter.push(successor));
                if shorter.contains(successor) {
                    let earlier = shorter.index_of(successor);
                    assert(own[earlier] < own[index as int]);
                }
            }
            let wait = self.jobs[successor as usize].strict_wait;
            self.jobs[successor as usize].strict_wait = wait.wrapping_sub(1);
            proof {
                assert forall|other: int|
                    #![trigger self.jobs@[other]]
                    0 <= other < before.jobs@.len() implies self.jobs@[other] == (if longer.contains(
                    other as JobId,
                ) {
                    (Node {
                        strict_wait: before.jobs@[other].strict_wait.wrapping_sub(1),
                        ..before.jobs@[other]
                    })
                } else {
                    before.jobs@[other]
                }) by {
                    assert(middle[other] == middle[other]);
                    if shorter.contains(other as JobId) {
                        assert(longer[shorter.index_of(other as JobId)] == other as JobId);
                    }
                    if longer.contains(other as JobId) {
                        let place = longer.index_of(other as JobId);
                        if place < index {
                            assert(shorter[place] == other as JobId);
                        }
                    }
                    assert(longer[index as int] == successor);
                }
            }
            if wait == 1 {
                woken.push(successor);
            }
        }
        proof {
            assert(own.take(own.len() as int) =~= own);
            lemma_completed_sound(before, *self);
        }
        woken
    }

    /// Whether `after` is the schedule brought back to where it was before anything had run: each job
    /// waits for what it waits for in the beginning, no slot is locked, and no job is marked as ready.
    pub open spec fn resets(self, after: Self) -> bool {
        &&& after.jobs@.len() == self.jobs@.len()
        &&& forall|job: int|
            #![trigger after.jobs@[job]]
            0 <= job < self.jobs@.len() ==> after.jobs@[job] == (Node {
                strict_wait: self.jobs@[job].strict_wait_initial,
                ..self.jobs@[job]
            })
        &&& (Schedule { jobs: after.jobs, ..self }).same_but_states(after)
        &&& forall|page: int|
            #![trigger after.pages@[page]]
            0 <= page < self.pages@.len() ==> after.pages@[page].state == 0
    }

    /// Brings the schedule back to where it was before anything had run.
    pub fn reset(&mut self)
        requires
            old(self).sound(),
        ensures
            final(self).sound(),
            old(self).resets(*final(self)),
    {
        let ghost before = *self;
        let mut page: usize = 0;
        while page < self.pages.len()
            invariant
                before.same_but_states(*self),
                self.jobs == before.jobs,
                page <= self.pages@.len(),
                forall|at: int|
                    #![trigger self.pages@[at]]
                    0 <= at < page ==> self.pages@[at].state == 0,
            decreases self.pages@.len() - page,
        {
            self.pages[page].state = 0;
            page += 1;
        }
        let ghost middle = *self;
        proof {
            lemma_same_sound(before, middle);
        }
        let mut job: usize = 0;
        while job < self.jobs.len()
            invariant
                (Schedule { jobs: self.jobs, ..middle }) == *self,
                self.jobs@.len() == middle.jobs@.len(),
                job <= self.jobs@.len(),
                forall|at: int|
                    #![trigger self.jobs@[at]]
                    0 <= at < self.jobs@.len() ==> self.jobs@[at] == (if at < job {
                        Node {
                            strict_wait: middle.jobs@[at].strict_wait_initial,
                            ..middle.jobs@[at]
                        }
                    } else {
                        middle.jobs@[at]
                    }),
            decreases self.jobs@.len() - job,
        {
            self.jobs[job].strict_wait = self.jobs[job].strict_wait_initial;
            job += 1;
        }
        proof {
            lemma_completed_sound(middle, *self);
            assert forall|at: int|
                #![trigger self.jobs@[at]]
                0 <= at < before.jobs@.len() implies self.jobs@[at] == (Node {
                strict_wait: before.jobs@[at].strict_wait_initial,
                ..before.jobs@[at]
            }) by {
                assert(middle.jobs@[at] == before.jobs@[at]);
            }
        }
    }
}

pub(crate) proof fn lemma_completed_sound<R>(before: Schedule<R>, after: Schedule<R>)
    requires
        before.sound(),
        (Schedule { jobs: after.jobs, ..before }) == after,
        after.jobs@.len() == before.jobs@.len(),
        forall|job: int|
            #![trigger after.jobs@[job]]
            0 <= job < before.jobs@.len() ==> after.jobs@[job] == (Node {
                strict_wait: after.jobs@[job].strict_wait,
                ..before.jobs@[job]
            }),
    ensures
        after.sound(),
{
    assert forall|job: int|
        #![trigger after.jobs@[job]]
        0 <= job < after.jobs@.len() implies {
        let node = after.jobs@[job];
        &&& node.home.page < after.pages@.len()
        &&& node.home.slot < 32
        &&& range_within(after.successors@, node.successor_range)
        &&& ascending(after.successors_of(job))
        &&& within(after.successors_of(job), after.jobs@.len() as int)
        &&& range_within(after.acquires@, node.acquire_range)
        &&& rising_pages(after.acquires_by(job))
        &&& locks(after.acquires_by(job), node.home.page, node.home.slot as int)
        &&& forall|index: int|
            0 <= index < after.acquires_by(job).len() ==> (#[trigger] after.acquires_by(
                job,
            )[index]).page < after.pages@.len()
    } by {
        assert(after.jobs@[job].home == before.jobs@[job].home);
        assert(after.acquires_by(job) == before.acquires_by(job));
        assert(after.successors_of(job) == before.successors_of(job));
        assert forall|index: int| 0 <= index < after.acquires_by(job).len() implies (
        #[trigger] after.acquires_by(job)[index]).page < after.pages@.len() by {
            assert(before.acquires_by(job)[index].page < before.pages@.len());
        }
    }
    assert forall|page: int|
        #![trigger after.pages@[page]]
        0 <= page < after.pages@.len() implies {
        let node = after.pages@[page];
        &&& range_within(after.residents@, node.resident_range)
        &&& range_within(after.followers@, node.follower_range)
        &&& within(after.residents_on(page), after.jobs@.len() as int)
        &&& within(after.followers_of(page), after.pages@.len() as int)
    } by {
        assert(before.residents_on(page) == after.residents_on(page));
        assert(before.followers_of(page) == after.followers_of(page));
    }
}

impl<R> Schedule<R> {
    /// Whether one of the running jobs locks a slot.
    pub open spec fn locked_by(self, running: Set<JobId>, page: PageId, slot: int) -> bool {
        exists|job: JobId| #[trigger]
            running.contains(job) && locks(self.acquires_by(job as int), page, slot)
    }

    /// Whether the locks that are held are those of the running jobs, and no two of them lock the
    /// same slot.
    pub open spec fn exclusive(self, running: Set<JobId>) -> bool {
        &&& forall|job: JobId| #[trigger] running.contains(job) ==> job < self.jobs@.len()
        &&& forall|page: PageId, slot: int|
            page < self.pages@.len() && 0 <= slot < 32 ==> #[trigger] self.locked_by(
                running,
                page,
                slot,
            ) == mask_bit(lock_of(self.pages@[page as int].state), slot)
        &&& forall|left: JobId, right: JobId, page: PageId, slot: int|
            #![trigger running.contains(left), running.contains(right), locks(
                self.acquires_by(left as int), page, slot)]
            running.contains(left) && running.contains(right) && left != right && page
                < self.pages@.len() && 0 <= slot < 32 && locks(
                self.acquires_by(left as int),
                page,
                slot,
            ) ==> !locks(self.acquires_by(right as int), page, slot)
    }
}

/// A job that starts shares no slot with the running jobs, and the schedule stays exclusive.
pub proof fn starting_keeps_jobs_apart<R>(
    before: Schedule<R>,
    after: Schedule<R>,
    job: JobId,
    running: Set<JobId>,
)
    requires
        before.sound(),
        before.exclusive(running),
        job < before.jobs@.len(),
        before.unlocked(job as int),
        before.starts(job as int, after),
    ensures
        !running.contains(job),
        after.exclusive(running.insert(job)),
{
    let own = before.acquires_by(job as int);
    let home = before.jobs@[job as int].home;
    let more = running.insert(job);
    assert(rising_pages(own));
    assert forall|page: PageId, slot: int|
        page < before.pages@.len() && 0 <= slot < 32 && #[trigger] locks(
            own,
            page,
            slot,
        ) implies !mask_bit(lock_of(before.pages@[page as int].state), slot) by {
        let index = choose|index: int|
            0 <= index < own.len() && (#[trigger] own[index]).page == page && mask_bit(
                own[index].mask,
                slot,
            );
        assert(before.acquires_by(job as int)[index] == own[index]);
        lemma_masks_disjoint(
            lock_of(before.pages@[page as int].state),
            own[index].mask,
            slot as u32,
        );
    }
    if running.contains(job) {
        assert(locks(own, home.page, home.slot as int));
        assert(before.locked_by(running, home.page, home.slot as int));
    }
    assert forall|other: JobId| #[trigger] more.contains(other) implies after.acquires_by(
        other as int,
    ) == before.acquires_by(other as int) by {}
    assert forall|page: PageId, slot: int|
        page < after.pages@.len() && 0 <= slot < 32 implies #[trigger] after.locked_by(
        more,
        page,
        slot,
    ) == mask_bit(lock_of(after.pages@[page as int].state), slot) by {
        lemma_mask_on(own, page as int);
        lemma_mask_join(
            lock_of(before.pages@[page as int].state),
            mask_on(own, page as int),
            slot as u32,
        );
        assert(before.locked_by(running, page, slot) == mask_bit(
            lock_of(before.pages@[page as int].state),
            slot,
        ));
        if before.locked_by(running, page, slot) {
            let other = choose|other: JobId| #[trigger]
                running.contains(other) && locks(before.acquires_by(other as int), page, slot);
            assert(more.contains(other) && locks(after.acquires_by(other as int), page, slot));
        }
        if locks(own, page, slot) {
            assert(more.contains(job) && locks(after.acquires_by(job as int), page, slot));
        }
        if after.locked_by(more, page, slot) {
            let other = choose|other: JobId| #[trigger]
                more.contains(other) && locks(after.acquires_by(other as int), page, slot);
            if other != job {
                assert(running.contains(other) && locks(
                    before.acquires_by(other as int),
                    page,
                    slot,
                ));
            }
        }
    }
    assert forall|left: JobId, right: JobId, page: PageId, slot: int|
        #![trigger more.contains(left), more.contains(right), locks(
                after.acquires_by(left as int), page, slot)]
        more.contains(left) && more.contains(right) && left != right && page < after.pages@.len()
            && 0 <= slot < 32 && locks(after.acquires_by(left as int), page, slot) implies !locks(
        after.acquires_by(right as int),
        page,
        slot,
    ) by {
        assert(before.locked_by(running, page, slot) == mask_bit(
            lock_of(before.pages@[page as int].state),
            slot,
        ));
        if locks(after.acquires_by(right as int), page, slot) {
            if left == job {
                assert(running.contains(right) && locks(
                    before.acquires_by(right as int),
                    page,
                    slot,
                ));
            } else if right == job {
                assert(running.contains(left) && locks(
                    before.acquires_by(left as int),
                    page,
                    slot,
                ));
            } else {
                assert(running.contains(left) && running.contains(right) && locks(
                    before.acquires_by(left as int),
                    page,
                    slot,
                ));
            }
        }
    }
}

/// A job that is marked as ready takes no lock.
pub proof fn marking_keeps_jobs_apart<R>(
    before: Schedule<R>,
    after: Schedule<R>,
    job: JobId,
    running: Set<JobId>,
)
    requires
        before.exclusive(running),
        before.marks(job as int, after),
    ensures
        after.exclusive(running),
{
    assert forall|other: JobId| #[trigger] running.contains(other) implies after.acquires_by(
        other as int,
    ) == before.acquires_by(other as int) by {}
    assert forall|page: PageId, slot: int|
        page < after.pages@.len() && 0 <= slot < 32 implies #[trigger] after.locked_by(
        running,
        page,
        slot,
    ) == mask_bit(lock_of(after.pages@[page as int].state), slot) by {
        assert(before.locked_by(running, page, slot) == mask_bit(
            lock_of(before.pages@[page as int].state),
            slot,
        ));
        if before.locked_by(running, page, slot) {
            let other = choose|other: JobId| #[trigger]
                running.contains(other) && locks(before.acquires_by(other as int), page, slot);
            assert(running.contains(other) && locks(after.acquires_by(other as int), page, slot));
        }
        if after.locked_by(running, page, slot) {
            let other = choose|other: JobId| #[trigger]
                running.contains(other) && locks(after.acquires_by(other as int), page, slot);
            assert(running.contains(other) && locks(before.acquires_by(other as int), page, slot));
        }
    }
    assert forall|left: JobId, right: JobId, page: PageId, slot: int|
        #![trigger running.contains(left), running.contains(right), locks(
                after.acquires_by(left as int), page, slot)]
        running.contains(left) && running.contains(right) && left != right && page
            < after.pages@.len() && 0 <= slot < 32 && locks(
            after.acquires_by(left as int),
            page,
            slot,
        ) implies !locks(after.acquires_by(right as int), page, slot) by {
        assert(running.contains(left) && running.contains(right) && locks(
            before.acquires_by(left as int),
            page,
            slot,
        ));
    }
}

/// A job that gives its locks back leaves those of the other running jobs as they are.
pub proof fn releasing_keeps_jobs_apart<R>(
    before: Schedule<R>,
    after: Schedule<R>,
    job: JobId,
    running: Set<JobId>,
)
    requires
        before.sound(),
        before.exclusive(running),
        running.contains(job),
        before.releases(job as int, after),
    ensures
        after.exclusive(running.remove(job)),
{
    let own = before.acquires_by(job as int);
    let rest = running.remove(job);
    assert(rising_pages(own)) by {
        assert(before.jobs@[job as int].home.slot < 32);
    }
    assert forall|other: JobId| #[trigger] running.contains(other) implies after.acquires_by(
        other as int,
    ) == before.acquires_by(other as int) by {
        assert(after.jobs@[other as int].acquire_range == before.jobs@[other as int].acquire_range);
    }
    assert forall|page: PageId, slot: int|
        page < after.pages@.len() && 0 <= slot < 32 implies #[trigger] after.locked_by(
        rest,
        page,
        slot,
    ) == mask_bit(lock_of(after.pages@[page as int].state), slot) by {
        lemma_mask_on(own, page as int);
        lemma_mask_join(
            lock_of(before.pages@[page as int].state),
            mask_on(own, page as int),
            slot as u32,
        );
        assert(before.locked_by(running, page, slot) == mask_bit(
            lock_of(before.pages@[page as int].state),
            slot,
        ));
        if mask_bit(lock_of(after.pages@[page as int].state), slot) {
            let other = choose|other: JobId| #[trigger]
                running.contains(other) && locks(before.acquires_by(other as int), page, slot);
            assert(rest.contains(other) && locks(after.acquires_by(other as int), page, slot));
        }
        if after.locked_by(rest, page, slot) {
            let other = choose|other: JobId| #[trigger]
                rest.contains(other) && locks(after.acquires_by(other as int), page, slot);
            assert(running.contains(other) && locks(before.acquires_by(other as int), page, slot));
            assert(running.contains(job));
            assert(!locks(own, page, slot));
        }
    }
    assert forall|left: JobId, right: JobId, page: PageId, slot: int|
        #![trigger rest.contains(left), rest.contains(right), locks(
                after.acquires_by(left as int), page, slot)]
        rest.contains(left) && rest.contains(right) && left != right && page < after.pages@.len()
            && 0 <= slot < 32 && locks(after.acquires_by(left as int), page, slot) implies !locks(
        after.acquires_by(right as int),
        page,
        slot,
    ) by {
        assert(running.contains(left) && running.contains(right) && locks(
            before.acquires_by(left as int),
            page,
            slot,
        ));
    }
}

/// No two jobs that run at the same time are related in a relaxed way.
pub proof fn running_jobs_do_not_conflict<R>(
    declared: Seq<Seq<DependencyView>>,
    plan: Plan,
    schedule: Schedule<R>,
    running: Set<JobId>,
    left: JobId,
    right: JobId,
)
    requires
        planned(declared, plan),
        declared.len() <= u32::MAX,
        schedule.jobs@.len() == declared.len(),
        schedule.pages@.len() == plan.layout.len(),
        forall|job: int|
            0 <= job < declared.len() ==> #[trigger] schedule.acquires_by(job)
                == plan.acquires[job],
        schedule.exclusive(running),
        running.contains(left),
        running.contains(right),
        left != right,
    ensures
        relation_between(declared, left as int, right as int) != Relation::Relaxed,
{
    if relation_between(declared, left as int, right as int) == Relation::Relaxed {
        let home = plan.homes[left as int];
        relaxed_jobs_lock_each_other(declared, plan, left as int, right as int);
        lemma_home_in_layout(plan.layout, plan.homes, left);
        assert(schedule.acquires_by(left as int) == plan.acquires[left as int]);
        assert(schedule.acquires_by(right as int) == plan.acquires[right as int]);
        assert(locks(schedule.acquires_by(left as int), home.page, home.slot as int));
    }
}

/// A schedule that has just been compiled is sound, and its parts are those of its plan, provided
/// that positions in its lists fit in 32 bits.
pub proof fn compiled_schedules_are_sound<R>(
    declared: Seq<Seq<DependencyView>>,
    plan: Plan,
    runs: Seq<R>,
    schedule: Schedule<R>,
)
    requires
        planned(declared, plan),
        schedule.follows_plan(plan, runs),
        runs.len() == declared.len(),
        declared.len() <= u32::MAX,
        schedule.successors@.len() <= u32::MAX,
        schedule.acquires@.len() <= u32::MAX,
        schedule.residents@.len() <= u32::MAX,
        schedule.followers@.len() <= u32::MAX,
    ensures
        schedule.sound(),
        schedule.exclusive(Set::empty()),
        forall|job: int|
            0 <= job < declared.len() ==> #[trigger] schedule.acquires_by(job)
                == plan.acquires[job],
        forall|job: int|
            0 <= job < declared.len() ==> #[trigger] schedule.successors_of(job)
                == plan.successors[job],
        forall|page: int|
            0 <= page < plan.layout.len() ==> #[trigger] schedule.residents_on(page)
                == plan.layout[page],
        forall|page: int|
            0 <= page < plan.layout.len() ==> #[trigger] schedule.followers_of(page)
                == plan.followers[page],
{
    let count = declared.len() as int;
    let pages = plan.layout.len() as int;
    lemma_page_bound(plan.layout, count);
    lemma_strict_is_backward(declared, plan.candidates);
    lemma_reduced_is_proper(plan.candidates, plan.predecessors);
    assert forall|job: int| 0 <= job < count implies #[trigger] schedule.acquires_by(job)
        == plan.acquires[job] && schedule.successors_of(job) == plan.successors[job]
        && range_within(schedule.acquires@, schedule.jobs@[job].acquire_range) && range_within(
        schedule.successors@,
        schedule.jobs@[job].successor_range,
    ) by {
        lemma_joined(plan.acquires, job, count);
        lemma_joined(plan.successors, job, count);
        assert(schedule.jobs@[job].acquire_range == joined_range(plan.acquires, job));
        assert(schedule.jobs@[job].successor_range == joined_range(plan.successors, job));
    }
    assert forall|job: int| 0 <= job < count implies #[trigger] schedule.successors_of(job)
        == plan.successors[job] by {
        assert(schedule.acquires_by(job) == plan.acquires[job]);
    }
    assert forall|page: int| 0 <= page < pages implies #[trigger] schedule.residents_on(page)
        == plan.layout[page] && schedule.followers_of(page) == plan.followers[page]
        && range_within(schedule.residents@, schedule.pages@[page].resident_range) && range_within(
        schedule.followers@,
        schedule.pages@[page].follower_range,
    ) by {
        lemma_joined(plan.layout, page, pages);
        lemma_joined(plan.followers, page, pages);
        assert(schedule.pages@[page].resident_range == joined_range(plan.layout, page));
        assert(schedule.pages@[page].follower_range == joined_range(plan.followers, page));
    }
    assert forall|page: int| 0 <= page < pages implies #[trigger] schedule.followers_of(page)
        == plan.followers[page] by {
        assert(schedule.residents_on(page) == plan.layout[page]);
    }
    assert forall|job: int|
        #![trigger schedule.jobs@[job]]
        0 <= job < count implies {
        let node = schedule.jobs@[job];
        &&& node.home.page < schedule.pages@.len()
        &&& node.home.slot < 32
        &&& range_within(schedule.successors@, node.successor_range)
        &&& ascending(schedule.successors_of(job))
        &&& within(schedule.successors_of(job), schedule.jobs@.len() as int)
        &&& range_within(schedule.acquires@, node.acquire_range)
        &&& rising_pages(schedule.acquires_by(job))
        &&& locks(schedule.acquires_by(job), node.home.page, node.home.slot as int)
        &&& forall|index: int|
            0 <= index < schedule.acquires_by(job).len() ==> (#[trigger] schedule.acquires_by(
                job,
            )[index]).page < schedule.pages@.len()
    } by {
        let own = plan.acquires[job];
        let all = seq![job as JobId] + plan.neighbors[job];
        let home = plan.homes[job];
        assert(schedule.acquires_by(job) == own);
        assert(schedule.successors_of(job) == plan.successors[job]);
        lemma_home_in_layout(plan.layout, plan.homes, job as JobId);
        assert(acquires_of(plan.homes, all, own));
        assert(all[0] == job as JobId);
        assert(occupies(plan.homes, all, home.page, home.slot as int));
        assert forall|index: int| 0 <= index < own.len() implies (#[trigger] own[index]).page
            < pages by {
            assert(names_page(own, own[index].page));
            assert(resides(plan.homes, all, own[index].page));
            let at = choose|at: int|
                0 <= at < all.len() && plan.homes[(#[trigger] all[at]) as int].page
                    == own[index].page;
            if at > 0 {
                assert(all[at] == plan.neighbors[job][at - 1]);
                assert(plan.neighbors[job].contains(all[at]));
            }
            lemma_home_in_layout(plan.layout, plan.homes, all[at]);
        }
        assert forall|index: int| 0 <= index < plan.successors[job].len() implies (
        #[trigger] plan.successors[job][index]) < count by {
            assert(plan.successors[job].contains(plan.successors[job][index]));
        }
    }
    assert forall|page: int|
        #![trigger schedule.pages@[page]]
        0 <= page < pages implies {
        let node = schedule.pages@[page];
        &&& range_within(schedule.residents@, node.resident_range)
        &&& range_within(schedule.followers@, node.follower_range)
        &&& within(schedule.residents_on(page), schedule.jobs@.len() as int)
        &&& within(schedule.followers_of(page), schedule.pages@.len() as int)
    } by {
        assert(schedule.residents_on(page) == plan.layout[page]);
        assert(schedule.followers_of(page) == plan.followers[page]);
        assert(within(plan.layout[page], count));
        let list = plan.followers[(page as PageId) as int];
        assert forall|index: int| 0 <= index < list.len() implies (#[trigger] list[index])
            < pages by {
            assert(list.contains(list[index]));
            assert(follows(plan.homes, plan.acquires, page as PageId, list[index]));
            let job = choose|job: int|
                0 <= job < plan.homes.len() && (#[trigger] plan.homes[job]).page == list[index]
                    && names_page(plan.acquires[job], page as PageId);
            lemma_home_in_layout(plan.layout, plan.homes, job as JobId);
        }
    }
    assert forall|page: PageId, slot: int|
        page < schedule.pages@.len() && 0 <= slot < 32 implies #[trigger] schedule.locked_by(
        Set::empty(),
        page,
        slot,
    ) == mask_bit(lock_of(schedule.pages@[page as int].state), slot) by {
        assert(schedule.pages@[page as int].state == 0);
        assert(0u64 as u32 == 0u32) by (bit_vector);
        lemma_mask_join(0, 0, slot as u32);
    }
}

/// A schedule that has just been compiled lets each job wait for all its predecessors.
pub proof fn compiled_schedules_are_in_step<R>(plan: Plan, runs: Seq<R>, schedule: Schedule<R>)
    requires
        schedule.follows_plan(plan, runs),
        plan.predecessors.len() == runs.len(),
    ensures
        in_step(plan.predecessors, schedule.waits(), Set::empty(), Set::empty()),
{
    assert forall|job: int| 0 <= job < schedule.waits().len() implies #[trigger]
        schedule.waits()[job] == plan.predecessors[job].len() by {
        assert(schedule.jobs@[job].strict_wait == plan.predecessors[job].len());
    }
    runs_begin_in_step(plan.predecessors, schedule.waits());
}

/// Telling the jobs that wait for a job that it has finished keeps their counts in step.
pub proof fn completed_jobs_stay_in_step<R>(
    plan: Plan,
    before: Schedule<R>,
    after: Schedule<R>,
    started: Set<JobId>,
    done: Set<JobId>,
    job: JobId,
)
    requires
        proper(plan.predecessors),
        inverted(plan.predecessors, plan.successors),
        before.jobs@.len() == plan.predecessors.len() <= u32::MAX,
        job < before.jobs@.len(),
        before.successors_of(job as int) == plan.successors[job as int],
        in_step(plan.predecessors, before.waits(), started, done),
        started.contains(job),
        !done.contains(job),
        before.completes(job as int, after),
    ensures
        in_step(plan.predecessors, after.waits(), started, done.insert(job)),
{
    assert forall|other: JobId|
        other < before.waits().len() && !#[trigger] started.contains(
            other,
        ) implies after.waits()[other as int] == before.waits()[other as int] - (if
    plan.predecessors[other as int].contains(job) {
        1int
    } else {
        0
    }) by {
        let list = plan.predecessors[other as int];
        assert(plan.successors[job as int].contains(other) == list.contains(job));
        assert(after.jobs@[other as int].run == before.jobs@[other as int].run);
        if list.contains(job) {
            let index = list.index_of(job);
            unfinished_predecessors_are_waited_for(
                plan.predecessors,
                before.waits(),
                started,
                done,
                other,
                index,
            );
        }
    }
    finishing_stays_in_step(
        plan.predecessors,
        before.waits(),
        after.waits(),
        started,
        done,
        job,
    );
}

/// While the counts are in step, a job has started only when every earlier job that it is strictly
/// related to is done.
pub proof fn strict_jobs_run_in_order(
    declared: Seq<Seq<DependencyView>>,
    plan: Plan,
    waits: Seq<int>,
    started: Set<JobId>,
    done: Set<JobId>,
    left: JobId,
    right: JobId,
)
    requires
        planned(declared, plan),
        declared.len() <= u32::MAX,
        in_step(plan.predecessors, waits, started, done),
        left < right < declared.len(),
        relation_of(declared[left as int], declared[right as int]) == Relation::Strict,
        started.contains(right),
    ensures
        done.contains(left),
{
    strict_jobs_wait(declared, plan, left as int, right as int);
    jobs_start_after_those_that_reach_them(
        plan.predecessors,
        waits,
        started,
        done,
        left,
        right,
    );
}

} // verus!

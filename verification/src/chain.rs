//! Graphs whose jobs count down what they wait for, and wake one another. Where every cluster of a
//! schedule has one job, the clusters make such a graph, and each stands for its job.

use crate::dag::JobId;
use crate::layout::{contents, join, joined, joined_range, lemma_joined};
use crate::pages::{covered, range_within};
use std::ops::Range;
use vstd::prelude::*;

verus! {

/// What a job waits for, and where its successors are.
#[derive(Debug)]
pub struct ChainNode {
    pub wait_initial: u32,
    pub wait: u32,
    pub successor_range: Range<u32>,
}

impl ChainNode {
    pub fn new(wait_initial: u32, successor_range: Range<u32>) -> (node: Self)
        ensures
            node.wait_initial == wait_initial,
            node.wait == wait_initial,
            node.successor_range == successor_range,
    {
        ChainNode { wait_initial, wait: wait_initial, successor_range }
    }
}

/// Jobs, or clusters of one job each, the successors of each, and those that wait for nothing.
#[derive(Debug)]
pub struct Chain {
    pub nodes: Vec<ChainNode>,
    pub successors: Vec<JobId>,
    pub roots: Vec<JobId>,
}

/// The jobs of a list that wait for nothing but one more job.
pub open spec fn woken_of(nodes: Seq<ChainNode>, list: Seq<JobId>, until: int) -> Seq<JobId>
    decreases until,
{
    if until <= 0 {
        Seq::empty()
    } else {
        let rest = woken_of(nodes, list, until - 1);
        if nodes[list[until - 1] as int].wait == 1 {
            rest.push(list[until - 1])
        } else {
            rest
        }
    }
}

impl Chain {
    /// The successors of a job.
    pub open spec fn successors_of(self, job: int) -> Seq<JobId> {
        covered(self.successors@, self.nodes@[job].successor_range)
    }

    /// What each job waits for.
    pub open spec fn waits(self) -> Seq<int> {
        self.nodes@.map_values(|node: ChainNode| node.wait as int)
    }

    /// Whether the successors of each job are other jobs of the graph, each named once.
    pub open spec fn sound(self) -> bool {
        &&& self.nodes@.len() <= u32::MAX
        &&& forall|job: int|
            #![trigger self.nodes@[job]]
            0 <= job < self.nodes@.len() ==> {
                let list = self.successors_of(job);
                &&& range_within(self.successors@, self.nodes@[job].successor_range)
                &&& list.no_duplicates()
                &&& forall|index: int|
                    0 <= index < list.len() ==> (#[trigger] list[index]) < self.nodes@.len()
                        && list[index] != job
            }
    }

    /// Whether the graph is made of what each job waits for, the successors of each, and roots,
    /// before anything has run.
    pub open spec fn made_of(
        self,
        waits: Seq<int>,
        successors: Seq<Seq<JobId>>,
        roots: Seq<JobId>,
    ) -> bool {
        &&& self.nodes@.len() == waits.len()
        &&& forall|job: int|
            #![trigger self.nodes@[job]]
            0 <= job < waits.len() ==> {
                &&& self.nodes@[job].wait_initial == waits[job]
                &&& self.nodes@[job].wait == waits[job]
                &&& self.nodes@[job].successor_range == joined_range(successors, job)
            }
        &&& self.successors@ == joined(successors, successors.len() as int)
        &&& self.roots@ == roots
    }

    /// Whether `after` is the graph once a job has finished: the job waits again for all that it
    /// waits for in the beginning, and each of its successors waits for one job less.
    pub open spec fn finishes(self, job: int, after: Self) -> bool {
        &&& after.successors == self.successors
        &&& after.roots == self.roots
        &&& after.nodes@.len() == self.nodes@.len()
        &&& forall|other: int|
            #![trigger after.nodes@[other]]
            0 <= other < self.nodes@.len() ==> after.nodes@[other] == (ChainNode {
                wait: if other == job {
                    self.nodes@[other].wait_initial
                } else if self.successors_of(job).contains(other as JobId) {
                    self.nodes@[other].wait.wrapping_sub(1)
                } else {
                    self.nodes@[other].wait
                },
                ..self.nodes@[other]
            })
    }

    /// Whether each of a set of jobs waits for what it waits for in the beginning.
    pub open spec fn restored(self, jobs: Set<JobId>) -> bool {
        forall|job: JobId|
            job < self.nodes@.len() && #[trigger] jobs.contains(job)
                ==> self.nodes@[job as int].wait == self.nodes@[job as int].wait_initial
    }

    /// Whether `after` is the graph with every job waiting for what it waits for in the beginning.
    pub open spec fn resets(self, after: Self) -> bool {
        &&& after.successors == self.successors
        &&& after.roots == self.roots
        &&& after.nodes@.len() == self.nodes@.len()
        &&& forall|job: int|
            0 <= job < self.nodes@.len() ==> (#[trigger] after.nodes@[job]) == (ChainNode {
                wait: self.nodes@[job].wait_initial,
                ..self.nodes@[job]
            })
    }

    /// Whether another graph differs in nothing but how many jobs each job waits for now.
    pub open spec fn resembles(self, other: Self) -> bool {
        &&& self.successors == other.successors
        &&& self.roots == other.roots
        &&& self.nodes@.len() == other.nodes@.len()
        &&& forall|job: int|
            #![trigger self.nodes@[job]]
            0 <= job < self.nodes@.len() ==> self.nodes@[job] == (ChainNode {
                wait: self.nodes@[job].wait,
                ..other.nodes@[job]
            })
    }

    /// Puts a graph together.
    pub(crate) fn assemble(
        waits: Vec<u32>,
        successors_by_job: &[Vec<JobId>],
        roots: Vec<JobId>,
    ) -> (chain: Self)
        requires
            successors_by_job@.len() == waits@.len(),
        ensures
            chain.made_of(
                waits@.map_values(|wait: u32| wait as int),
                contents(successors_by_job@),
                roots@,
            ),
    {
        let ghost lists = contents(successors_by_job@);
        let (successors, ranges) = join(successors_by_job);
        let mut nodes: Vec<ChainNode> = Vec::new();
        for job in 0..waits.len()
            invariant
                ranges@.len() == waits@.len(),
                lists.len() == waits@.len(),
                forall|at: int|
                    0 <= at < waits@.len() ==> #[trigger] ranges@[at] == joined_range(lists, at),
                nodes@.len() == job,
                forall|at: int|
                    #![trigger nodes@[at]]
                    0 <= at < job ==> {
                        &&& nodes@[at].wait_initial == waits@[at]
                        &&& nodes@[at].wait == waits@[at]
                        &&& nodes@[at].successor_range == joined_range(lists, at)
                    },
        {
            assert(ranges@[job as int] == joined_range(lists, job as int));
            let range = ranges[job].start..ranges[job].end;
            nodes.push(ChainNode::new(waits[job], range));
        }
        Chain { nodes, successors, roots }
    }

    /// Lets every job wait for what it waits for in the beginning.
    pub fn reset(&mut self)
        ensures
            old(self).resets(*final(self)),
    {
        let ghost before = *self;
        let count: usize = self.nodes.len();
        for job in 0..count
            invariant
                count == before.nodes@.len(),
                self.successors == before.successors,
                self.roots == before.roots,
                self.nodes@.len() == before.nodes@.len(),
                forall|at: int|
                    0 <= at < job ==> (#[trigger] self.nodes@[at]) == (ChainNode {
                        wait: before.nodes@[at].wait_initial,
                        ..before.nodes@[at]
                    }),
                forall|at: int|
                    job <= at < before.nodes@.len() ==> (#[trigger] self.nodes@[at])
                        == before.nodes@[at],
        {
            self.nodes[job].wait = self.nodes[job].wait_initial;
        }
    }

    /// Tells the successors of a job that it has finished, and returns those that waited for
    /// nothing else. Whoever ran the job goes on with the first of them, and hands out the others.
    pub fn finish(&mut self, job: JobId) -> (woken: Vec<JobId>)
        requires
            old(self).sound(),
            job < old(self).nodes@.len(),
        ensures
            final(self).sound(),
            old(self).finishes(job as int, *final(self)),
            woken@ == woken_of(
                old(self).nodes@,
                old(self).successors_of(job as int),
                old(self).successors_of(job as int).len() as int,
            ),
    {
        let ghost before = *self;
        let ghost at = job as int;
        let ghost own = self.successors_of(at);
        let start: usize = self.nodes[job as usize].successor_range.start as usize;
        let end: usize = self.nodes[job as usize].successor_range.end as usize;
        self.nodes[job as usize].wait = self.nodes[job as usize].wait_initial;
        let mut woken: Vec<JobId> = Vec::new();
        assert(own.take(0) =~= Seq::empty());
        for index in 0..(end - start)
            invariant
                before.sound(),
                0 <= at < before.nodes@.len(),
                own == before.successors_of(at),
                start == before.nodes@[at].successor_range.start,
                end == before.nodes@[at].successor_range.end,
                start <= end <= before.successors@.len(),
                own.len() == end - start,
                self.successors == before.successors,
                self.roots == before.roots,
                self.nodes@.len() == before.nodes@.len(),
                forall|other: int|
                    #![trigger self.nodes@[other]]
                    0 <= other < before.nodes@.len() ==> self.nodes@[other] == (ChainNode {
                        wait: if other == at {
                            before.nodes@[other].wait_initial
                        } else if own.take(index as int).contains(other as JobId) {
                            before.nodes@[other].wait.wrapping_sub(1)
                        } else {
                            before.nodes@[other].wait
                        },
                        ..before.nodes@[other]
                    }),
                woken@ == woken_of(before.nodes@, own, index as int),
        {
            let ghost middle = self.nodes@;
            let ghost shorter = own.take(index as int);
            let ghost longer = own.take(index + 1);
            let successor = self.successors[start + index];
            proof {
                assert(own[index as int] == successor);
                assert(before.nodes@[at].wait_initial == before.nodes@[at].wait_initial);
                assert(successor < before.nodes@.len() && successor != at);
                assert(longer =~= shorter.push(successor));
                if shorter.contains(successor) {
                    let earlier = shorter.index_of(successor);
                    assert(own[earlier] == own[index as int]);
                }
                crate::ready::lemma_push_to_set(shorter, successor);
            }
            let wait = self.nodes[successor as usize].wait;
            self.nodes[successor as usize].wait = wait.wrapping_sub(1);
            if wait == 1 {
                woken.push(successor);
            }
            assert forall|other: int|
                #![trigger self.nodes@[other]]
                0 <= other < before.nodes@.len() implies self.nodes@[other] == (ChainNode {
                wait: if other == at {
                    before.nodes@[other].wait_initial
                } else if longer.contains(other as JobId) {
                    before.nodes@[other].wait.wrapping_sub(1)
                } else {
                    before.nodes@[other].wait
                },
                ..before.nodes@[other]
            }) by {
                assert(middle[other] == (ChainNode {
                    wait: if other == at {
                        before.nodes@[other].wait_initial
                    } else if shorter.contains(other as JobId) {
                        before.nodes@[other].wait.wrapping_sub(1)
                    } else {
                        before.nodes@[other].wait
                    },
                    ..before.nodes@[other]
                }));
                assert(longer.contains(other as JobId) == (shorter.contains(other as JobId)
                    || other as JobId == successor));
            }
        }
        proof {
            assert(own.take((end - start) as int) =~= own);
            assert forall|other: int|
                #![trigger self.nodes@[other]]
                0 <= other < self.nodes@.len() implies self.nodes@[other].successor_range
                == before.nodes@[other].successor_range by {}
            lemma_finished_sound(before, at, *self);
        }
        woken
    }
}

pub(crate) proof fn lemma_finished_sound(before: Chain, job: int, after: Chain)
    requires
        before.sound(),
        before.finishes(job, after),
    ensures
        after.sound(),
{
    assert forall|other: int|
        #![trigger after.nodes@[other]]
        0 <= other < after.nodes@.len() implies {
        let list = after.successors_of(other);
        &&& range_within(after.successors@, after.nodes@[other].successor_range)
        &&& list.no_duplicates()
        &&& forall|index: int|
            0 <= index < list.len() ==> (#[trigger] list[index]) < after.nodes@.len()
                && list[index] != other
    } by {
        assert(after.nodes@[other].successor_range == before.nodes@[other].successor_range);
        assert(before.nodes@[other].wait_initial == before.nodes@[other].wait_initial);
        assert(after.successors_of(other) == before.successors_of(other));
    }
}

/// The jobs of a list that wait for nothing but one more job, each once.
pub(crate) proof fn lemma_woken(nodes: Seq<ChainNode>, list: Seq<JobId>, until: int)
    requires
        0 <= until <= list.len(),
        list.no_duplicates(),
    ensures
        woken_of(nodes, list, until).no_duplicates(),
        forall|job: JobId| #[trigger]
            woken_of(nodes, list, until).contains(job) == (list.take(until).contains(job)
                && nodes[job as int].wait == 1),
    decreases until,
{
    let woken = woken_of(nodes, list, until);
    if until == 0 {
        assert(list.take(0) =~= Seq::empty());
    } else {
        let at = until - 1;
        lemma_woken(nodes, list, at);
        let before = woken_of(nodes, list, at);
        let one = list[at];
        assert(list.take(until) =~= list.take(at).push(one));
        assert(!list.take(at).contains(one)) by {
            if list.take(at).contains(one) {
                let other = list.take(at).index_of(one);
                assert(list[other] == list[at]);
            }
        }
        assert forall|job: JobId| #[trigger] list.take(until).contains(job) == (list.take(
            at,
        ).contains(job) || job == one) by {
            let shorter = list.take(at);
            let longer = list.take(until);
            if shorter.contains(job) {
                assert(longer[shorter.index_of(job)] == job);
            }
            assert(longer[at] == one);
            if longer.contains(job) {
                let place = longer.index_of(job);
                if place < at {
                    assert(shorter[place] == job);
                }
            }
        }
        assert forall|job: JobId| #[trigger] woken.contains(job) == (list.take(until).contains(job)
            && nodes[job as int].wait == 1) by {
            if nodes[one as int].wait == 1 {
                if before.contains(job) {
                    assert(woken[before.index_of(job)] == job);
                }
                assert(woken[before.len() as int] == one);
                if woken.contains(job) {
                    let place = woken.index_of(job);
                    if place < before.len() {
                        assert(before[place] == job);
                    }
                }
            }
            assert(before.contains(job) == (list.take(at).contains(job) && nodes[job as int].wait
                == 1));
        }
        if nodes[one as int].wait == 1 {
            assert forall|left: int, right: int|
                0 <= left < woken.len() && 0 <= right < woken.len() && left
                    != right implies woken[left] != woken[right] by {
                if left < before.len() {
                    assert(before.contains(before[left]));
                }
                if right < before.len() {
                    assert(before.contains(before[right]));
                }
            }
        }
    }
}

/// A graph that has been put together from lists that name each successor once is sound, and finds
/// these lists again, unless they are too long for the ranges.
pub proof fn chains_keep_their_lists(
    chain: Chain,
    waits: Seq<int>,
    successors: Seq<Seq<JobId>>,
    roots: Seq<JobId>,
)
    requires
        chain.made_of(waits, successors, roots),
        successors.len() == waits.len() <= u32::MAX,
        joined(successors, successors.len() as int).len() <= u32::MAX,
        forall|job: int|
            #![trigger successors[job]]
            0 <= job < successors.len() ==> successors[job].no_duplicates() && forall|index: int|
                0 <= index < successors[job].len() ==> (#[trigger] successors[job][index])
                    < waits.len() && successors[job][index] != job,
    ensures
        chain.sound(),
        forall|job: int|
            0 <= job < waits.len() ==> #[trigger] chain.successors_of(job) == successors[job],
{
    assert forall|job: int| 0 <= job < waits.len() implies #[trigger] chain.successors_of(job)
        == successors[job] && range_within(
        chain.successors@,
        chain.nodes@[job].successor_range,
    ) by {
        let end = successors.len() as int;
        lemma_joined(successors, job, end);
        assert(chain.nodes@[job].successor_range == joined_range(successors, job));
    }
    assert forall|job: int|
        #![trigger chain.nodes@[job]]
        0 <= job < chain.nodes@.len() implies {
        let list = chain.successors_of(job);
        &&& range_within(chain.successors@, chain.nodes@[job].successor_range)
        &&& list.no_duplicates()
        &&& forall|index: int|
            0 <= index < list.len() ==> (#[trigger] list[index]) < chain.nodes@.len()
                && list[index] != job
    } by {
        assert(chain.successors_of(job) == successors[job]);
    }
}

/// Finishing a job changes nothing but how many jobs each job waits for, and so does a reset.
pub proof fn chains_change_in_their_counts_only(first: Chain, chain: Chain, job: int, after: Chain)
    requires
        chain.resembles(first),
        chain.finishes(job, after) || chain.resets(after),
    ensures
        after.resembles(first),
{
    assert forall|other: int|
        #![trigger after.nodes@[other]]
        0 <= other < after.nodes@.len() implies after.nodes@[other] == (ChainNode {
        wait: after.nodes@[other].wait,
        ..first.nodes@[other]
    }) by {
        assert(chain.nodes@[other] == (ChainNode {
            wait: chain.nodes@[other].wait,
            ..first.nodes@[other]
        }));
    }
}

/// A graph that has been run and reset, or of which all jobs are done, is the graph that it was in
/// the beginning.
pub proof fn chains_begin_anew(
    chain: Chain,
    after: Chain,
    waits: Seq<int>,
    successors: Seq<Seq<JobId>>,
    roots: Seq<JobId>,
    first: Chain,
    all: Set<JobId>,
)
    requires
        first.made_of(waits, successors, roots),
        first.nodes@.len() <= u32::MAX,
        chain.resembles(first),
        chain.resets(after) || after == chain && chain.restored(all) && forall|job: JobId|
            job < chain.nodes@.len() ==> #[trigger] all.contains(job),
    ensures
        after.made_of(waits, successors, roots),
{
    assert forall|job: int|
        #![trigger after.nodes@[job]]
        0 <= job < waits.len() implies {
        &&& after.nodes@[job].wait_initial == waits[job]
        &&& after.nodes@[job].wait == waits[job]
        &&& after.nodes@[job].successor_range == joined_range(successors, job)
    } by {
        assert(first.nodes@[job].wait_initial == waits[job]);
        assert(chain.nodes@[job] == (ChainNode {
            wait: chain.nodes@[job].wait,
            ..first.nodes@[job]
        }));
        if !chain.resets(after) {
            assert(all.contains(job as JobId));
        }
    }
}

proof fn lemma_woken_in_order(nodes: Seq<ChainNode>, list: Seq<JobId>, until: int)
    requires
        0 <= until <= list.len(),
        list.no_duplicates(),
    ensures
        ({
            let woken = woken_of(nodes, list, until);
            &&& forall|at: int|
                0 <= at < until ==> woken.contains(#[trigger] list[at]) == (
                nodes[list[at] as int].wait == 1)
            &&& forall|place: int|
                0 <= place < woken.len() ==> list.take(until).contains(#[trigger] woken[place])
                    && nodes[woken[place] as int].wait == 1
            &&& forall|left: int, right: int|
                0 <= left < right < woken.len() ==> list.index_of(#[trigger] woken[left])
                    < list.index_of(#[trigger] woken[right])
        }),
    decreases until,
{
    if until > 0 {
        let last = until - 1;
        let before = woken_of(nodes, list, last);
        let woken = woken_of(nodes, list, until);
        lemma_woken_in_order(nodes, list, last);
        assert forall|place: int| 0 <= place < before.len() implies list.take(until).contains(
            #[trigger] before[place],
        ) && list.index_of(before[place]) < last by {
            assert(list.take(last).contains(before[place]));
            let at = list.take(last).index_of(before[place]);
            assert(list[at] == before[place]);
            assert(list.take(until)[at] == before[place]);
            assert(list.contains(before[place]));
            assert(list[list.index_of(before[place])] == before[place]);
        }
        assert(list.contains(list[last]));
        assert(list.index_of(list[last]) == last);
        assert(list.take(until)[last] == list[last]);
        assert forall|at: int| 0 <= at < until implies woken.contains(#[trigger] list[at]) == (
        nodes[list[at] as int].wait == 1) by {
            if at < last {
                if before.contains(list[at]) {
                    assert(woken[before.index_of(list[at])] == list[at]);
                }
                if woken.contains(list[at]) {
                    let place = woken.index_of(list[at]);
                    if place < before.len() {
                        assert(before[place] == list[at]);
                    } else {
                        assert(list[at] == list[last]);
                    }
                }
            } else if nodes[list[last] as int].wait == 1 {
                assert(woken[before.len() as int] == list[last]);
            } else if before.contains(list[last]) {
                let place = before.index_of(list[last]);
                assert(list.index_of(before[place]) < last);
            }
        }
        assert forall|place: int| 0 <= place < woken.len() implies list.take(until).contains(
            #[trigger] woken[place],
        ) && nodes[woken[place] as int].wait == 1 by {
            if place < before.len() {
                assert(woken[place] == before[place]);
            }
        }
        assert forall|left: int, right: int| 0 <= left < right < woken.len() implies list.index_of(
            #[trigger] woken[left],
        ) < list.index_of(#[trigger] woken[right]) by {
            assert(woken[left] == before[left]);
            if right < before.len() {
                assert(woken[right] == before[right]);
            }
        }
    }
}

/// A job that has finished wakes those of its successors that waited for nothing but it, in the order
/// in which they are listed. Each of its successors waits for one job less than before, the job itself
/// for what it waited for in the beginning, and no other job for anything else than before.
pub proof fn finished_jobs_wake_what_waited_for_them(
    chain: &mut Chain,
    job: JobId,
    woken: Vec<JobId>,
    other: JobId,
)
    requires
        old(chain).sound(),
        job < old(chain).nodes@.len(),
        other < old(chain).nodes@.len(),
        call_ensures(Chain::finish, (chain, job), woken),
    ensures
        ({
            let list = old(chain).successors_of(job as int);
            let node = old(chain).nodes@[other as int];
            let after = final(chain).nodes@[other as int];
            &&& woken@.contains(other) == (list.contains(other) && node.wait == 1)
            &&& forall|left: int, right: int|
                0 <= left < right < woken@.len() ==> list.index_of(#[trigger] woken@[left])
                    < list.index_of(#[trigger] woken@[right])
            &&& final(chain).nodes@.len() == old(chain).nodes@.len()
            &&& after.wait_initial == node.wait_initial
            &&& other == job ==> after.wait == node.wait_initial
            &&& other != job && list.contains(other) && node.wait > 0 ==> after.wait == node.wait - 1
            &&& other != job && !list.contains(other) ==> after.wait == node.wait
        }),
{
    let list = old(chain).successors_of(job as int);
    let nodes = old(chain).nodes@;
    assert(nodes[job as int].wait == nodes[job as int].wait);
    lemma_woken_in_order(nodes, list, list.len() as int);
    assert(list.take(list.len() as int) =~= list);
    if list.contains(other) {
        let at = list.index_of(other);
        assert(list[at] == other);
    }
    if woken@.contains(other) {
        let place = woken@.index_of(other);
        assert(woken@[place] == other);
    }
    assert(final(chain).nodes@[other as int].wait_initial == nodes[other as int].wait_initial);
}

} // verus!

//! Workers: jobs that are scheduled as they are declared. Each job waits for the strictly related
//! jobs before it; jobs that are related in a relaxed way share a cluster, and lock one another.

use crate::bits::{bit, bit_or, bit_set, bit_test, lemma_no_bits};
use crate::depend::{views, Conflict, ConflictView, Dependency, DependencyView, Order};
use crate::error::{Error, ErrorView};
use crate::job::Job;
use crate::normalize::{
    consistent, inner_detection_finds_every_clash, outer_detection_tells_the_relation, relation_of,
    Relation,
};
use crate::plan::all_consistent;
use crate::word::{
    decompose, lemma_mask_join, lemma_mask_single, lock_of, mask_bit, ready_of, recompose,
};
use vstd::prelude::*;

verus! {

/// How many jobs a cluster has room for.
pub const CLUSTER_NODES: usize = 32;

/// What a job waits for: how many jobs now, which ones, and which jobs wait for it. The bits of
/// `transitive` are the jobs that it waits for, however indirectly.
#[derive(Debug)]
pub struct Strong {
    pub wait: usize,
    pub previous: Vec<usize>,
    pub next: Vec<usize>,
    pub transitive: Vec<u64>,
}

/// The cluster of a job, its bit there, the bits that it locks while it runs, and the jobs that it
/// must not overlap with.
#[derive(Debug)]
pub struct Weak {
    pub ready: u32,
    pub lock: u32,
    pub cluster: usize,
    pub rivals: Vec<usize>,
}

/// A job that has been pushed.
#[derive(Debug)]
pub struct Node<R> {
    pub run: R,
    pub dependencies: Vec<Dependency>,
    pub strong: Strong,
    pub weak: Weak,
}

/// Jobs that lock one another. The word holds which of them are ready, and which bits are locked.
#[derive(Debug)]
pub struct Cluster {
    pub bits: u64,
    pub nodes: Vec<usize>,
}

/// Jobs in the order in which they were pushed, and how they are to be run.
#[derive(Debug)]
pub struct Worker<R> {
    pub(crate) roots: Vec<usize>,
    pub(crate) nodes: Vec<Node<R>>,
    pub(crate) clusters: Vec<Cluster>,
    pub(crate) schedule: bool,
    pub(crate) reset: bool,
    pub(crate) conflict: Conflict,
}

impl Weak {
    /// The weak part of a job in no cluster.
    pub fn new() -> (weak: Self)
        ensures
            weak.ready == 0,
            weak.lock == 0,
            weak.cluster == usize::MAX,
            weak.rivals@ == Seq::<usize>::empty(),
    {
        Weak { ready: 0, lock: 0, cluster: usize::MAX, rivals: Vec::new() }
    }

    /// Locks what the job locks, where all of it is free; otherwise marks the job as ready. Returns
    /// the word as it was, where the job may run.
    pub fn early_reserve(&self, bits: &mut u64) -> (reserved: Option<u64>)
        ensures
            match reserved {
                Some(before) => {
                    &&& before == *old(bits)
                    &&& lock_of(*old(bits)) & self.lock == 0
                    &&& ready_of(*final(bits)) == ready_of(*old(bits))
                    &&& lock_of(*final(bits)) == lock_of(*old(bits)) | self.lock
                },
                None => {
                    &&& lock_of(*old(bits)) & self.lock != 0
                    &&& ready_of(*final(bits)) == ready_of(*old(bits)) | self.ready
                    &&& lock_of(*final(bits)) == lock_of(*old(bits))
                },
            },
    {
        let before = *bits;
        let (ready, lock) = decompose(before);
        if lock & self.lock == 0 {
            *bits = recompose(ready, lock | self.lock);
            Some(before)
        } else {
            *bits = recompose(ready | self.ready, lock);
            None
        }
    }

    /// Locks what the job locks, where the job is ready and all of it is free; the job is not ready
    /// any more then. Returns the word as it was, as an error where the job may not run.
    pub fn late_reserve(&self, bits: &mut u64) -> (reserved: Result<u64, u64>)
        ensures
            match reserved {
                Ok(before) => {
                    &&& before == *old(bits)
                    &&& ready_of(*old(bits)) & self.ready == self.ready
                    &&& lock_of(*old(bits)) & self.lock == 0
                    &&& ready_of(*final(bits)) == ready_of(*old(bits)) & !self.ready
                    &&& lock_of(*final(bits)) == lock_of(*old(bits)) | self.lock
                },
                Err(before) => {
                    &&& before == *old(bits)
                    &&& ready_of(*old(bits)) & self.ready != self.ready || lock_of(*old(bits))
                        & self.lock != 0
                    &&& *final(bits) == *old(bits)
                },
            },
    {
        let before = *bits;
        let (ready, lock) = decompose(before);
        if ready & self.ready == self.ready && lock & self.lock == 0 {
            *bits = recompose(ready & !self.ready, lock | self.lock);
            Ok(before)
        } else {
            Err(before)
        }
    }

    /// Unlocks what the job locks. Returns the word as it was.
    pub fn release(&self, bits: &mut u64) -> (before: u64)
        ensures
            before == *old(bits),
            ready_of(*final(bits)) == ready_of(*old(bits)),
            lock_of(*final(bits)) == lock_of(*old(bits)) & !self.lock,
    {
        let before = *bits;
        let (ready, lock) = decompose(before);
        *bits = recompose(ready, lock & !self.lock);
        before
    }
}

impl<R> Node<R> {
    /// A job that waits for nothing and is in no cluster.
    pub fn new(job: Job<R>) -> (node: Self)
        ensures
            node.run == job.payload(),
            views(node.dependencies@) == job.declared(),
            node.is_fresh(),
    {
        let (run, dependencies) = job.into_parts();
        Node {
            run,
            dependencies,
            strong: Strong {
                wait: 0,
                previous: Vec::new(),
                next: Vec::new(),
                transitive: Vec::new(),
            },
            weak: Weak::new(),
        }
    }

    /// Whether the job waits for nothing, is waited for by none and is in no cluster.
    pub open spec fn is_fresh(self) -> bool {
        &&& self.strong.wait == 0
        &&& self.strong.previous@ == Seq::<usize>::empty()
        &&& self.strong.next@ == Seq::<usize>::empty()
        &&& self.strong.transitive@ == Seq::<u64>::empty()
        &&& self.weak.ready == 0
        &&& self.weak.lock == 0
        &&& self.weak.cluster == usize::MAX
        &&& self.weak.rivals@ == Seq::<usize>::empty()
    }
}

/// The place of a job: its cluster, and its bit there.
pub struct Seat {
    pub cluster: int,
    pub slot: int,
}

/// How jobs are bound to one another: the place of each in a cluster, the members of each cluster,
/// and for each job the earlier jobs that it waits for, that it waits for however indirectly, and
/// that it must not overlap with.
pub struct Net {
    pub homes: Seq<Option<Seat>>,
    pub clusters: Seq<Seq<usize>>,
    pub strong: Seq<Set<usize>>,
    pub reach: Seq<Set<usize>>,
    pub weak: Seq<Set<usize>>,
}

impl Net {
    /// Jobs that are not bound to one another.
    pub open spec fn unbound(count: int) -> Net {
        Net {
            homes: Seq::new(count as nat, |node: int| None),
            clusters: Seq::empty(),
            strong: Seq::new(count as nat, |node: int| Set::empty()),
            reach: Seq::new(count as nat, |node: int| Set::empty()),
            weak: Seq::new(count as nat, |node: int| Set::empty()),
        }
    }

    /// A job waits for an earlier one.
    pub open spec fn follow(self, left: int, right: int) -> Net {
        Net {
            strong: self.strong.update(right, self.strong[right].insert(left as usize)),
            reach: self.reach.update(
                right,
                self.reach[right].union(self.reach[left]).insert(left as usize),
            ),
            ..self
        }
    }

    /// A job must not overlap with an earlier one.
    pub open spec fn oppose(self, left: int, right: int) -> Net {
        Net { weak: self.weak.update(right, self.weak[right].insert(left as usize)), ..self }
    }

    /// A job joins a cluster.
    pub open spec fn join(self, node: int, cluster: int) -> Net {
        Net {
            homes: self.homes.update(node, Some(Seat { cluster, slot: self.clusters[cluster].len() as int })),
            clusters: self.clusters.update(
                cluster,
                self.clusters[cluster].push(node as usize),
            ),
            ..self
        }
    }

    /// Two jobs found a cluster.
    pub open spec fn found(self, left: int, right: int) -> Net {
        let cluster = self.clusters.len() as int;
        Net {
            homes: self.homes.update(left, Some(Seat { cluster, slot: 0 })).update(
                right,
                Some(Seat { cluster, slot: 1 }),
            ),
            clusters: self.clusters.push(seq![left as usize, right as usize]),
            ..self
        }
    }

    /// What becomes of the clusters when two jobs are to share one, unless they cannot: because they
    /// are in different ones, or because that of one of them is full.
    pub open spec fn share(self, left: int, right: int) -> Option<Net> {
        match (self.homes[left], self.homes[right]) {
            (Some(l), Some(r)) => if l.cluster == r.cluster {
                Some(self)
            } else {
                None
            },
            (Some(l), None) => if self.clusters[l.cluster].len() >= CLUSTER_NODES {
                None
            } else {
                Some(self.join(right, l.cluster))
            },
            (None, Some(r)) => if self.clusters[r.cluster].len() >= CLUSTER_NODES {
                None
            } else {
                Some(self.join(left, r.cluster))
            },
            (None, None) => Some(self.found(left, right)),
        }
    }

    /// Binds a job to an earlier one, by how they are related.
    pub open spec fn bind(
        self,
        declared: Seq<Seq<DependencyView>>,
        left: int,
        right: int,
    ) -> Net {
        if self.reach[right].contains(left as usize) {
            self
        } else {
            match relation_of(declared[left], declared[right]) {
                Relation::Free => self,
                Relation::Strict => self.follow(left, right),
                Relation::Relaxed => match self.share(left, right) {
                    Some(net) => net.oppose(left, right),
                    None => self.follow(left, right),
                },
            }
        }
    }

    /// Binds a job to the earlier ones, the last of them first, down to the one at `until`.
    pub open spec fn resolve(
        self,
        declared: Seq<Seq<DependencyView>>,
        right: int,
        until: int,
    ) -> Net
        decreases right - until,
    {
        if until >= right {
            self
        } else {
            self.resolve(declared, right, until + 1).bind(declared, until, right)
        }
    }
}

/// How the first `until` jobs are bound to one another.
pub open spec fn net_of(declared: Seq<Seq<DependencyView>>, until: int) -> Net
    decreases until,
{
    if until <= 0 {
        Net::unbound(declared.len() as int)
    } else {
        net_of(declared, until - 1).resolve(declared, until - 1, 0)
    }
}

/// Whether each number of a list is smaller than those after it.
pub open spec fn climbing(list: Seq<usize>) -> bool {
    forall|left: int, right: int|
        0 <= left < right < list.len() ==> #[trigger] list[left] < #[trigger] list[right]
}

impl Net {
    /// The place of a job that is in a cluster.
    pub open spec fn seat(self, node: int) -> Seat {
        self.homes[node]->Some_0
    }

    /// Whether two jobs must not overlap.
    pub open spec fn rivals(self, left: int, right: int) -> bool {
        ||| 0 <= right < self.weak.len() && self.weak[right].contains(left as usize)
        ||| 0 <= left < self.weak.len() && self.weak[left].contains(right as usize)
    }

    /// Whether a bit of its cluster is locked by a job: it has rivals, and the bit is its own or that
    /// of one of them.
    pub open spec fn locks(self, node: int, at: int) -> bool {
        exists|other: usize|
            other < self.homes.len() && #[trigger] self.rivals(node, other as int) && (
            self.seat(node).slot == at || self.seat(other as int).slot == at)
    }

    /// Whether the net of the first `until` of the jobs fits together.
    pub open spec fn fits(self, until: int) -> bool {
        let count = self.homes.len() as int;
        &&& 0 <= until <= count <= usize::MAX
        &&& self.strong.len() == count
        &&& self.reach.len() == count
        &&& self.weak.len() == count
        &&& forall|node: int|
            #![trigger self.homes[node]]
            0 <= node < count ==> match self.homes[node] {
                None => true,
                Some(seat) => {
                    &&& node < until
                    &&& 0 <= seat.cluster < self.clusters.len()
                    &&& 0 <= seat.slot < self.clusters[seat.cluster].len()
                    &&& self.clusters[seat.cluster][seat.slot] == node
                },
            }
        &&& forall|cluster: int, index: int|
            0 <= cluster < self.clusters.len() && 0 <= index < self.clusters[cluster].len() ==> {
                &&& (#[trigger] self.clusters[cluster][index]) < count
                &&& self.homes[self.clusters[cluster][index] as int] == Some(
                    Seat { cluster, slot: index },
                )
            }
        &&& forall|cluster: int|
            0 <= cluster < self.clusters.len() ==> 2 <= (#[trigger] self.clusters[cluster]).len()
                <= CLUSTER_NODES
        &&& forall|right: int, left: usize| #[trigger]
            self.weak[right].contains(left) && 0 <= right < count ==> {
                &&& left < right < until
                &&& self.homes[left as int] is Some
                &&& self.homes[right] is Some
                &&& self.seat(left as int).cluster == self.seat(right).cluster
            }
        &&& forall|right: int, left: usize| #[trigger]
            self.strong[right].contains(left) && 0 <= right < count ==> left < right < until
        &&& forall|right: int, left: usize| #[trigger]
            self.reach[right].contains(left) && 0 <= right < count ==> left < right < until
    }
}

/// The bit of a place in a cluster.
pub open spec fn slot_bit(slot: int) -> u32 {
    1u32 << (slot as u32)
}

/// Whether what a job holds is what a net says of it. The jobs before `until` have been bound.
pub open spec fn shown<R>(net: Net, node: Node<R>, at: int, until: int) -> bool {
    let count = net.homes.len() as int;
    &&& match net.homes[at] {
        None => node.weak.cluster == usize::MAX && node.weak.ready == 0,
        Some(seat) => node.weak.cluster == seat.cluster && node.weak.ready == slot_bit(seat.slot),
    }
    &&& climbing(node.strong.previous@)
    &&& forall|other: usize| #[trigger]
        node.strong.previous@.contains(other) == net.strong[at].contains(other)
    &&& climbing(node.strong.next@)
    &&& forall|other: usize| #[trigger]
        node.strong.next@.contains(other) == (other < count && net.strong[other as int].contains(
            at as usize,
        ))
    &&& climbing(node.weak.rivals@)
    &&& forall|other: usize| #[trigger]
        node.weak.rivals@.contains(other) == (other < count && net.rivals(at, other as int))
    &&& forall|slot: int|
        0 <= slot < CLUSTER_NODES ==> #[trigger] mask_bit(node.weak.lock, slot) == net.locks(
            at,
            slot,
        )
    &&& at < until ==> node.strong.transitive@.len() == count / 64 + 1
    &&& forall|other: usize|
        other < count ==> #[trigger] net.reach[at].contains(other) == (other < 64
            * node.strong.transitive@.len() && bit(node.strong.transitive@, other as int))
}

impl<R> Worker<R> {
    /// Whether the jobs and the clusters are bound as a net says, where the jobs before `until` have
    /// been bound.
    pub closed spec fn linked(self, net: Net, until: int) -> bool {
        &&& net.fits(until)
        &&& self.nodes@.len() == net.homes.len()
        &&& self.clusters@.len() == net.clusters.len()
        &&& forall|cluster: int|
            0 <= cluster < self.clusters@.len() ==> (#[trigger] self.clusters@[cluster]).nodes@
                == net.clusters[cluster]
        &&& forall|at: int|
            0 <= at < self.nodes@.len() ==> shown(net, #[trigger] self.nodes@[at], at, until)
    }

    /// Whether the jobs and the clusters are bound as a net says, and no job is ready or locked.
    pub closed spec fn shows(self, net: Net, until: int) -> bool {
        &&& self.linked(net, until)
        &&& forall|cluster: int|
            0 <= cluster < self.clusters@.len() ==> (#[trigger] self.clusters@[cluster]).bits == 0
    }

    /// What is to be run, job by job.
    pub closed spec fn payloads(self) -> Seq<R> {
        self.nodes@.map_values(|node: Node<R>| node.run)
    }

    /// The dependencies of each job.
    pub closed spec fn declarations(self) -> Seq<Seq<DependencyView>> {
        self.nodes@.map_values(|node: Node<R>| views(node.dependencies@))
    }

    /// Whether another worker has the same jobs, however they are bound.
    closed spec fn same_jobs(self, other: Self) -> bool {
        &&& self.nodes@.len() == other.nodes@.len()
        &&& forall|at: int|
            #![trigger self.nodes@[at]]
            0 <= at < self.nodes@.len() ==> self.nodes@[at].run == other.nodes@[at].run
                && self.nodes@[at].dependencies == other.nodes@[at].dependencies
        &&& self.roots == other.roots
        &&& self.schedule == other.schedule
        &&& self.reset == other.reset
        &&& self.conflict == other.conflict
    }
}

proof fn lemma_slot_bit(set: int, slot: int)
    requires
        0 <= set < 32,
        0 <= slot < 32,
    ensures
        mask_bit(slot_bit(set), slot) == (set == slot),
{
    lemma_mask_single(set as u32, slot as u32);
}

/// A net that has a job join a cluster fits together.
proof fn lemma_join_fits(net: Net, until: int, node: int, cluster: int)
    requires
        net.fits(until),
        0 <= node < until,
        net.homes[node] is None,
        0 <= cluster < net.clusters.len(),
        net.clusters[cluster].len() < CLUSTER_NODES,
    ensures
        net.join(node, cluster).fits(until),
        forall|at: int, other: int| #[trigger]
            net.join(node, cluster).rivals(at, other) == net.rivals(at, other),
        forall|at: int, slot: int|
            0 <= at < net.homes.len() && at != node ==> #[trigger] net.join(node, cluster).locks(
                at,
                slot,
            ) == net.locks(at, slot),
        forall|slot: int|
            !#[trigger] net.locks(node, slot) && !net.join(node, cluster).locks(node, slot),
{
    let after = net.join(node, cluster);
    let count = net.homes.len() as int;
    assert forall|at: int|
        #![trigger after.homes[at]]
        0 <= at < count implies match after.homes[at] {
        None => true,
        Some(seat) => {
            &&& at < until
            &&& 0 <= seat.cluster < after.clusters.len()
            &&& 0 <= seat.slot < after.clusters[seat.cluster].len()
            &&& after.clusters[seat.cluster][seat.slot] == at
        },
    } by {
        if at != node {
            assert(after.homes[at] == net.homes[at]);
        }
    }
    assert forall|c: int, index: int|
        0 <= c < after.clusters.len() && 0 <= index < after.clusters[c].len() implies {
        &&& (#[trigger] after.clusters[c][index]) < count
        &&& after.homes[after.clusters[c][index] as int] == Some(Seat { cluster: c, slot: index })
    } by {
        if !(c == cluster && index == net.clusters[cluster].len()) {
            assert(after.clusters[c][index] == net.clusters[c][index]);
        }
    }
    assert forall|at: int, other: int| #[trigger] after.rivals(at, other) == net.rivals(
        at,
        other,
    ) by {}
    assert forall|other: int| 0 <= other < count implies !#[trigger] net.rivals(node, other) by {
        if net.weak[other].contains(node as usize) {
            assert(net.homes[node] is Some);
        }
        if net.weak[node].contains(other as usize) {
            assert(net.homes[node] is Some);
        }
    }
    assert forall|at: int, slot: int|
        0 <= at < count && at != node implies #[trigger] after.locks(at, slot) == net.locks(
        at,
        slot,
    ) by {
        lemma_same_locks(net, after, at, slot, node, node);
    }
    assert forall|slot: int|
        !#[trigger] net.locks(node, slot) && !after.locks(node, slot) by {
        if after.locks(node, slot) {
            let other = choose|other: usize|
                other < count && #[trigger] after.rivals(node, other as int) && (after.seat(
                    node,
                ).slot == slot || after.seat(other as int).slot == slot);
            assert(net.rivals(node, other as int));
        }
        if net.locks(node, slot) {
            let other = choose|other: usize|
                other < count && #[trigger] net.rivals(node, other as int) && (net.seat(node).slot
                    == slot || net.seat(other as int).slot == slot);
            assert(net.rivals(node, other as int));
        }
    }
}

/// What a job locks does not change where the places of other jobs than its rivals change.
proof fn lemma_same_locks(
    before: Net,
    after: Net,
    at: int,
    slot: int,
    first: int,
    second: int,
)
    requires
        0 <= at < before.homes.len(),
        before.homes.len() == after.homes.len(),
        before.homes.len() <= usize::MAX,
        at != first,
        at != second,
        forall|other: int|
            #![trigger after.homes[other]]
            0 <= other < before.homes.len() && other != first && other != second
                ==> after.homes[other] == before.homes[other],
        forall|l: int, r: int| #[trigger] after.rivals(l, r) == before.rivals(l, r),
        !before.rivals(at, first),
        !before.rivals(at, second),
    ensures
        after.locks(at, slot) == before.locks(at, slot),
{
    let count = before.homes.len();
    assert(after.homes[at] == before.homes[at]);
    if after.locks(at, slot) {
        let other = choose|other: usize|
            other < count && #[trigger] after.rivals(at, other as int) && (after.seat(at).slot
                == slot || after.seat(other as int).slot == slot);
        assert(before.rivals(at, other as int));
        assert(after.homes[other as int] == before.homes[other as int]);
    }
    if before.locks(at, slot) {
        let other = choose|other: usize|
            other < count && #[trigger] before.rivals(at, other as int) && (before.seat(at).slot
                == slot || before.seat(other as int).slot == slot);
        assert(after.rivals(at, other as int));
        assert(after.homes[other as int] == before.homes[other as int]);
    }
}

/// A net in which two jobs found a cluster fits together.
proof fn lemma_found_fits(net: Net, until: int, left: int, right: int)
    requires
        net.fits(until),
        0 <= left < right < until,
        net.homes[left] is None,
        net.homes[right] is None,
    ensures
        net.found(left, right).fits(until),
        forall|at: int, other: int| #[trigger]
            net.found(left, right).rivals(at, other) == net.rivals(at, other),
        forall|at: int, slot: int|
            0 <= at < net.homes.len() ==> #[trigger] net.found(left, right).locks(at, slot)
                == net.locks(at, slot),
{
    let after = net.found(left, right);
    let count = net.homes.len() as int;
    let cluster = net.clusters.len() as int;
    assert forall|at: int|
        #![trigger after.homes[at]]
        0 <= at < count implies match after.homes[at] {
        None => true,
        Some(seat) => {
            &&& at < until
            &&& 0 <= seat.cluster < after.clusters.len()
            &&& 0 <= seat.slot < after.clusters[seat.cluster].len()
            &&& after.clusters[seat.cluster][seat.slot] == at
        },
    } by {
        if at != left && at != right {
            assert(after.homes[at] == net.homes[at]);
        }
    }
    assert forall|c: int, index: int|
        0 <= c < after.clusters.len() && 0 <= index < after.clusters[c].len() implies {
        &&& (#[trigger] after.clusters[c][index]) < count
        &&& after.homes[after.clusters[c][index] as int] == Some(Seat { cluster: c, slot: index })
    } by {
        if c < cluster {
            assert(after.clusters[c][index] == net.clusters[c][index]);
        }
    }
    assert forall|at: int, other: int| #[trigger] after.rivals(at, other) == net.rivals(
        at,
        other,
    ) by {}
    assert forall|other: int| 0 <= other < count implies !#[trigger] net.rivals(left, other)
        && !net.rivals(right, other) by {
        if net.weak[other].contains(left as usize) || net.weak[left].contains(other as usize) {
            assert(net.homes[left] is Some);
        }
        if net.weak[other].contains(right as usize) || net.weak[right].contains(other as usize) {
            assert(net.homes[right] is Some);
        }
    }
    assert forall|at: int, slot: int| 0 <= at < count implies #[trigger] after.locks(at, slot)
        == net.locks(at, slot) by {
        if at == left || at == right {
            assert(!net.rivals(left, at));
            if after.locks(at, slot) {
                let other = choose|other: usize|
                    other < count && #[trigger] after.rivals(at, other as int) && (after.seat(
                        at,
                    ).slot == slot || after.seat(other as int).slot == slot);
                assert(!net.rivals(left, other as int));
                assert(net.rivals(at, other as int));
            }
            if net.locks(at, slot) {
                let other = choose|other: usize|
                    other < count && #[trigger] net.rivals(at, other as int) && (net.seat(at).slot
                        == slot || net.seat(other as int).slot == slot);
                assert(!net.rivals(left, other as int));
            }
        } else {
            assert(!net.rivals(left, at));
            lemma_same_locks(net, after, at, slot, left, right);
        }
    }
}

impl<R> Worker<R> {
    /// A job joins a cluster.
    fn join_cluster(
        &mut self,
        Ghost(net): Ghost<Net>,
        Ghost(until): Ghost<int>,
        node: usize,
        cluster: usize,
    )
        requires
            old(self).shows(net, until),
            node < until,
            net.homes[node as int] is None,
            cluster < net.clusters.len(),
            net.clusters[cluster as int].len() < CLUSTER_NODES,
        ensures
            final(self).shows(net.join(node as int, cluster as int), until),
            final(self).same_jobs(*old(self)),
    {
        let ghost before = *self;
        let ghost after = net.join(node as int, cluster as int);
        proof {
            lemma_join_fits(net, until, node as int, cluster as int);
            assert(self.clusters@[cluster as int].nodes@ == net.clusters[cluster as int]);
            assert(shown(net, self.nodes@[node as int], node as int, until));
        }
        let slot: usize = self.clusters[cluster].nodes.len();
        self.clusters[cluster].nodes.push(node);
        self.nodes[node].weak.cluster = cluster;
        self.nodes[node].weak.ready = 1u32 << (slot as u32);
        proof {
            assert forall|at: int| 0 <= at < self.nodes@.len() implies shown(
                after,
                #[trigger] self.nodes@[at],
                at,
                until,
            ) by {
                assert(shown(net, before.nodes@[at], at, until));
                if at != node {
                    assert(self.nodes@[at] == before.nodes@[at]);
                    assert(after.homes[at] == net.homes[at]);
                }
                let now = self.nodes@[at];
                assert forall|slot: int| 0 <= slot < CLUSTER_NODES implies #[trigger] mask_bit(
                    now.weak.lock,
                    slot,
                ) == after.locks(at, slot) by {
                    assert(mask_bit(before.nodes@[at].weak.lock, slot) == net.locks(at, slot));
                    assert(!net.locks(node as int, slot));
                }
                assert forall|other: usize| #[trigger] now.weak.rivals@.contains(other) == (other
                    < net.homes.len() && after.rivals(at, other as int)) by {
                    assert(before.nodes@[at].weak.rivals@.contains(other) == (other
                        < net.homes.len() && net.rivals(at, other as int)));
                }
            }
        }
    }

    /// Two jobs found a cluster.
    fn found_cluster(
        &mut self,
        Ghost(net): Ghost<Net>,
        Ghost(until): Ghost<int>,
        left: usize,
        right: usize,
    )
        requires
            old(self).shows(net, until),
            left < right < until,
            net.homes[left as int] is None,
            net.homes[right as int] is None,
            net.clusters.len() < usize::MAX,
        ensures
            final(self).shows(net.found(left as int, right as int), until),
            final(self).same_jobs(*old(self)),
    {
        let ghost before = *self;
        let ghost after = net.found(left as int, right as int);
        proof {
            lemma_found_fits(net, until, left as int, right as int);
        }
        let cluster: usize = self.clusters.len();
        self.nodes[left].weak.cluster = cluster;
        self.nodes[right].weak.cluster = cluster;
        self.nodes[left].weak.ready = 1u32 << 0u32;
        self.nodes[right].weak.ready = 1u32 << 1u32;
        let mut members: Vec<usize> = Vec::new();
        members.push(left);
        members.push(right);
        assert(members@ =~= seq![left, right]);
        self.clusters.push(Cluster { bits: 0, nodes: members });
        proof {
            assert forall|at: int| 0 <= at < self.nodes@.len() implies shown(
                after,
                #[trigger] self.nodes@[at],
                at,
                until,
            ) by {
                assert(shown(net, before.nodes@[at], at, until));
                if at != left && at != right {
                    assert(self.nodes@[at] == before.nodes@[at]);
                    assert(after.homes[at] == net.homes[at]);
                }
                let now = self.nodes@[at];
                assert forall|slot: int| 0 <= slot < CLUSTER_NODES implies #[trigger] mask_bit(
                    now.weak.lock,
                    slot,
                ) == after.locks(at, slot) by {
                    assert(mask_bit(before.nodes@[at].weak.lock, slot) == net.locks(at, slot));
                }
                assert forall|other: usize| #[trigger] now.weak.rivals@.contains(other) == (other
                    < net.homes.len() && after.rivals(at, other as int)) by {
                    assert(before.nodes@[at].weak.rivals@.contains(other) == (other
                        < net.homes.len() && net.rivals(at, other as int)));
                }
            }
        }
    }

    /// Makes two jobs share a cluster, unless they cannot.
    fn share_cluster(
        &mut self,
        Ghost(net): Ghost<Net>,
        Ghost(until): Ghost<int>,
        left: usize,
        right: usize,
    ) -> (shared: bool)
        requires
            old(self).shows(net, until),
            left < right < until,
            net.homes[right as int] is None ==> net.clusters.len() < usize::MAX,
        ensures
            final(self).same_jobs(*old(self)),
            match net.share(left as int, right as int) {
                Some(after) => shared && final(self).shows(after, until),
                None => !shared && final(self).shows(net, until),
            },
    {
        proof {
            assert(shown(net, self.nodes@[left as int], left as int, until));
            assert(shown(net, self.nodes@[right as int], right as int, until));
            assert(net.homes[left as int] is Some || net.homes[left as int] is None);
            assert(net.homes[right as int] is Some || net.homes[right as int] is None);
        }
        let l: usize = self.nodes[left].weak.cluster;
        let r: usize = self.nodes[right].weak.cluster;
        let count: usize = self.clusters.len();
        if l < count {
            assert(self.clusters@[l as int].nodes@ == net.clusters[l as int]);
            if l == r {
                // They are in the same cluster already.
                true
            } else if r < count {
                // They are in different clusters.
                false
            } else if self.clusters[l].nodes.len() >= CLUSTER_NODES {
                // The cluster is full.
                false
            } else {
                self.join_cluster(Ghost(net), Ghost(until), right, l);
                true
            }
        } else if r < count {
            assert(self.clusters@[r as int].nodes@ == net.clusters[r as int]);
            if self.clusters[r].nodes.len() >= CLUSTER_NODES {
                false
            } else {
                self.join_cluster(Ghost(net), Ghost(until), left, r);
                true
            }
        } else {
            self.found_cluster(Ghost(net), Ghost(until), left, right);
            true
        }
    }
}

/// Putting a number that is smaller than all others of a list in front keeps the list in order.
proof fn lemma_prepend(list: Seq<usize>, value: usize, longer: Seq<usize>)
    requires
        climbing(list),
        forall|other: usize| #[trigger] list.contains(other) ==> value < other,
        longer == list.insert(0, value),
    ensures
        climbing(longer),
        forall|other: usize| #[trigger]
            longer.contains(other) == (list.contains(other) || other == value),
{
    assert forall|left: int, right: int| 0 <= left < right < longer.len() implies
        #[trigger] longer[left] < #[trigger] longer[right] by {
        assert(longer[right] == list[right - 1]);
        assert(list.contains(list[right - 1]));
        if left > 0 {
            assert(longer[left] == list[left - 1]);
        }
    }
    assert forall|other: usize| #[trigger] longer.contains(other) == (list.contains(other) || other
        == value) by {
        if list.contains(other) {
            assert(longer[list.index_of(other) + 1] == other);
        }
        if other == value {
            assert(longer[0] == other);
        }
        if longer.contains(other) {
            let at = longer.index_of(other);
            if at > 0 {
                assert(list[at - 1] == other);
            }
        }
    }
}

/// Putting a number that is greater than all others of a list behind keeps the list in order.
proof fn lemma_append(list: Seq<usize>, value: usize, longer: Seq<usize>)
    requires
        climbing(list),
        forall|other: usize| #[trigger] list.contains(other) ==> other < value,
        longer == list.push(value),
    ensures
        climbing(longer),
        forall|other: usize| #[trigger]
            longer.contains(other) == (list.contains(other) || other == value),
{
    assert forall|left: int, right: int| 0 <= left < right < longer.len() implies
        #[trigger] longer[left] < #[trigger] longer[right] by {
        assert(list.contains(list[left]));
    }
    assert forall|other: usize| #[trigger] longer.contains(other) == (list.contains(other) || other
        == value) by {
        if list.contains(other) {
            assert(longer[list.index_of(other)] == other);
        }
        if other == value {
            assert(longer[list.len() as int] == other);
        }
        if longer.contains(other) {
            let at = longer.index_of(other);
            if at < list.len() {
                assert(list[at] == other);
            }
        }
    }
}

impl Net {
    /// Whether the last job that has been bound, down to an earlier one, is bound to none before
    /// that.
    pub open spec fn bound_down_to(self, right: int, left: int) -> bool {
        &&& forall|other: usize| #[trigger] self.strong[right].contains(other) ==> other >= left
        &&& forall|other: usize| #[trigger] self.weak[right].contains(other) ==> other >= left
        &&& forall|other: int| 0 <= other < self.strong.len() ==> !(
        #[trigger] self.strong[other]).contains(right as usize)
        &&& forall|other: int| 0 <= other < self.weak.len() ==> !(
        #[trigger] self.weak[other]).contains(right as usize)
    }
}

impl<R> Worker<R> {
    /// A job waits for an earlier one.
    fn follow(
        &mut self,
        Ghost(net): Ghost<Net>,
        left: usize,
        right: usize,
    )
        requires
            old(self).shows(net, right + 1),
            left < right < net.homes.len(),
            net.bound_down_to(right as int, left + 1),
        ensures
            final(self).shows(net.follow(left as int, right as int), right + 1),
            final(self).same_jobs(*old(self)),
            net.follow(left as int, right as int).bound_down_to(right as int, left as int),
    {
        let ghost before = *self;
        let ghost until = right + 1;
        let ghost after = net.follow(left as int, right as int);
        let ghost count = net.homes.len() as int;
        let ghost l = left as int;
        let ghost r = right as int;
        let ghost first = self.nodes@[l];
        let ghost second = self.nodes@[r];
        proof {
            assert(shown(net, first, l, until));
            assert(shown(net, second, r, until));
            assert(after.fits(until)) by {
                assert forall|at: int, other: usize| #[trigger]
                    after.strong[at].contains(other) && 0 <= at < count implies other < at
                    < until by {
                    if at == r && other != left {
                        assert(net.strong[r].contains(other));
                    } else if at != r {
                        assert(net.strong[at].contains(other));
                    }
                }
                assert forall|at: int, other: usize| #[trigger]
                    after.reach[at].contains(other) && 0 <= at < count implies other < at
                    < until by {
                    if at == r {
                        if other != left && !net.reach[r].contains(other) {
                            assert(net.reach[l].contains(other));
                        }
                    } else {
                        assert(net.reach[at].contains(other));
                    }
                }
            }
        }
        // What the job waits for, however indirectly, is taken out while it grows.
        let mut transitive: Vec<u64> = Vec::new();
        std::mem::swap(&mut transitive, &mut self.nodes[right].strong.transitive);
        bit_set(&mut transitive, left);
        let ghost with_left = transitive@;
        bit_or(&mut transitive, &self.nodes[left].strong.transitive);
        self.nodes[right].strong.transitive = transitive;
        self.nodes[right].strong.previous.insert(0, left);
        self.nodes[left].strong.next.push(right);
        proof {
            let now_left = self.nodes@[l];
            let now_right = self.nodes@[r];
            assert forall|other: usize| #[trigger] second.strong.previous@.contains(
                other,
            ) implies left < other by {
                assert(net.strong[r].contains(other));
            }
            lemma_prepend(second.strong.previous@, left, now_right.strong.previous@);
            assert forall|other: usize| #[trigger] first.strong.next@.contains(
                other,
            ) implies other < right by {
                assert(net.strong[other as int].contains(left));
                if other == right {
                    assert(net.strong[r].contains(left));
                }
            }
            lemma_append(first.strong.next@, right, now_left.strong.next@);
            assert forall|at: int| 0 <= at < self.nodes@.len() implies shown(
                after,
                #[trigger] self.nodes@[at],
                at,
                until,
            ) by {
                assert(shown(net, before.nodes@[at], at, until));
                let now = self.nodes@[at];
                let old_node = before.nodes@[at];
                if at != l && at != r {
                    assert(now == old_node);
                }
                assert forall|slot: int| 0 <= slot < CLUSTER_NODES implies #[trigger] mask_bit(
                    now.weak.lock,
                    slot,
                ) == after.locks(at, slot) by {
                    assert(mask_bit(old_node.weak.lock, slot) == net.locks(at, slot));
                    lemma_locks_follow(net, l, r, at, slot);
                }
                assert forall|other: usize| #[trigger] now.weak.rivals@.contains(other) == (other
                    < count && after.rivals(at, other as int)) by {
                    assert(old_node.weak.rivals@.contains(other) == (other < count && net.rivals(
                        at,
                        other as int,
                    )));
                }
                assert forall|other: usize| #[trigger] now.strong.next@.contains(other) == (other
                    < count && after.strong[other as int].contains(at as usize)) by {
                    assert(old_node.strong.next@.contains(other) == (other < count
                        && net.strong[other as int].contains(at as usize)));
                    if at == l {
                        assert(now_left.strong.next@.contains(other) == (
                        first.strong.next@.contains(other) || other == right));
                    }
                }
                assert forall|other: usize| #[trigger] now.strong.previous@.contains(other)
                    == after.strong[at].contains(other) by {
                    assert(old_node.strong.previous@.contains(other)
                        == net.strong[at].contains(other));
                    if at == r {
                        assert(now_right.strong.previous@.contains(other) == (
                        second.strong.previous@.contains(other) || other == left));
                    }
                }
                assert forall|other: usize|
                    other < count implies #[trigger] after.reach[at].contains(other) == (other < 64
                    * now.strong.transitive@.len() && bit(
                    now.strong.transitive@,
                    other as int,
                )) by {
                    assert(net.reach[at].contains(other) == (other < 64
                        * old_node.strong.transitive@.len() && bit(
                        old_node.strong.transitive@,
                        other as int,
                    )));
                    if at == r {
                        assert(net.reach[l].contains(other) == (other < 64
                            * first.strong.transitive@.len() && bit(
                            first.strong.transitive@,
                            other as int,
                        )));
                        assert(other < 64 * (count / 64 + 1));
                        assert(bit(with_left, other as int) == (other == left || bit(
                            second.strong.transitive@,
                            other as int,
                        )));
                        assert(bit(now.strong.transitive@, other as int) == (bit(
                            with_left,
                            other as int,
                        ) || bit(first.strong.transitive@, other as int)));
                    }
                }
            }
            assert forall|other: int| 0 <= other < after.strong.len() implies !(
            #[trigger] after.strong[other]).contains(right) by {
                assert(!net.strong[other].contains(right));
            }
        }
    }

    /// A job must not overlap with an earlier one.
    fn oppose(
        &mut self,
        Ghost(net): Ghost<Net>,
        left: usize,
        right: usize,
    )
        requires
            old(self).shows(net, right + 1),
            left < right < net.homes.len(),
            net.bound_down_to(right as int, left + 1),
            net.homes[left as int] is Some,
            net.homes[right as int] is Some,
            net.seat(left as int).cluster == net.seat(right as int).cluster,
        ensures
            final(self).shows(net.oppose(left as int, right as int), right + 1),
            final(self).same_jobs(*old(self)),
            net.oppose(left as int, right as int).bound_down_to(right as int, left as int),
    {
        let ghost before = *self;
        let ghost until = right + 1;
        let ghost after = net.oppose(left as int, right as int);
        let ghost count = net.homes.len() as int;
        let ghost l = left as int;
        let ghost r = right as int;
        let ghost first = self.nodes@[l];
        let ghost second = self.nodes@[r];
        let ghost left_slot = net.seat(l).slot;
        let ghost right_slot = net.seat(r).slot;
        proof {
            assert(shown(net, first, l, until));
            assert(shown(net, second, r, until));
            assert(after.fits(until)) by {
                assert forall|at: int, other: usize| #[trigger]
                    after.weak[at].contains(other) && 0 <= at < count implies {
                    &&& other < at < until
                    &&& after.homes[other as int] is Some
                    &&& after.homes[at] is Some
                    &&& after.seat(other as int).cluster == after.seat(at).cluster
                } by {
                    if !(at == r && other == left) {
                        assert(net.weak[at].contains(other));
                    }
                }
            }
            let seat = net.seat(l);
            assert(net.homes[l] == Some(seat));
            assert(net.clusters[seat.cluster].len() <= CLUSTER_NODES);
            assert(net.homes[r] == Some(net.seat(r)));
        }
        let both = self.nodes[left].weak.ready | self.nodes[right].weak.ready;
        // A job locks its own bit too.
        self.nodes[left].weak.lock = self.nodes[left].weak.lock | both;
        self.nodes[right].weak.lock = self.nodes[right].weak.lock | both;
        self.nodes[left].weak.rivals.push(right);
        self.nodes[right].weak.rivals.insert(0, left);
        proof {
            let now_left = self.nodes@[l];
            let now_right = self.nodes@[r];
            assert forall|other: usize| #[trigger] first.weak.rivals@.contains(
                other,
            ) implies other < right by {
                assert(net.rivals(l, other as int));
                if net.weak[l].contains(other) {
                } else {
                    assert(net.weak[other as int].contains(left));
                    if other == right {
                        assert(net.weak[r].contains(left));
                    }
                }
            }
            lemma_append(first.weak.rivals@, right, now_left.weak.rivals@);
            assert forall|other: usize| #[trigger] second.weak.rivals@.contains(
                other,
            ) implies left < other by {
                assert(net.rivals(r, other as int));
                assert(!net.weak[other as int].contains(right));
                assert(net.weak[r].contains(other));
            }
            lemma_prepend(second.weak.rivals@, left, now_right.weak.rivals@);
            assert forall|slot: int| 0 <= slot < CLUSTER_NODES implies #[trigger] mask_bit(
                both,
                slot,
            ) == (slot == left_slot || slot == right_slot) by {
                lemma_mask_join(slot_bit(left_slot), slot_bit(right_slot), slot as u32);
                lemma_slot_bit(left_slot, slot);
                lemma_slot_bit(right_slot, slot);
            }
            assert forall|at: int| 0 <= at < self.nodes@.len() implies shown(
                after,
                #[trigger] self.nodes@[at],
                at,
                until,
            ) by {
                assert(shown(net, before.nodes@[at], at, until));
                let now = self.nodes@[at];
                let old_node = before.nodes@[at];
                if at != l && at != r {
                    assert(now == old_node);
                }
                assert forall|slot: int| 0 <= slot < CLUSTER_NODES implies #[trigger] mask_bit(
                    now.weak.lock,
                    slot,
                ) == after.locks(at, slot) by {
                    assert(mask_bit(old_node.weak.lock, slot) == net.locks(at, slot));
                    lemma_locks_oppose(net, l, r, at, slot);
                    lemma_mask_join(old_node.weak.lock, both, slot as u32);
                    assert(mask_bit(both, slot) == (slot == left_slot || slot == right_slot));
                }
                assert forall|other: usize| #[trigger] now.weak.rivals@.contains(other) == (other
                    < count && after.rivals(at, other as int)) by {
                    assert(old_node.weak.rivals@.contains(other) == (other < count && net.rivals(
                        at,
                        other as int,
                    )));
                    if at == l {
                        assert(now_left.weak.rivals@.contains(other) == (
                        first.weak.rivals@.contains(other) || other == right));
                    } else if at == r {
                        assert(now_right.weak.rivals@.contains(other) == (
                        second.weak.rivals@.contains(other) || other == left));
                    }
                }
                assert forall|other: usize| #[trigger] now.strong.next@.contains(other) == (other
                    < count && after.strong[other as int].contains(at as usize)) by {
                    assert(old_node.strong.next@.contains(other) == (other < count
                        && net.strong[other as int].contains(at as usize)));
                }
                assert forall|other: usize| #[trigger] now.strong.previous@.contains(other)
                    == after.strong[at].contains(other) by {
                    assert(old_node.strong.previous@.contains(other)
                        == net.strong[at].contains(other));
                }
                assert forall|other: usize|
                    other < count implies #[trigger] after.reach[at].contains(other) == (other < 64
                    * now.strong.transitive@.len() && bit(
                    now.strong.transitive@,
                    other as int,
                )) by {
                    assert(net.reach[at].contains(other) == (other < 64
                        * old_node.strong.transitive@.len() && bit(
                        old_node.strong.transitive@,
                        other as int,
                    )));
                }
            }
            assert forall|other: int| 0 <= other < after.weak.len() implies !(
            #[trigger] after.weak[other]).contains(right) by {
                assert(!net.weak[other].contains(right));
            }
        }
    }
}

/// That a job waits for another one does not change what jobs lock.
proof fn lemma_locks_follow(net: Net, left: int, right: int, at: int, slot: int)
    ensures
        net.follow(left, right).locks(at, slot) == net.locks(at, slot),
{
    let after = net.follow(left, right);
    if after.locks(at, slot) {
        let other = choose|other: usize|
            other < after.homes.len() && #[trigger] after.rivals(at, other as int) && (after.seat(
                at,
            ).slot == slot || after.seat(other as int).slot == slot);
        assert(net.rivals(at, other as int));
    }
    if net.locks(at, slot) {
        let other = choose|other: usize|
            other < net.homes.len() && #[trigger] net.rivals(at, other as int) && (net.seat(at).slot
                == slot || net.seat(other as int).slot == slot);
        assert(after.rivals(at, other as int));
    }
}

/// Two jobs that must not overlap lock each other's bits.
proof fn lemma_locks_oppose(net: Net, left: int, right: int, at: int, slot: int)
    requires
        0 <= left < right < net.homes.len(),
        net.homes.len() == net.weak.len(),
        net.homes.len() <= usize::MAX,
        0 <= at < net.homes.len(),
    ensures
        net.oppose(left, right).locks(at, slot) == (net.locks(at, slot) || (at == left || at
            == right) && (slot == net.seat(left).slot || slot == net.seat(right).slot)),
{
    let after = net.oppose(left, right);
    if after.locks(at, slot) {
        let other = choose|other: usize|
            other < after.homes.len() && #[trigger] after.rivals(at, other as int) && (after.seat(
                at,
            ).slot == slot || after.seat(other as int).slot == slot);
        if net.rivals(at, other as int) {
        }
    }
    if net.locks(at, slot) {
        let other = choose|other: usize|
            other < net.homes.len() && #[trigger] net.rivals(at, other as int) && (net.seat(at).slot
                == slot || net.seat(other as int).slot == slot);
        assert(after.rivals(at, other as int));
    }
    if at == left && (slot == net.seat(left).slot || slot == net.seat(right).slot) {
        assert(after.rivals(at, (right as usize) as int));
    }
    if at == right && (slot == net.seat(left).slot || slot == net.seat(right).slot) {
        assert(after.rivals(at, (left as usize) as int));
    }
}

/// Where two jobs share a cluster, both are in it, and nothing else changes for the net.
proof fn lemma_shared(net: Net, until: int, left: int, right: int)
    requires
        net.fits(until),
        0 <= left < right < until,
    ensures
        match net.share(left, right) {
            None => true,
            Some(after) => {
                &&& after.fits(until)
                &&& after.homes[left] is Some
                &&& after.homes[right] is Some
                &&& after.seat(left).cluster == after.seat(right).cluster
                &&& after.strong == net.strong
                &&& after.reach == net.reach
                &&& after.weak == net.weak
                &&& after.homes.len() == net.homes.len()
                &&& after.clusters.len() == net.clusters.len() || net.homes[right] is None
                    && after.clusters.len() == net.clusters.len() + 1
            },
        },
{
    let l = net.homes[left];
    let r = net.homes[right];
    if l is Some && r is None {
        if net.clusters[l->Some_0.cluster].len() < CLUSTER_NODES {
            lemma_join_fits(net, until, right, l->Some_0.cluster);
        }
    }
    if l is None && r is Some {
        if net.clusters[r->Some_0.cluster].len() < CLUSTER_NODES {
            lemma_join_fits(net, until, left, r->Some_0.cluster);
        }
    }
    if l is None && r is None {
        lemma_found_fits(net, until, left, right);
    }
}

impl Net {
    /// Whether there are no more clusters than jobs that have been bound.
    spec fn few_clusters(self, right: int) -> bool {
        self.clusters.len() <= right || self.homes[right] is Some && self.clusters.len() <= right
            + 1
    }
}

impl<R> Worker<R> {
    /// Binds a job to the earlier ones.
    fn resolve(&mut self, Ghost(net): Ghost<Net>, right: usize)
        requires
            old(self).shows(net, right as int),
            right < net.homes.len(),
            net.clusters.len() <= right,
            consistent(old(self).declarations()[right as int]),
            old(self).conflict@ == ConflictView::inner(
                old(self).declarations()[right as int],
                true,
            ).0,
        ensures
            final(self).shows(net.resolve(old(self).declarations(), right as int, 0), right + 1),
            final(self).declarations() == old(self).declarations(),
            final(self).payloads() == old(self).payloads(),
            final(self).roots == old(self).roots,
            final(self).schedule == old(self).schedule,
            final(self).reset == old(self).reset,
            net.resolve(old(self).declarations(), right as int, 0).clusters.len() <= right + 1,
    {
        let ghost declared = self.declarations();
        let ghost runs = self.payloads();
        let ghost count = net.homes.len() as int;
        let ghost r = right as int;
        let ghost before = *self;
        let words: usize = self.nodes.len() / 64 + 1;
        let mut transitive: Vec<u64> = Vec::new();
        transitive.resize(words, 0u64);
        self.nodes[right].strong.transitive = transitive;
        proof {
            assert(net.fits(r + 1));
            assert forall|at: int| 0 <= at < self.nodes@.len() implies shown(
                net,
                #[trigger] self.nodes@[at],
                at,
                r + 1,
            ) by {
                assert(shown(net, before.nodes@[at], at, r));
                if at == r {
                    assert forall|other: usize|
                        other < count implies #[trigger] net.reach[at].contains(other) == (other
                        < 64 * transitive@.len() && bit(transitive@, other as int)) by {
                        if other < 64 * transitive@.len() {
                            lemma_no_bits(transitive@, other as int);
                        }
                    }
                } else {
                    assert(self.nodes@[at] == before.nodes@[at]);
                }
            }
            assert(self.declarations() =~= declared);
            assert(self.payloads() =~= runs);
            assert(net.bound_down_to(r, r)) by {
                assert forall|other: int| 0 <= other < net.strong.len() implies !(
                #[trigger] net.strong[other]).contains(right) by {}
                assert forall|other: int| 0 <= other < net.weak.len() implies !(
                #[trigger] net.weak[other]).contains(right) by {}
            }
        }
        let mut left: usize = right;
        while left > 0
            invariant
                left <= right,
                r == right,
                right < count,
                count == net.homes.len(),
                count == declared.len(),
                self.shows(net.resolve(declared, r, left as int), r + 1),
                net.resolve(declared, r, left as int).homes.len() == count,
                net.resolve(declared, r, left as int).bound_down_to(r, left as int),
                net.resolve(declared, r, left as int).few_clusters(r),
                self.declarations() == declared,
                self.payloads() == runs,
                self.roots == before.roots,
                self.schedule == before.schedule,
                self.reset == before.reset,
                consistent(declared[r]),
                self.conflict@ == ConflictView::inner(declared[r], true).0,
            decreases left,
        {
            let ghost now = net.resolve(declared, r, left as int);
            let ghost start = *self;
            left -= 1;
            let ghost l = left as int;
            let ghost goal = now.bind(declared, l, r);
            assert(net.resolve(declared, r, l) == goal);
            proof {
                assert(shown(now, self.nodes@[r], r, r + 1));
                assert(now.reach[r].contains(left) == (left < 64
                    * self.nodes@[r].strong.transitive@.len() && bit(
                    self.nodes@[r].strong.transitive@,
                    left as int,
                )));
                assert(left < 64 * (count / 64 + 1));
            }
            if !bit_test(&self.nodes[right].strong.transitive, left) {
                let verdict = self.conflict.detect_outer(&self.nodes[left].dependencies, false);
                proof {
                    assert(declared[l] == views(self.nodes@[l].dependencies@));
                    outer_detection_tells_the_relation(declared[l], declared[r], true, false);
                    assert forall|at: int| 0 <= at < self.nodes@.len() implies shown(
                        now,
                        #[trigger] self.nodes@[at],
                        at,
                        r + 1,
                    ) by {
                        assert(shown(now, start.nodes@[at], at, r + 1));
                    }
                    assert(self.shows(now, r + 1));
                }
                match verdict {
                    // The jobs are not related.
                    Ok(Order::Strict) => {},
                    // The jobs must not overlap.
                    Ok(Order::Relax) => {
                        proof {
                            lemma_shared(now, r + 1, l, r);
                        }
                        let ghost unshared = *self;
                        let shared = self.share_cluster(
                            Ghost(now),
                            Ghost(r + 1),
                            left,
                            right,
                        );
                        let ghost housed = match now.share(l, r) {
                            Some(after) => after,
                            None => now,
                        };
                        proof {
                            lemma_same_jobs(*self, unshared);
                            assert(housed.bound_down_to(r, l + 1));
                        }
                        let ghost unbound = *self;
                        if shared {
                            self.oppose(Ghost(housed), left, right);
                        } else {
                            self.follow(Ghost(housed), left, right);
                        }
                        proof {
                            lemma_same_jobs(*self, unbound);
                        }
                    },
                    // The later job waits for the earlier one.
                    Err(_) => {
                        let ghost unbound = *self;
                        self.follow(Ghost(now), left, right);
                        proof {
                            lemma_same_jobs(*self, unbound);
                        }
                    },
                }
            }
        }
    }
}

/// A worker with the same jobs runs the same, and declares the same.
proof fn lemma_same_jobs<R>(left: Worker<R>, right: Worker<R>)
    requires
        left.same_jobs(right),
    ensures
        left.declarations() == right.declarations(),
        left.payloads() == right.payloads(),
{
    assert(left.declarations() =~= right.declarations());
    assert(left.payloads() =~= right.payloads());
}

/// Whether `error` is what jobs are rejected with: it tells all clashes of the first job whose
/// dependencies clash among themselves.
pub open spec fn worker_rejects(declared: Seq<Seq<DependencyView>>, error: ErrorView) -> bool {
    exists|job: int|
        {
            &&& 0 <= job < declared.len()
            &&& !consistent(#[trigger] declared[job])
            &&& forall|earlier: int| 0 <= earlier < job ==> consistent(#[trigger] declared[earlier])
            &&& ErrorView::gathered(ConflictView::inner(declared[job], true).1) == Some(error)
        }
}

/// A net of unbound jobs fits together.
proof fn lemma_unbound_fits(count: int)
    requires
        0 <= count <= usize::MAX,
    ensures
        Net::unbound(count).fits(0),
        forall|at: int, other: int| !#[trigger] Net::unbound(count).rivals(at, other),
        forall|at: int, slot: int| !#[trigger] Net::unbound(count).locks(at, slot),
{
    let net = Net::unbound(count);
    assert forall|at: int, other: int| !#[trigger] net.rivals(at, other) by {}
}

impl<R> Worker<R> {
    /// Whether jobs have been pushed, or taken away, since they were last bound.
    pub closed spec fn is_pending(self) -> bool {
        self.schedule
    }

    /// Whether the last run left jobs waiting or locked.
    pub closed spec fn is_stale(self) -> bool {
        self.reset
    }

    /// Whether the roots are the jobs that wait for none.
    pub closed spec fn rooted(self, net: Net) -> bool {
        &&& climbing(self.roots@)
        &&& forall|node: usize| #[trigger]
            self.roots@.contains(node) == (node < net.strong.len() && net.strong[node as int]
                == Set::<usize>::empty())
    }

    /// Whether each job waits for all that it waits for in the beginning, and no job is ready or
    /// locked.
    pub closed spec fn rests(self) -> bool {
        &&& forall|at: int|
            0 <= at < self.nodes@.len() ==> (#[trigger] self.nodes@[at]).strong.wait
                == self.nodes@[at].strong.previous@.len()
        &&& forall|cluster: int|
            0 <= cluster < self.clusters@.len() ==> (#[trigger] self.clusters@[cluster]).bits == 0
    }

    /// How the jobs are bound.
    pub open spec fn net(self) -> Net {
        net_of(self.declarations(), self.declarations().len() as int)
    }

    /// Whether the jobs, where they have not changed, are bound as they are related.
    pub closed spec fn sound(self) -> bool {
        !self.schedule ==> {
            &&& self.linked(self.net(), self.nodes@.len() as int)
            &&& self.rooted(self.net())
            &&& forall|job: int|
                0 <= job < self.nodes@.len() ==> consistent(
                    #[trigger] self.declarations()[job],
                )
            &&& !self.reset ==> self.rests()
        }
    }

    /// A worker without jobs.
    pub fn new() -> (worker: Self)
        ensures
            worker.sound(),
            worker.is_pending(),
            worker.payloads() == Seq::<R>::empty(),
            worker.declarations() == Seq::<Seq<DependencyView>>::empty(),
    {
        let worker = Worker {
            roots: Vec::new(),
            nodes: Vec::new(),
            clusters: Vec::new(),
            schedule: true,
            reset: false,
            conflict: Conflict::default(),
        };
        assert(worker.payloads() =~= Seq::empty());
        assert(worker.declarations() =~= Seq::empty());
        worker
    }

    /// Adds a job behind the others.
    pub fn push(&mut self, job: Job<R>)
        ensures
            final(self).sound(),
            final(self).is_pending(),
            final(self).payloads() == old(self).payloads().push(job.payload()),
            final(self).declarations() == old(self).declarations().push(job.declared()),
    {
        let ghost before = *self;
        self.nodes.push(Node::new(job));
        self.schedule = true;
        assert(self.payloads() =~= before.payloads().push(job.payload()));
        assert(self.declarations() =~= before.declarations().push(job.declared()));
    }

    /// Adds jobs behind the others.
    pub fn extend(&mut self, jobs: Vec<Job<R>>)
        requires
            old(self).sound(),
        ensures
            final(self).sound(),
            final(self).is_pending() == (old(self).is_pending() || jobs@.len() > 0),
            final(self).payloads() == old(self).payloads() + crate::plan::payloads(jobs@),
            final(self).declarations() == old(self).declarations() + crate::plan::declarations(
                jobs@,
            ),
            jobs@.len() == 0 ==> *final(self) == *old(self),
    {
        let ghost before = *self;
        for job in iterator: jobs
            invariant
                iterator.seq() == jobs@,
                self.sound(),
                self.is_pending() == (before.is_pending() || iterator.index() > 0),
                self.payloads() == before.payloads() + crate::plan::payloads(jobs@).take(
                    iterator.index(),
                ),
                self.declarations() == before.declarations() + crate::plan::declarations(
                    jobs@,
                ).take(iterator.index()),
                iterator.index() == 0 ==> *self == before,
        {
            let ghost index = iterator.index();
            self.push(job);
            assert(self.payloads() =~= before.payloads() + crate::plan::payloads(jobs@).take(
                index + 1,
            ));
            assert(self.declarations() =~= before.declarations() + crate::plan::declarations(
                jobs@,
            ).take(index + 1));
        }
        assert(self.payloads() =~= before.payloads() + crate::plan::payloads(jobs@));
        assert(self.declarations() =~= before.declarations() + crate::plan::declarations(jobs@));
    }

    /// Takes all jobs away.
    pub fn clear(&mut self)
        ensures
            final(self).sound(),
            final(self).is_pending(),
            final(self).payloads() == Seq::<R>::empty(),
            final(self).declarations() == Seq::<Seq<DependencyView>>::empty(),
    {
        self.nodes.clear();
        self.schedule = true;
        assert(self.payloads() =~= Seq::empty());
        assert(self.declarations() =~= Seq::empty());
    }

    /// Lets each job wait for all that it waits for in the beginning, and makes no job ready or
    /// locked.
    pub fn reset(&mut self)
        requires
            old(self).sound(),
        ensures
            final(self).sound(),
            final(self).rests(),
            final(self).is_pending() == old(self).is_pending(),
            !final(self).is_stale(),
            final(self).payloads() == old(self).payloads(),
            final(self).declarations() == old(self).declarations(),
            forall|net: Net, until: int| #[trigger]
                old(self).linked(net, until) ==> final(self).linked(net, until),
            forall|net: Net| #[trigger] old(self).rooted(net) ==> final(self).rooted(net),
    {
        let ghost before = *self;
        let count: usize = self.nodes.len();
        for at in 0..count
            invariant
                count == before.nodes@.len(),
                self.nodes@.len() == count,
                self.clusters == before.clusters,
                self.roots == before.roots,
                self.schedule == before.schedule,
                forall|other: int|
                    #![trigger self.nodes@[other]]
                    0 <= other < count ==> resembles(self.nodes@[other], before.nodes@[other]),
                forall|other: int|
                    0 <= other < at ==> (#[trigger] self.nodes@[other]).strong.wait
                        == self.nodes@[other].strong.previous@.len(),
        {
            let wait: usize = self.nodes[at].strong.previous.len();
            self.nodes[at].strong.wait = wait;
        }
        let groups: usize = self.clusters.len();
        for cluster in 0..groups
            invariant
                groups == before.clusters@.len(),
                self.clusters@.len() == groups,
                self.nodes@.len() == before.nodes@.len(),
                self.roots == before.roots,
                self.schedule == before.schedule,
                forall|other: int|
                    #![trigger self.nodes@[other]]
                    0 <= other < self.nodes@.len() ==> resembles(
                        self.nodes@[other],
                        before.nodes@[other],
                    ) && self.nodes@[other].strong.wait
                        == self.nodes@[other].strong.previous@.len(),
                forall|other: int|
                    0 <= other < groups ==> (#[trigger] self.clusters@[other]).nodes
                        == before.clusters@[other].nodes,
                forall|other: int|
                    0 <= other < cluster ==> (#[trigger] self.clusters@[other]).bits == 0,
        {
            self.clusters[cluster].bits = 0;
        }
        self.reset = false;
        proof {
            assert(self.payloads() =~= before.payloads());
            assert(self.declarations() =~= before.declarations());
            assert forall|net: Net, until: int| #[trigger]
                before.linked(net, until) implies self.linked(net, until) by {
                lemma_resembling_linked(before, *self, net, until);
            }
        }
    }
}

/// Whether two jobs differ in nothing but how many jobs they wait for now.
spec fn resembles<R>(left: Node<R>, right: Node<R>) -> bool {
    &&& left.run == right.run
    &&& left.dependencies == right.dependencies
    &&& left.weak == right.weak
    &&& left.strong.previous == right.strong.previous
    &&& left.strong.next == right.strong.next
    &&& left.strong.transitive == right.strong.transitive
}

proof fn lemma_resembling_linked<R>(before: Worker<R>, after: Worker<R>, net: Net, until: int)
    requires
        before.linked(net, until),
        after.nodes@.len() == before.nodes@.len(),
        after.clusters@.len() == before.clusters@.len(),
        forall|at: int|
            #![trigger after.nodes@[at]]
            0 <= at < after.nodes@.len() ==> resembles(after.nodes@[at], before.nodes@[at]),
        forall|cluster: int|
            0 <= cluster < after.clusters@.len() ==> (#[trigger] after.clusters@[cluster]).nodes
                == before.clusters@[cluster].nodes,
    ensures
        after.linked(net, until),
{
    assert forall|at: int| 0 <= at < after.nodes@.len() implies shown(
        net,
        #[trigger] after.nodes@[at],
        at,
        until,
    ) by {
        assert(shown(net, before.nodes@[at], at, until));
    }
    assert forall|cluster: int| 0 <= cluster < after.clusters@.len() implies (
    #[trigger] after.clusters@[cluster]).nodes@ == net.clusters[cluster] by {
        assert(before.clusters@[cluster].nodes@ == net.clusters[cluster]);
    }
}

impl<R> Worker<R> {
    /// Forgets how the jobs were bound.
    fn unbind(&mut self)
        ensures
            final(self).payloads() == old(self).payloads(),
            final(self).declarations() == old(self).declarations(),
            final(self).schedule == old(self).schedule,
            final(self).reset == old(self).reset,
            final(self).conflict == old(self).conflict,
            final(self).roots@ == Seq::<usize>::empty(),
            final(self).shows(Net::unbound(old(self).declarations().len() as int), 0),
    {
        let ghost before = *self;
        self.roots.clear();
        self.clusters.clear();
        let count: usize = self.nodes.len();
        for at in 0..count
            invariant
                count == before.nodes@.len(),
                self.nodes@.len() == count,
                self.clusters@.len() == 0,
                self.roots@ == Seq::<usize>::empty(),
                self.schedule == before.schedule,
                self.reset == before.reset,
                self.conflict == before.conflict,
                forall|other: int|
                    #![trigger self.nodes@[other]]
                    0 <= other < count ==> self.nodes@[other].run == before.nodes@[other].run
                        && self.nodes@[other].dependencies == before.nodes@[other].dependencies,
                forall|other: int| 0 <= other < at ==> (#[trigger] self.nodes@[other]).is_fresh(),
        {
            self.nodes[at].strong.wait = 0;
            self.nodes[at].strong.next.clear();
            self.nodes[at].strong.previous.clear();
            self.nodes[at].strong.transitive.clear();
            self.nodes[at].weak.cluster = usize::MAX;
            self.nodes[at].weak.lock = 0;
            self.nodes[at].weak.ready = 0;
            self.nodes[at].weak.rivals.clear();
        }
        proof {
            let net = Net::unbound(count as int);
            lemma_unbound_fits(count as int);
            assert(self.payloads() =~= before.payloads());
            assert(self.declarations() =~= before.declarations());
            assert forall|at: int| 0 <= at < self.nodes@.len() implies shown(
                net,
                #[trigger] self.nodes@[at],
                at,
                0,
            ) by {
                assert(self.nodes@[at].is_fresh());
                assert forall|slot: int| 0 <= slot < CLUSTER_NODES implies #[trigger] mask_bit(
                    self.nodes@[at].weak.lock,
                    slot,
                ) == net.locks(at, slot) by {
                    lemma_mask_join(0, 0, slot as u32);
                }
            }
            assert(self.nodes@.len() == before.declarations().len());
        }
    }

    /// Binds the jobs as they are related, unless the dependencies of one of them clash.
    pub fn schedule(&mut self) -> (result: Result<(), Error>)
        ensures
            final(self).payloads() == old(self).payloads(),
            final(self).declarations() == old(self).declarations(),
            match result {
                Ok(()) => {
                    &&& all_consistent(old(self).declarations())
                    &&& final(self).sound()
                    &&& !final(self).is_pending()
                    &&& !final(self).is_stale()
                    &&& final(self).rests()
                },
                Err(error) => {
                    &&& worker_rejects(old(self).declarations(), error@)
                    &&& final(self).is_pending() == old(self).is_pending()
                    &&& old(self).is_pending() ==> final(self).sound()
                },
            },
    {
        let ghost declared = self.declarations();
        let ghost runs = self.payloads();
        let ghost before = *self;
        let count: usize = self.nodes.len();
        self.unbind();
        for right in 0..count
            invariant
                count == declared.len(),
                *old(self) == before,
                declared == before.declarations(),
                runs == before.payloads(),
                self.nodes@.len() == count,
                self.declarations() == declared,
                self.payloads() == runs,
                self.schedule == before.schedule,
                self.reset == before.reset,
                self.roots@ == Seq::<usize>::empty(),
                self.shows(net_of(declared, right as int), right as int),
                net_of(declared, right as int).clusters.len() <= right,
                forall|at: int| 0 <= at < right ==> consistent(#[trigger] declared[at]),
        {
            let ghost r = right as int;
            let ghost net = net_of(declared, r);
            let ghost start = *self;
            assert(declared[r] == views(self.nodes@[r].dependencies@));
            let found = self.conflict.detect_inner(&self.nodes[right].dependencies, true);
            proof {
                inner_detection_finds_every_clash(declared[r], true);
                assert(self.nodes@ == start.nodes@);
                assert(self.declarations() =~= declared);
                assert(self.payloads() =~= runs);
                assert(self.shows(net, r));
            }
            match found {
                Ok(()) => {},
                Err(error) => {
                    assert(!consistent(declared[r]));
                    return Err(error);
                },
            }
            self.resolve(Ghost(net), right);
            assert(net_of(declared, r + 1) == net.resolve(declared, r, 0));
            proof {
                assert(self.declarations().len() == self.nodes@.len());
            }
        }
        self.find_roots(Ghost(net_of(declared, count as int)));
        self.schedule = false;
        self.reset = false;
        proof {
            let net = net_of(declared, count as int);
            assert(self.declarations() =~= declared);
            assert(self.payloads() =~= runs);
            assert(self.net() == net);
        }
        Ok(())
    }

    /// Lets each job wait for the jobs that it is to wait for, and finds those that wait for none.
    fn find_roots(&mut self, Ghost(net): Ghost<Net>)
        requires
            old(self).shows(net, old(self).declarations().len() as int),
            old(self).roots@ == Seq::<usize>::empty(),
        ensures
            final(self).shows(net, old(self).declarations().len() as int),
            final(self).rests(),
            final(self).rooted(net),
            final(self).declarations() == old(self).declarations(),
            final(self).payloads() == old(self).payloads(),
    {
        let ghost before = *self;
        let ghost end = self.declarations().len() as int;
        let count: usize = self.nodes.len();
        for at in 0..count
            invariant
                count == before.nodes@.len(),
                count == end,
                self.nodes@.len() == count,
                self.clusters == before.clusters,
                before.linked(net, end),
                net.strong.len() == count,
                forall|other: int|
                    #![trigger self.nodes@[other]]
                    0 <= other < count ==> resembles(self.nodes@[other], before.nodes@[other]),
                forall|other: int|
                    0 <= other < at ==> (#[trigger] self.nodes@[other]).strong.wait
                        == self.nodes@[other].strong.previous@.len(),
                climbing(self.roots@),
                forall|node: usize| #[trigger]
                    self.roots@.contains(node) == (node < at && net.strong[node as int]
                        == Set::<usize>::empty()),
        {
            let wait: usize = self.nodes[at].strong.previous.len();
            self.nodes[at].strong.wait = wait;
            proof {
                let previous = before.nodes@[at as int].strong.previous@;
                assert(shown(net, before.nodes@[at as int], at as int, end));
                assert(self.nodes@[at as int].strong.previous@ == previous);
                if wait == 0 {
                    assert forall|other: usize| !net.strong[at as int].contains(other) by {
                        assert(!previous.contains(other));
                    }
                    assert(net.strong[at as int] =~= Set::<usize>::empty());
                } else {
                    assert(previous.contains(previous[0]));
                    assert(net.strong[at as int].contains(previous[0]));
                }
            }
            if wait == 0 {
                let ghost roots = self.roots@;
                self.roots.push(at);
                proof {
                    lemma_append(roots, at, self.roots@);
                }
            }
        }
        proof {
            lemma_resembling_linked(before, *self, net, end);
            assert(self.declarations() =~= before.declarations());
            assert(self.payloads() =~= before.payloads());
        }
    }

    /// Binds the jobs, where they have changed, and makes them ready to be run.
    pub fn update(&mut self) -> (result: Result<(), Error>)
        requires
            old(self).sound(),
        ensures
            final(self).payloads() == old(self).payloads(),
            final(self).declarations() == old(self).declarations(),
            match result {
                Ok(()) => {
                    &&& all_consistent(old(self).declarations())
                    &&& final(self).sound()
                    &&& !final(self).is_pending()
                    &&& final(self).rests()
                },
                Err(error) => {
                    &&& old(self).is_pending()
                    &&& final(self).is_pending()
                    &&& final(self).sound()
                    &&& worker_rejects(old(self).declarations(), error@)
                },
            },
    {
        if self.schedule {
            match self.schedule() {
                Ok(()) => {},
                Err(error) => {
                    return Err(error);
                },
            }
        } else if self.reset {
            self.reset();
        }
        Ok(())
    }
}

impl<R> Worker<R> {
    /// Jobs that run the same and depend on the same are told apart by nothing else.
    pub(crate) proof fn lemma_same_lists(self, other: Self)
        requires
            self.nodes@.len() == other.nodes@.len(),
            forall|at: int|
                #![trigger self.nodes@[at]]
                0 <= at < self.nodes@.len() ==> self.nodes@[at].run == other.nodes@[at].run
                    && self.nodes@[at].dependencies == other.nodes@[at].dependencies,
        ensures
            self.payloads() == other.payloads(),
            self.declarations() == other.declarations(),
    {
        assert(self.payloads() =~= other.payloads());
        assert(self.declarations() =~= other.declarations());
    }

    pub(crate) proof fn lemma_still_linked(self, other: Self, net: Net, until: int)
        requires
            other.linked(net, until),
            self.nodes@.len() == other.nodes@.len(),
            self.clusters@.len() == other.clusters@.len(),
            forall|at: int|
                #![trigger self.nodes@[at]]
                0 <= at < self.nodes@.len() ==> {
                    &&& self.nodes@[at].run == other.nodes@[at].run
                    &&& self.nodes@[at].dependencies == other.nodes@[at].dependencies
                    &&& self.nodes@[at].weak == other.nodes@[at].weak
                    &&& self.nodes@[at].strong.next == other.nodes@[at].strong.next
                    &&& self.nodes@[at].strong.previous == other.nodes@[at].strong.previous
                    &&& self.nodes@[at].strong.transitive == other.nodes@[at].strong.transitive
                },
            forall|cluster: int|
                0 <= cluster < self.clusters@.len() ==> (#[trigger] self.clusters@[cluster]).nodes
                    == other.clusters@[cluster].nodes,
        ensures
            self.linked(net, until),
    {
        lemma_resembling_linked(other, self, net, until);
    }

    /// Whether the last run left jobs waiting or locked may be noted at any time, as long as it is
    /// true.
    pub(crate) proof fn lemma_still_sound(self, other: Self)
        requires
            other.sound(),
            self.nodes == other.nodes,
            self.clusters == other.clusters,
            self.roots == other.roots,
            self.schedule == other.schedule,
            self.reset || other.rests(),
        ensures
            self.sound(),
            other.rests() ==> self.rests(),
            self.is_pending() == other.is_pending(),
            self.is_stale() == self.reset,
    {
        if !self.schedule {
            assert(self.net() == other.net()) by {
                assert(self.declarations() =~= other.declarations());
            }
            assert(self.linked(self.net(), self.nodes@.len() as int));
        }
    }

    /// A worker stays sound while its jobs are run.
    pub(crate) proof fn lemma_running_sound(self, other: Self)
        requires
            other.sound(),
            other.is_stale(),
            self.reset == other.reset,
            self.nodes@.len() == other.nodes@.len(),
            self.roots == other.roots,
            self.schedule == other.schedule,
            self.declarations() == other.declarations(),
            forall|net: Net, until: int| #[trigger]
                other.linked(net, until) ==> self.linked(net, until),
        ensures
            self.sound(),
            self.is_pending() == other.is_pending(),
            self.is_stale(),
    {
        if !self.schedule {
            assert(other.linked(other.net(), other.nodes@.len() as int));
            assert forall|job: int| 0 <= job < self.nodes@.len() implies consistent(
                #[trigger] self.declarations()[job],
            ) by {
                assert(consistent(other.declarations()[job]));
            }
        }
    }

    /// What it means that the jobs have been bound.
    pub(crate) proof fn lemma_bound(self, net: Net)
        requires
            self.sound(),
            !self.is_pending(),
            net == self.net(),
        ensures
            net.fits(self.nodes@.len() as int),
            self.nodes@.len() == net.homes.len(),
            self.nodes@.len() == self.declarations().len(),
            self.clusters@.len() == net.clusters.len(),
            forall|cluster: int|
                0 <= cluster < self.clusters@.len() ==> (
                #[trigger] self.clusters@[cluster]).nodes@ == net.clusters[cluster],
            forall|at: int|
                0 <= at < self.nodes@.len() ==> shown(
                    net,
                    #[trigger] self.nodes@[at],
                    at,
                    self.nodes@.len() as int,
                ),
            climbing(self.roots@),
            forall|node: usize| #[trigger]
                self.roots@.contains(node) == (node < net.strong.len() && net.strong[node as int]
                    == Set::<usize>::empty()),
            forall|job: int|
                0 <= job < self.nodes@.len() ==> consistent(
                    #[trigger] self.declarations()[job],
                ),
    {
    }

    pub(crate) proof fn lemma_flags(self, other: Self)
        requires
            self.schedule == other.schedule,
            self.reset == other.reset,
        ensures
            self.is_pending() == other.is_pending(),
            self.is_stale() == other.is_stale(),
    {
    }

    pub(crate) proof fn lemma_rests(self)
        ensures
            self.rests() == ((forall|at: int|
                0 <= at < self.nodes@.len() ==> (#[trigger] self.nodes@[at]).strong.wait
                    == self.nodes@[at].strong.previous@.len()) && (forall|cluster: int|
                0 <= cluster < self.clusters@.len() ==> (#[trigger] self.clusters@[cluster]).bits
                    == 0)),
    {
    }

    pub(crate) proof fn lemma_counts(self)
        ensures
            self.declarations().len() == self.nodes@.len(),
            self.payloads().len() == self.nodes@.len(),
    {
    }

    pub(crate) proof fn lemma_declared(self, node: int)
        requires
            0 <= node < self.nodes@.len(),
        ensures
            self.declarations()[node] == views(self.nodes@[node].dependencies@),
    {
    }
}

} // verus!

//! Running the jobs of a worker: a job that waits for nothing is run at once where it can lock what
//! it locks, and is ready otherwise; a job that has finished lets the ready jobs try again, and lets
//! those that wait for it wait for one job less.

use crate::error::Error;
use crate::plan::all_consistent;
use crate::word::{decompose, halves_make_the_word, lock_of, mask_bit, ready_of};
use crate::work::{climbing, shown, slot_bit, worker_rejects, Cluster, Net, Node, Worker};
use vstd::prelude::*;

verus! {

/// What does not change of the jobs of a worker while they are run: the bits that each locks, its
/// own bit, its cluster, the members of each cluster, the jobs that wait for each, and those that
/// each waits for.
#[verifier::ext_equal]
pub struct WorkShape {
    pub locks: Seq<u32>,
    pub bits: Seq<u32>,
    pub clusters: Seq<usize>,
    pub members: Seq<Seq<usize>>,
    pub next: Seq<Seq<usize>>,
    pub previous: Seq<Seq<usize>>,
}

/// The word of a cluster: the ready jobs, and the locked bits.
#[verifier::ext_equal]
pub struct Word {
    pub ready: u32,
    pub lock: u32,
}

/// What changes while jobs are run: how many jobs each waits for, and the word of each cluster.
#[verifier::ext_equal]
pub struct WorkState {
    pub waits: Seq<usize>,
    pub words: Seq<Word>,
}

impl WorkShape {
    /// Whether the jobs, their successors and the members of their clusters fit one another.
    pub open spec fn fits(self) -> bool {
        let count = self.locks.len();
        &&& self.bits.len() == count
        &&& self.clusters.len() == count
        &&& self.next.len() == count
        &&& self.previous.len() == count
        &&& forall|node: int, index: int|
            0 <= node < count && 0 <= index < self.next[node].len() ==> (
            #[trigger] self.next[node][index]) < count
        &&& forall|cluster: int, slot: int|
            0 <= cluster < self.members.len() && 0 <= slot < self.members[cluster].len() ==> (
            #[trigger] self.members[cluster][slot]) < count
        &&& forall|cluster: int|
            0 <= cluster < self.members.len() ==> (#[trigger] self.members[cluster]).len() <= 32
    }

    /// Whether a job is in a cluster.
    pub open spec fn is_housed(self, node: usize) -> bool {
        self.clusters[node as int] < self.members.len()
    }

    /// What becomes of the word of a cluster when those of its first `until` jobs that are among
    /// `tried` try to run, and which of them do.
    pub open spec fn sweep(
        self,
        word: Word,
        cluster: int,
        tried: u32,
        until: int,
    ) -> (Word, Seq<usize>)
        decreases until,
    {
        if until <= 0 {
            (word, Seq::empty())
        } else {
            let (rest, spawned) = self.sweep(word, cluster, tried, until - 1);
            let node = self.members[cluster][until - 1];
            let bit = self.bits[node as int];
            let lock = self.locks[node as int];
            if mask_bit(tried, until - 1) && rest.ready & bit == bit && rest.lock & lock == 0 {
                (Word { ready: rest.ready & !bit, lock: rest.lock | lock }, spawned.push(node))
            } else {
                (rest, spawned)
            }
        }
    }

    /// What becomes of the jobs when one that waits for nothing is to be run, and which are run.
    pub open spec fn begin(self, state: WorkState, node: usize) -> (WorkState, Seq<usize>) {
        if !self.is_housed(node) {
            (state, seq![node])
        } else {
            let cluster = self.clusters[node as int] as int;
            let word = state.words[cluster];
            let bit = self.bits[node as int];
            let lock = self.locks[node as int];
            if word.lock & lock != 0 {
                (
                    WorkState {
                        words: state.words.update(
                            cluster,
                            Word { ready: word.ready | bit, lock: word.lock },
                        ),
                        ..state
                    },
                    Seq::empty(),
                )
            } else {
                let (after, spawned) = self.sweep(
                    Word { ready: word.ready, lock: word.lock | lock },
                    cluster,
                    word.ready & (!lock & !bit),
                    self.members[cluster].len() as int,
                );
                (
                    WorkState { words: state.words.update(cluster, after), ..state },
                    seq![node] + spawned,
                )
            }
        }
    }

    /// What becomes of the jobs when a job unlocks what it locked, and which are run.
    pub open spec fn unlock(self, state: WorkState, node: usize) -> (WorkState, Seq<usize>) {
        if !self.is_housed(node) {
            (state, Seq::empty())
        } else {
            let cluster = self.clusters[node as int] as int;
            let word = state.words[cluster];
            let bit = self.bits[node as int];
            let lock = self.locks[node as int];
            let (after, spawned) = self.sweep(
                Word { ready: word.ready, lock: word.lock & !lock },
                cluster,
                word.ready & !bit,
                self.members[cluster].len() as int,
            );
            (WorkState { words: state.words.update(cluster, after), ..state }, spawned)
        }
    }

    /// What becomes of the jobs when the first `until` of a list wait for one job less, and which are
    /// run.
    pub open spec fn notify(
        self,
        state: WorkState,
        list: Seq<usize>,
        until: int,
    ) -> (WorkState, Seq<usize>)
        decreases until,
    {
        if until <= 0 {
            (state, Seq::empty())
        } else {
            let (before, spawned) = self.notify(state, list, until - 1);
            let node = list[until - 1];
            let wait = before.waits[node as int];
            let counted = WorkState {
                waits: before.waits.update(node as int, wait.wrapping_sub(1)),
                ..before
            };
            if wait == 1 {
                let (after, more) = self.begin(counted, node);
                (after, spawned + more)
            } else {
                (counted, spawned)
            }
        }
    }

    /// What becomes of the jobs when a job has finished, and which are run.
    pub open spec fn finish(self, state: WorkState, node: usize) -> (WorkState, Seq<usize>) {
        let (unlocked, first) = self.unlock(state, node);
        let list = self.next[node as int];
        let (notified, second) = self.notify(unlocked, list, list.len() as int);
        (
            WorkState {
                waits: notified.waits.update(
                    node as int,
                    self.previous[node as int].len() as usize,
                ),
                ..notified
            },
            first + second,
        )
    }
}

impl<R> Worker<R> {
    /// What does not change of the jobs while they are run.
    pub closed spec fn shape(self) -> WorkShape {
        WorkShape {
            locks: self.nodes@.map_values(|node: Node<R>| node.weak.lock),
            bits: self.nodes@.map_values(|node: Node<R>| node.weak.ready),
            clusters: self.nodes@.map_values(|node: Node<R>| node.weak.cluster),
            members: self.clusters@.map_values(|cluster: Cluster| cluster.nodes@),
            next: self.nodes@.map_values(|node: Node<R>| node.strong.next@),
            previous: self.nodes@.map_values(|node: Node<R>| node.strong.previous@),
        }
    }

    /// What changes while the jobs are run.
    pub closed spec fn state(self) -> WorkState {
        WorkState {
            waits: self.nodes@.map_values(|node: Node<R>| node.strong.wait),
            words: self.clusters@.map_values(
                |cluster: Cluster| Word {
                    ready: ready_of(cluster.bits),
                    lock: lock_of(cluster.bits),
                },
            ),
        }
    }

    /// Whether another worker differs in nothing but what changes while the jobs are run.
    pub closed spec fn same_but_state(self, other: Self) -> bool {
        &&& self.shape() == other.shape()
        &&& self.payloads() == other.payloads()
        &&& self.declarations() == other.declarations()
        &&& self.roots == other.roots
        &&& self.schedule == other.schedule
        &&& self.reset == other.reset
        &&& forall|net: Net, until: int| #[trigger]
            other.linked(net, until) ==> self.linked(net, until)
    }

    /// Lets those ready jobs of a cluster that are among `tried` try to run. Returns those that do.
    fn progress_weak(&mut self, cluster: usize, tried: u32) -> (spawned: Vec<usize>)
        requires
            old(self).shape().fits(),
            cluster < old(self).shape().members.len(),
        ensures
            final(self).same_but_state(*old(self)),
            ({
                let shape = old(self).shape();
                let (word, list) = shape.sweep(
                    old(self).state().words[cluster as int],
                    cluster as int,
                    tried,
                    shape.members[cluster as int].len() as int,
                );
                spawned@ == list && final(self).state() == (WorkState {
                    words: old(self).state().words.update(cluster as int, word),
                    ..old(self).state()
                })
            }),
    {
        let ghost before = *self;
        let ghost shape = self.shape();
        let ghost c = cluster as int;
        let ghost start = self.state().words[c];
        let count: usize = self.clusters[cluster].nodes.len();
        let mut spawned: Vec<usize> = Vec::new();
        proof {
            assert(shape.members[c] == self.clusters@[c].nodes@);
        }
        for slot in 0..count
            invariant
                shape == before.shape(),
                shape.fits(),
                c == cluster,
                cluster < before.clusters@.len(),
                start == before.state().words[c],
                count == shape.members[c].len(),
                count <= 32,
                shape.members[c] == before.clusters@[c].nodes@,
                self.nodes == before.nodes,
                self.roots == before.roots,
                self.schedule == before.schedule,
                self.reset == before.reset,
                self.clusters@.len() == before.clusters@.len(),
                forall|other: int|
                    0 <= other < before.clusters@.len() && other != c
                        ==> #[trigger] self.clusters@[other] == before.clusters@[other],
                self.clusters@[c].nodes == before.clusters@[c].nodes,
                (
                    Word {
                        ready: ready_of(self.clusters@[c].bits),
                        lock: lock_of(self.clusters@[c].bits),
                    },
                    spawned@,
                ) == shape.sweep(start, c, tried, slot as int),
        {
            if tried & (1u32 << (slot as u32)) != 0 {
                assert(mask_bit(tried, slot as int));
                let node = self.clusters[cluster].nodes[slot];
                proof {
                    assert(shape.members[c][slot as int] == node);
                    assert(shape.bits[node as int] == self.nodes@[node as int].weak.ready);
                    assert(shape.locks[node as int] == self.nodes@[node as int].weak.lock);
                }
                let mut word = self.clusters[cluster].bits;
                let reserved = self.nodes[node].weak.late_reserve(&mut word);
                self.clusters[cluster].bits = word;
                if reserved.is_ok() {
                    spawned.push(node);
                }
            } else {
                assert(!mask_bit(tried, slot as int));
            }
        }
        proof {
            let goal = shape.sweep(start, c, tried, count as int).0;
            assert(self.state().words =~= before.state().words.update(c, goal));
            assert(self.state().waits =~= before.state().waits);
            lemma_same_frame(before, *self);
        }
        spawned
    }

    /// Runs a job that waits for nothing, where it can lock what it locks; otherwise the job is
    /// ready. Returns the jobs to be run.
    pub fn progress(&mut self, node: usize) -> (spawned: Vec<usize>)
        requires
            old(self).shape().fits(),
            node < old(self).shape().locks.len(),
        ensures
            final(self).same_but_state(*old(self)),
            (final(self).state(), spawned@) == old(self).shape().begin(old(self).state(), node),
            old(self).sound() && old(self).is_stale() ==> final(self).sound()
                && final(self).is_stale() && final(self).is_pending() == old(self).is_pending(),
    {
        let ghost before = *self;
        let ghost shape = self.shape();
        let cluster = self.nodes[node].weak.cluster;
        proof {
            assert(shape.clusters[node as int] == cluster);
            assert(shape.bits[node as int] == self.nodes@[node as int].weak.ready);
            assert(shape.locks[node as int] == self.nodes@[node as int].weak.lock);
        }
        let mut spawned: Vec<usize> = Vec::new();
        if cluster < self.clusters.len() {
            let ghost c = cluster as int;
            let mut word = self.clusters[cluster].bits;
            let reserved = self.nodes[node].weak.early_reserve(&mut word);
            self.clusters[cluster].bits = word;
            proof {
                lemma_same_frame(before, *self);
                assert(self.state().waits =~= before.state().waits);
                assert(self.state().words =~= before.state().words.update(
                    c,
                    (Word { ready: ready_of(word), lock: lock_of(word) }),
                ));
            }
            if let Some(bits) = reserved {
                spawned.push(node);
                let (ready, _) = decompose(bits);
                // The jobs that conflict with this one are left out.
                let mask = !self.nodes[node].weak.lock & !self.nodes[node].weak.ready;
                let ghost middle = *self;
                let mut others = self.progress_weak(cluster, ready & mask);
                let ghost more = others@;
                spawned.append(&mut others);
                assert(spawned@ =~= seq![node] + more);
                assert(self.state().words =~= before.state().words.update(
                    c,
                    self.state().words[c],
                ));
            } else {
                assert(spawned@ =~= Seq::empty());
            }
        } else {
            spawned.push(node);
            assert(spawned@ =~= seq![node]);
        }
        proof {
            self.lemma_progressed(before);
        }
        spawned
    }

    /// Lets the jobs that wait for a job wait for one job less. Returns the jobs to be run.
    fn progress_strong(&mut self, node: usize) -> (spawned: Vec<usize>)
        requires
            old(self).shape().fits(),
            node < old(self).shape().locks.len(),
        ensures
            final(self).same_but_state(*old(self)),
            ({
                let shape = old(self).shape();
                let list = shape.next[node as int];
                let (state, spawns) = shape.notify(old(self).state(), list, list.len() as int);
                spawned@ == spawns && final(self).state() == (WorkState {
                    waits: state.waits.update(
                        node as int,
                        shape.previous[node as int].len() as usize,
                    ),
                    ..state
                })
            }),
    {
        let ghost before = *self;
        let ghost shape = self.shape();
        let ghost list = shape.next[node as int];
        let count: usize = self.nodes[node].strong.next.len();
        assert(list == self.nodes@[node as int].strong.next@);
        let mut spawned: Vec<usize> = Vec::new();
        for index in 0..count
            invariant
                shape == before.shape(),
                shape.fits(),
                node < shape.locks.len(),
                list == shape.next[node as int],
                count == list.len(),
                self.same_but_state(before),
                (self.state(), spawned@) == shape.notify(before.state(), list, index as int),
        {
            let ghost held = *self;
            assert(self.shape().next[node as int] == self.nodes@[node as int].strong.next@);
            let other = self.nodes[node].strong.next[index];
            assert(shape.next[node as int][index as int] == other);
            let wait = self.nodes[other].strong.wait;
            assert(self.state().waits[other as int] == wait);
            self.nodes[other].strong.wait = wait.wrapping_sub(1);
            proof {
                lemma_same_frame(held, *self);
                assert(self.state().words =~= held.state().words);
                assert(self.state().waits =~= held.state().waits.update(
                    other as int,
                    wait.wrapping_sub(1),
                ));
            }
            if wait == 1 {
                let ghost so_far = spawned@;
                let mut more = self.progress(other);
                let ghost added = more@;
                spawned.append(&mut more);
                assert(spawned@ =~= so_far + added);
            }
        }
        let ghost held = *self;
        assert(self.shape().previous[node as int] == self.nodes@[node as int].strong.previous@);
        let wait: usize = self.nodes[node].strong.previous.len();
        self.nodes[node].strong.wait = wait;
        proof {
            lemma_same_frame(held, *self);
            assert(self.state().words =~= held.state().words);
            assert(self.state().waits =~= held.state().waits.update(node as int, wait));
        }
        spawned
    }

    /// Takes note that a job has finished. Returns the jobs to be run.
    pub fn progress_local(&mut self, node: usize) -> (spawned: Vec<usize>)
        requires
            old(self).shape().fits(),
            node < old(self).shape().locks.len(),
        ensures
            final(self).same_but_state(*old(self)),
            (final(self).state(), spawned@) == old(self).shape().finish(old(self).state(), node),
            old(self).sound() && old(self).is_stale() ==> final(self).sound()
                && final(self).is_stale() && final(self).is_pending() == old(self).is_pending(),
    {
        let ghost before = *self;
        let ghost shape = self.shape();
        let cluster = self.nodes[node].weak.cluster;
        proof {
            assert(shape.clusters[node as int] == cluster);
            assert(shape.bits[node as int] == self.nodes@[node as int].weak.ready);
            assert(shape.locks[node as int] == self.nodes@[node as int].weak.lock);
        }
        let mut spawned: Vec<usize> = Vec::new();
        if cluster < self.clusters.len() {
            let ghost c = cluster as int;
            let mut word = self.clusters[cluster].bits;
            let bits = self.nodes[node].weak.release(&mut word);
            self.clusters[cluster].bits = word;
            proof {
                lemma_same_frame(before, *self);
                assert(self.state().waits =~= before.state().waits);
                assert(self.state().words =~= before.state().words.update(
                    c,
                    (Word { ready: ready_of(word), lock: lock_of(word) }),
                ));
            }
            let (ready, _) = decompose(bits);
            // All other ready jobs of the cluster try again.
            let mask = !self.nodes[node].weak.ready;
            spawned = self.progress_weak(cluster, ready & mask);
            assert(self.state().words =~= before.state().words.update(c, self.state().words[c]));
        } else {
            assert(spawned@ =~= Seq::empty());
        }
        let ghost first = spawned@;
        let ghost middle = *self;
        assert(self.state() == shape.unlock(before.state(), node).0);
        let mut others = self.progress_strong(node);
        let ghost second = others@;
        spawned.append(&mut others);
        assert(spawned@ =~= first + second);
        proof {
            self.lemma_progressed(before);
        }
        spawned
    }

    /// A worker stays sound while its jobs are run.
    proof fn lemma_progressed(self, before: Self)
        requires
            self.same_but_state(before),
        ensures
            before.sound() && before.is_stale() ==> self.sound() && self.is_stale()
                && self.is_pending() == before.is_pending(),
    {
        assert(self.shape().locks.len() == before.shape().locks.len());
        if before.sound() && before.is_stale() {
            self.lemma_running_sound(before);
        }
    }

    /// Whether a worker is at rest shows in its state: each job waits for all that it waits for in the
    /// beginning, and no job is ready or locked. So a run begins in order, whether the run before it
    /// failed or not.
    pub proof fn resting_shows_in_the_state(self)
        requires
            self.sound(),
            !self.is_pending(),
        ensures
            self.state().waits.len() == self.shape().locks.len(),
            self.state().words.len() == self.net().clusters.len(),
            self.rests() == ((forall|node: int|
                0 <= node < self.state().waits.len() ==> #[trigger] self.state().waits[node]
                    == self.shape().previous[node].len()) && (forall|cluster: int|
                0 <= cluster < self.state().words.len() ==> (
                #[trigger] self.state().words[cluster]).ready == 0
                    && self.state().words[cluster].lock == 0)),
    {
        self.lemma_bound(self.net());
        self.lemma_rests();
        let waits = self.state().waits;
        let words = self.state().words;
        assert((0u64 >> 32) as u32 == 0u32 && 0u64 as u32 == 0u32) by (bit_vector);
        if self.rests() {
            assert forall|node: int| 0 <= node < waits.len() implies #[trigger] waits[node]
                == self.shape().previous[node].len() by {
                assert(self.nodes@[node].strong.wait == self.nodes@[node].strong.previous@.len());
            }
            assert forall|cluster: int| 0 <= cluster < words.len() implies (
            #[trigger] words[cluster]).ready == 0 && words[cluster].lock == 0 by {
                assert(self.clusters@[cluster].bits == 0);
            }
        }
        if (forall|node: int|
            0 <= node < waits.len() ==> #[trigger] waits[node]
                == self.shape().previous[node].len()) && (forall|cluster: int|
            0 <= cluster < words.len() ==> (#[trigger] words[cluster]).ready == 0
                && words[cluster].lock == 0) {
            assert forall|at: int| 0 <= at < self.nodes@.len() implies (
            #[trigger] self.nodes@[at]).strong.wait == self.nodes@[at].strong.previous@.len() by {
                assert(waits[at] == self.shape().previous[at].len());
            }
            assert forall|cluster: int| 0 <= cluster < self.clusters@.len() implies (
            #[trigger] self.clusters@[cluster]).bits == 0 by {
                assert(words[cluster].ready == 0 && words[cluster].lock == 0);
                halves_make_the_word(self.clusters@[cluster].bits, 0);
            }
        }
    }

    /// A worker that differs from another in nothing but what changes while the jobs are run has the
    /// same jobs, bound in the same way.
    pub proof fn running_changes_nothing_else(self, other: Self)
        requires
            self.same_but_state(other),
        ensures
            self.shape() == other.shape(),
            self.payloads() == other.payloads(),
            self.declarations() == other.declarations(),
            self.root_nodes() == other.root_nodes(),
            self.is_pending() == other.is_pending(),
            self.is_stale() == other.is_stale(),
    {
        self.lemma_flags(other);
    }

    /// The jobs that have been bound fit one another.
    pub proof fn bound_jobs_fit(self)
        requires
            self.sound(),
            !self.is_pending(),
        ensures
            self.shape().fits(),
            self.shape().locks.len() == self.declarations().len(),
            shape_shows(self.net(), self.shape()),
    {
        let net = self.net();
        let shape = self.shape();
        let count = self.nodes@.len() as int;
        self.lemma_bound(net);
        assert(self.clusters.len() == self.clusters@.len());
        assert forall|node: int| 0 <= node < count implies #[trigger] shape_shows_node(
            net,
            shape,
            node,
        ) by {
            assert(shown(net, self.nodes@[node], node, count));
        }
        assert forall|node: int, index: int|
            0 <= node < count && 0 <= index < shape.next[node].len() implies (
        #[trigger] shape.next[node][index]) < count by {
            assert(shape_shows_node(net, shape, node));
            assert(shape.next[node].contains(shape.next[node][index]));
        }
        assert(shape.members =~= net.clusters) by {
            assert forall|cluster: int| 0 <= cluster < net.clusters.len() implies shape.members[cluster]
                == net.clusters[cluster] by {
                assert(self.clusters@[cluster].nodes@ == net.clusters[cluster]);
            }
        }
        assert forall|cluster: int, slot: int|
            0 <= cluster < shape.members.len() && 0 <= slot
                < shape.members[cluster].len() implies (#[trigger] shape.members[cluster][slot])
            < count by {
            assert(net.clusters[cluster][slot] < count);
        }
    }
}

/// Whether what a shape says of a job is what a net says.
pub open spec fn shape_shows_node(net: Net, shape: WorkShape, node: int) -> bool {
    let count = net.homes.len() as int;
    &&& match net.homes[node] {
        None => shape.clusters[node] == usize::MAX && shape.bits[node] == 0,
        Some(seat) => shape.clusters[node] == seat.cluster && shape.bits[node] == slot_bit(
            seat.slot,
        ),
    }
    &&& climbing(shape.previous[node])
    &&& forall|other: usize| #[trigger]
        shape.previous[node].contains(other) == net.strong[node].contains(other)
    &&& climbing(shape.next[node])
    &&& forall|other: usize| #[trigger]
        shape.next[node].contains(other) == (other < count && net.strong[other as int].contains(
            node as usize,
        ))
    &&& forall|slot: int|
        0 <= slot < 32 ==> #[trigger] mask_bit(shape.locks[node], slot) == net.locks(node, slot)
}

/// Whether what a shape says of the jobs is what a net says.
pub open spec fn shape_shows(net: Net, shape: WorkShape) -> bool {
    &&& net.fits(net.homes.len() as int)
    &&& net.clusters.len() <= usize::MAX
    &&& shape.fits()
    &&& shape.locks.len() == net.homes.len()
    &&& shape.members == net.clusters
    &&& forall|node: int|
        0 <= node < net.homes.len() ==> #[trigger] shape_shows_node(net, shape, node)
}

/// Changing words and what jobs wait for changes nothing else.
proof fn lemma_same_frame<R>(before: Worker<R>, after: Worker<R>)
    requires
        after.nodes@.len() == before.nodes@.len(),
        after.clusters@.len() == before.clusters@.len(),
        forall|at: int|
            #![trigger after.nodes@[at]]
            0 <= at < after.nodes@.len() ==> {
                &&& after.nodes@[at].run == before.nodes@[at].run
                &&& after.nodes@[at].dependencies == before.nodes@[at].dependencies
                &&& after.nodes@[at].weak == before.nodes@[at].weak
                &&& after.nodes@[at].strong.next == before.nodes@[at].strong.next
                &&& after.nodes@[at].strong.previous == before.nodes@[at].strong.previous
                &&& after.nodes@[at].strong.transitive == before.nodes@[at].strong.transitive
            },
        forall|cluster: int|
            0 <= cluster < after.clusters@.len() ==> (#[trigger] after.clusters@[cluster]).nodes
                == before.clusters@[cluster].nodes,
        after.roots == before.roots,
        after.schedule == before.schedule,
        after.reset == before.reset,
    ensures
        after.same_but_state(before),
{
    let left = after.shape();
    let right = before.shape();
    assert(left.locks =~= right.locks);
    assert(left.bits =~= right.bits);
    assert(left.clusters =~= right.clusters);
    assert(left.members =~= right.members);
    assert(left.next =~= right.next);
    assert(left.previous =~= right.previous);
    after.lemma_same_lists(before);
    assert forall|net: Net, until: int| #[trigger] before.linked(net, until) implies after.linked(
        net,
        until,
    ) by {
        after.lemma_still_linked(before, net, until);
    }
}

impl<R> Worker<R> {
    /// The jobs that wait for none.
    pub closed spec fn root_nodes(self) -> Seq<usize> {
        self.roots@
    }

    pub(crate) proof fn lemma_root_nodes(self)
        ensures
            self.root_nodes() == self.roots@,
    {
    }

    /// Whether each job waits for all that it waits for in the beginning, and no job is ready or
    /// locked.
    pub fn is_at_rest(&self) -> (rests: bool)
        ensures
            rests == self.rests(),
    {
        proof {
            self.lemma_rests();
        }
        for at in 0..self.nodes.len()
            invariant
                forall|other: int|
                    0 <= other < at ==> (#[trigger] self.nodes@[other]).strong.wait
                        == self.nodes@[other].strong.previous@.len(),
                self.rests() ==> forall|other: int|
                    0 <= other < self.nodes@.len() ==> (#[trigger] self.nodes@[other]).strong.wait
                        == self.nodes@[other].strong.previous@.len(),
        {
            if self.nodes[at].strong.wait != self.nodes[at].strong.previous.len() {
                assert(self.nodes@[at as int].strong.wait
                    != self.nodes@[at as int].strong.previous@.len());
                return false;
            }
        }
        for cluster in 0..self.clusters.len()
            invariant
                forall|other: int|
                    0 <= other < cluster ==> (#[trigger] self.clusters@[other]).bits == 0,
                self.rests() ==> forall|other: int|
                    0 <= other < self.clusters@.len() ==> (#[trigger] self.clusters@[other]).bits
                        == 0,
        {
            if self.clusters[cluster].bits != 0 {
                assert(self.clusters@[cluster as int].bits != 0);
                return false;
            }
        }
        true
    }

    /// Prepares a run, and returns the jobs to begin with. Until the run ends, jobs may be left
    /// waiting or locked.
    pub fn begin_run(&mut self) -> (result: Result<Vec<usize>, Error>)
        requires
            old(self).sound(),
        ensures
            final(self).payloads() == old(self).payloads(),
            final(self).declarations() == old(self).declarations(),
            match result {
                Ok(roots) => {
                    &&& all_consistent(old(self).declarations())
                    &&& final(self).sound()
                    &&& !final(self).is_pending()
                    &&& final(self).is_stale()
                    &&& final(self).rests()
                    &&& roots@ == final(self).root_nodes()
                },
                Err(error) => {
                    &&& old(self).is_pending()
                    &&& final(self).is_pending()
                    &&& final(self).sound()
                    &&& worker_rejects(old(self).declarations(), error@)
                },
            },
    {
        match self.update() {
            Ok(()) => {},
            Err(error) => {
                return Err(error);
            },
        }
        let ghost before = *self;
        self.reset = true;
        proof {
            self.lemma_same_lists(before);
            self.lemma_still_sound(before);
        }
        let mut roots: Vec<usize> = Vec::new();
        for index in 0..self.roots.len()
            invariant
                roots@ == self.roots@.take(index as int),
        {
            roots.push(self.roots[index]);
            assert(roots@ =~= self.roots@.take(index + 1));
        }
        assert(roots@ =~= self.roots@);
        Ok(roots)
    }

    /// Ends a run. Where a job failed, or jobs have been left waiting or locked, the next run begins
    /// with a reset.
    pub fn end_run(&mut self, failed: bool)
        requires
            old(self).sound(),
        ensures
            final(self).sound(),
            final(self).payloads() == old(self).payloads(),
            final(self).declarations() == old(self).declarations(),
            final(self).is_pending() == old(self).is_pending(),
            final(self).is_stale() == (failed || !old(self).rests()),
    {
        let stale = failed || !self.is_at_rest();
        let ghost before = *self;
        self.reset = stale;
        proof {
            self.lemma_same_lists(before);
            self.lemma_still_sound(before);
        }
    }
}

} // verus!

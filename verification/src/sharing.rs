//! Which jobs of a worker wait for one another, and which share a cluster.

use crate::bonds::jobs_are_bound_as_related;
use crate::depend::DependencyView;
use crate::graph::{indices, lemma_all_below, Cluster, Graph, Node};
use crate::normalize::{relation_of, Relation};
use crate::progress::shape_shows_node;
use crate::word::mask_bit;
use crate::work::{net_of, Net, Seat, Worker};
use vstd::prelude::*;

verus! {

impl Net {
    /// Whether two jobs are in different clusters, or one of them is in one that holds 32 jobs.
    pub open spec fn cannot_share(self, left: int, right: int) -> bool {
        ||| self.homes[left] is Some && self.homes[right] is Some && self.seat(left).cluster
            != self.seat(right).cluster
        ||| self.homes[left] is Some && self.clusters[self.seat(left).cluster].len() == 32
        ||| self.homes[right] is Some && self.clusters[self.seat(right).cluster].len() == 32
    }

    /// What holds of the bonds once the jobs before `right` have been bound, and the job at `right`
    /// to those from `until` on.
    pub open spec fn orderly(
        self,
        declared: Seq<Seq<DependencyView>>,
        right: int,
        until: int,
    ) -> bool {
        let count = declared.len() as int;
        &&& self.even(count)
        &&& forall|node: int|
            0 <= node < count && (#[trigger] self.homes[node]) is Some ==> 0 <= self.seat(
                node,
            ).cluster < self.clusters.len()
        &&& forall|cluster: int|
            0 <= cluster < self.clusters.len() ==> (#[trigger] self.clusters[cluster]).len() <= 32
        &&& forall|r: int, l: usize| #[trigger]
            self.reach[r].contains(l) && 0 <= r < count ==> l < r <= right
        &&& forall|r: int, l: usize| #[trigger]
            self.strong[r].contains(l) && 0 <= r < count ==> {
                &&& l < r <= right
                &&& r == right ==> until <= l
                &&& self.reach[r].contains(l)
                &&& relation_of(declared[l as int], declared[r]) != Relation::Free
                &&& relation_of(declared[l as int], declared[r]) == Relation::Relaxed
                    ==> self.cannot_share(l as int, r)
            }
        &&& forall|r: int, m: usize, l: usize|
            0 <= r < count && #[trigger] self.strong[r].contains(m)
                && #[trigger] self.reach[m as int].contains(l) ==> self.reach[r].contains(l)
                && !self.strong[r].contains(l)
        &&& forall|r: int, l: usize| #[trigger]
            self.weak[r].contains(l) && 0 <= r < count ==> {
                &&& l < r <= right
                &&& r == right ==> until <= l
                &&& !self.reach[r].contains(l)
                &&& relation_of(declared[l as int], declared[r]) == Relation::Relaxed
                &&& self.homes[l as int] is Some
                &&& self.homes[r] is Some
                &&& self.seat(l as int).cluster == self.seat(r).cluster
            }
    }
}

proof fn lemma_bind_is_orderly(
    declared: Seq<Seq<DependencyView>>,
    net: Net,
    left: int,
    right: int,
)
    requires
        net.orderly(declared, right, left + 1),
        0 <= left < right < declared.len() <= usize::MAX,
    ensures
        net.bind(declared, left, right).orderly(declared, right, left),
{
    let count = declared.len() as int;
    let after = net.bind(declared, left, right);
    if after != net {
        let relation = relation_of(declared[left], declared[right]);
        let waits = relation == Relation::Strict || net.share(left, right) is None;
        if waits {
            assert(after == net.follow(left, right));
            assert(relation == Relation::Relaxed ==> net.cannot_share(left, right));
            assert forall|r: int, m: usize, l: usize|
                0 <= r < count && #[trigger] after.strong[r].contains(m)
                    && #[trigger] after.reach[m as int].contains(l) implies after.reach[r].contains(
                l,
            ) && !after.strong[r].contains(l) by {
                if r == right {
                    if m == left {
                        assert(net.reach[left].contains(l));
                        assert(l < left);
                    } else {
                        assert(net.strong[right].contains(m));
                        assert(net.reach[m as int].contains(l));
                        assert(l != left);
                    }
                } else {
                    assert(net.strong[r].contains(m));
                    assert(m < right);
                    assert(net.reach[m as int].contains(l));
                }
            }
        } else {
            let shared = net.share(left, right)->Some_0;
            assert(after == shared.oppose(left, right));
            assert(shared.strong == net.strong && shared.reach == net.reach && shared.weak
                == net.weak);
            assert forall|a: int, b: int|
                0 <= a < count && 0 <= b < count && #[trigger] net.cannot_share(
                    a,
                    b,
                ) implies shared.cannot_share(a, b) by {}
        }
    }
}

proof fn lemma_resolve_is_orderly(
    declared: Seq<Seq<DependencyView>>,
    net: Net,
    right: int,
    until: int,
)
    requires
        net.orderly(declared, right, right),
        0 <= until <= right < declared.len() <= usize::MAX,
    ensures
        net.resolve(declared, right, until).orderly(declared, right, until),
    decreases right - until,
{
    if until < right {
        lemma_resolve_is_orderly(declared, net, right, until + 1);
        lemma_bind_is_orderly(declared, net.resolve(declared, right, until + 1), until, right);
    }
}

proof fn lemma_net_is_orderly(declared: Seq<Seq<DependencyView>>, until: int)
    requires
        0 <= until <= declared.len() <= usize::MAX,
    ensures
        net_of(declared, until).orderly(declared, until, until),
    decreases until,
{
    if until > 0 {
        lemma_net_is_orderly(declared, until - 1);
        lemma_resolve_is_orderly(declared, net_of(declared, until - 1), until - 1, 0);
        let net = net_of(declared, until);
        assert(net.orderly(declared, until - 1, 0));
    }
}

/// What holds of the bonds while the first jobs, of which no two are free or strictly related, are
/// bound: they share one cluster, and none waits.
spec fn huddled(net: Net, declared: Seq<Seq<DependencyView>>, until: int) -> bool {
    &&& net.even(declared.len() as int)
    &&& forall|node: int|
        #![trigger net.homes[node]]
        0 <= node < declared.len() ==> (net.homes[node] is Some) == (node < until && until >= 2)
    &&& forall|node: int|
        0 <= node < declared.len() && (#[trigger] net.homes[node]) is Some ==> net.seat(
            node,
        ).cluster == 0
    &&& if until < 2 {
        net.clusters.len() == 0
    } else {
        net.clusters.len() == 1 && net.clusters[0].len() == until && forall|slot: int|
            0 <= slot < until ==> (#[trigger] net.clusters[0][slot]) == slot
    }
    &&& forall|node: int|
        #![trigger net.strong[node]]
        0 <= node < declared.len() ==> net.strong[node] == Set::<usize>::empty()
    &&& forall|node: int|
        #![trigger net.reach[node]]
        0 <= node < declared.len() ==> net.reach[node] == Set::<usize>::empty()
}

/// Whether all jobs are related to one another in a relaxed way.
#[verifier::opaque]
pub open spec fn all_relaxed(declared: Seq<Seq<DependencyView>>) -> bool {
    forall|left: int, right: int|
        0 <= left < right < declared.len() ==> relation_of(
            #[trigger] declared[left],
            #[trigger] declared[right],
        ) == Relation::Relaxed
}

proof fn lemma_all_relaxed(declared: Seq<Seq<DependencyView>>, left: int, right: int)
    requires
        all_relaxed(declared),
        0 <= left < right < declared.len(),
    ensures
        relation_of(declared[left], declared[right]) == Relation::Relaxed,
{
    reveal(all_relaxed);
}

proof fn lemma_resolve_huddles(
    declared: Seq<Seq<DependencyView>>,
    net: Net,
    right: int,
    until: int,
)
    requires
        huddled(net, declared, right),
        0 <= until < right < declared.len() <= 32,
        all_relaxed(declared),
    ensures
        huddled(net.resolve(declared, right, until), declared, right + 1),
    decreases right - until,
{
    lemma_all_relaxed(declared, until, right);
    let before = net.resolve(declared, right, until + 1);
    let after = before.bind(declared, until, right);
    assert(after == net.resolve(declared, right, until));
    if until + 1 < right {
        lemma_resolve_huddles(declared, net, right, until + 1);
        assert(before.homes[until] is Some && before.homes[right] is Some);
        assert(after == before.oppose(until, right));
    } else {
        assert(before == net);
        if right >= 2 {
            assert(net.homes[until] is Some && net.homes[right] is None);
            assert(after == net.join(right, 0).oppose(until, right));
        } else {
            assert(net.homes[until] is None && net.homes[right] is None);
            assert(after == net.found(until, right).oppose(until, right));
        }
    }
}

proof fn lemma_net_huddles(declared: Seq<Seq<DependencyView>>, until: int)
    requires
        0 <= until <= declared.len() <= 32,
        all_relaxed(declared),
    ensures
        huddled(net_of(declared, until), declared, until),
    decreases until,
{
    if until > 0 {
        lemma_net_huddles(declared, until - 1);
        let before = net_of(declared, until - 1);
        if until > 1 {
            lemma_resolve_huddles(declared, before, until - 1, 0);
        } else {
            assert(before.resolve(declared, 0, 0) == before);
        }
    }
}

impl<R> Worker<R> {
    /// Whether two jobs are members of one cluster.
    pub open spec fn share_one(self, left: usize, right: usize) -> bool {
        exists|cluster: usize|
            cluster < self.cluster_count() && (#[trigger] self.members_of(cluster)).contains(left)
                && self.members_of(cluster).contains(right)
    }

    /// Whether a job is a member of a cluster that holds 32 jobs.
    pub open spec fn crowded(self, node: usize) -> bool {
        exists|cluster: usize|
            cluster < self.cluster_count() && (#[trigger] self.members_of(cluster)).contains(node)
                && self.members_of(cluster).len() == 32
    }

    /// Whether two jobs are members of two clusters.
    pub open spec fn parted(self, left: usize, right: usize) -> bool {
        exists|first: usize, second: usize|
            first < self.cluster_count() && second < self.cluster_count() && first != second && (
            #[trigger] self.members_of(first)).contains(left) && (#[trigger] self.members_of(
                second,
            )).contains(right)
    }

    /// Whether each job of a list is waited for by the next one.
    pub open spec fn queue(self, list: Seq<usize>) -> bool {
        &&& forall|at: int|
            0 <= at < list.len() ==> (#[trigger] list[at]) < self.declarations().len()
        &&& forall|at: int|
            0 <= at < list.len() - 1 ==> self.previous_of(list[at + 1]).contains(
                #[trigger] list[at],
            )
    }

    /// Whether a job waits for another one, itself or through jobs that it waits for.
    pub open spec fn queues_behind(self, right: usize, left: usize) -> bool {
        exists|list: Seq<usize>| #[trigger]
            self.queue(list) && list.len() >= 2 && list[0] == left && list.last() == right
    }

    proof fn lemma_seat(self, node: usize)
        requires
            self.sound(),
            !self.is_pending(),
            node < self.declarations().len(),
        ensures
            self.declarations().len() <= usize::MAX,
            self.net().homes[node as int] is Some ==> ({
                let cluster = self.net().seat(node as int).cluster;
                &&& 0 <= cluster < self.cluster_count()
                &&& cluster <= usize::MAX
                &&& self.members_of(cluster as usize) == self.net().clusters[cluster]
                &&& self.members_of(cluster as usize).contains(node)
            }),
            forall|cluster: usize|
                cluster < self.cluster_count() && (#[trigger] self.members_of(cluster)).contains(
                    node,
                ) ==> self.net().homes[node as int] is Some && self.net().seat(
                    node as int,
                ).cluster == cluster,
    {
        let net = self.net();
        self.lemma_bound(net);
        self.graphs_show_the_net(node);
        if let Some(seat) = net.homes[node as int] {
            assert(net.clusters[seat.cluster][seat.slot] == node);
            assert(self.clusters.len() == self.clusters@.len());
            assert(self.members_of(seat.cluster as usize) == net.clusters[seat.cluster]);
        }
        assert forall|cluster: usize|
            cluster < self.cluster_count() && (#[trigger] self.members_of(cluster)).contains(
                node,
            ) implies net.homes[node as int] is Some && net.seat(node as int).cluster
            == cluster by {
            let at = choose|at: int|
                0 <= at < self.members_of(cluster).len() && self.members_of(cluster)[at] == node;
            assert(net.clusters[cluster as int][at] == node);
        }
    }

    /// A job waits for an earlier one only where they are related, and for one that it is related to
    /// in a relaxed way only where the two cannot share a cluster: they are members of different
    /// ones, or that of one of them holds 32 jobs.
    pub proof fn jobs_wait_only_where_they_must(self, left: usize, right: usize)
        requires
            self.sound(),
            !self.is_pending(),
            right < self.declarations().len(),
            self.previous_of(right).contains(left),
        ensures
            left < right,
            ({
                let relation = relation_of(
                    self.declarations()[left as int],
                    self.declarations()[right as int],
                );
                ||| relation == Relation::Strict
                ||| relation == Relation::Relaxed && (self.parted(left, right) || self.crowded(left)
                    || self.crowded(right))
            }),
            !self.share_one(left, right) || relation_of(
                self.declarations()[left as int],
                self.declarations()[right as int],
            ) == Relation::Strict || self.crowded(left),
    {
        let net = self.net();
        self.graphs_show_the_net(right);
        self.lemma_seat(right);
        lemma_net_is_orderly(self.declarations(), self.declarations().len() as int);
        assert(net.strong[right as int].contains(left));
        self.lemma_seat(left);
        if relation_of(self.declarations()[left as int], self.declarations()[right as int])
            == Relation::Relaxed {
            assert(net.cannot_share(left as int, right as int));
            if net.homes[left as int] is Some && net.homes[right as int] is Some {
                let first = net.seat(left as int).cluster as usize;
                let second = net.seat(right as int).cluster as usize;
                assert(self.members_of(first).contains(left));
                assert(self.members_of(second).contains(right));
            }
        }
    }

    /// Two jobs that must not overlap are related in a relaxed way and share a cluster, and neither
    /// waits for the other.
    pub proof fn rivals_share_a_cluster(self, left: usize, right: usize)
        requires
            self.sound(),
            !self.is_pending(),
            right < self.declarations().len(),
            self.rivals_of(right).contains(left),
        ensures
            left < self.declarations().len(),
            left != right,
            relation_of(
                self.declarations()[if left < right { left } else { right } as int],
                self.declarations()[if left < right { right } else { left } as int],
            ) == Relation::Relaxed,
            self.share_one(left, right),
            self.rivals_of(left).contains(right),
            !self.queues_behind(right, left),
            !self.queues_behind(left, right),
    {
        let net = self.net();
        self.graphs_show_the_net(right);
        self.lemma_seat(right);
        lemma_net_is_orderly(self.declarations(), self.declarations().len() as int);
        assert(net.rivals(right as int, left as int));
        self.graphs_show_the_net(left);
        self.lemma_seat(left);
        assert(net.rivals(left as int, right as int));
        assert(self.rivals_of(left).contains(right));
        if net.weak[right as int].contains(left) {
        } else {
            assert(net.weak[left as int].contains(right));
        }
        let cluster = net.seat(right as int).cluster as usize;
        assert(self.members_of(cluster).contains(right));
        assert(self.members_of(cluster).contains(left));
        if self.queues_behind(right, left) {
            self.lemma_queues_are_reached(right, left);
        }
        if self.queues_behind(left, right) {
            self.lemma_queues_are_reached(left, right);
        }
    }

    proof fn lemma_queue_is_reached(self, list: Seq<usize>)
        requires
            self.sound(),
            !self.is_pending(),
            self.queue(list),
            list.len() >= 2,
        ensures
            list[0] < list.last(),
            self.net().reach[list.last() as int].contains(list[0]),
        decreases list.len(),
    {
        let net = self.net();
        let end = list.len() - 1;
        let last = list.last();
        let before = list[end - 1];
        assert(list[end] == last);
        assert(last < self.declarations().len());
        assert(self.previous_of(list[end - 1 + 1]).contains(before));
        self.graphs_show_the_net(last);
        self.lemma_seat(last);
        lemma_net_is_orderly(self.declarations(), self.declarations().len() as int);
        assert(net.strong[last as int].contains(before));
        if list.len() > 2 {
            let shorter = list.drop_last();
            assert forall|at: int| 0 <= at < shorter.len() implies (#[trigger] shorter[at])
                < self.declarations().len() by {
                assert(shorter[at] == list[at]);
            }
            assert forall|at: int| 0 <= at < shorter.len() - 1 implies self.previous_of(
                shorter[at + 1],
            ).contains(#[trigger] shorter[at]) by {
                assert(shorter[at] == list[at]);
                assert(shorter[at + 1] == list[at + 1]);
            }
            self.lemma_queue_is_reached(shorter);
            assert(shorter.last() == before);
            assert(net.reach[before as int].contains(list[0]));
        }
    }

    proof fn lemma_queues_are_reached(self, right: usize, left: usize)
        requires
            self.sound(),
            !self.is_pending(),
            self.queues_behind(right, left),
        ensures
            left < right < self.declarations().len(),
            self.net().reach[right as int].contains(left),
    {
        let list = choose|list: Seq<usize>| #[trigger]
            self.queue(list) && list.len() >= 2 && list[0] == left && list.last() == right;
        self.lemma_queue_is_reached(list);
        assert(list[list.len() - 1] < self.declarations().len());
    }

    proof fn lemma_next_to_last(self, right: usize, left: usize) -> (middle: usize)
        requires
            self.sound(),
            !self.is_pending(),
            right < self.declarations().len(),
            self.net().reach[right as int].contains(left),
        ensures
            middle < right,
            self.previous_of(right).contains(middle),
            middle == left || self.net().reach[middle as int].contains(left),
    {
        let net = self.net();
        self.lemma_seat(right);
        jobs_are_bound_as_related(self.declarations(), self.declarations().len() as int, 0, 0);
        self.graphs_show_the_net(right);
        choose|middle: usize| #[trigger]
            net.strong[right as int].contains(middle) && middle < right && (middle == left
                || net.reach[middle as int].contains(left))
    }

    proof fn lemma_longer_queue(self, shorter: Seq<usize>, right: usize)
        requires
            self.queue(shorter),
            shorter.len() >= 1,
            right < self.declarations().len(),
            self.previous_of(right).contains(shorter.last()),
        ensures
            self.queue(shorter.push(right)),
    {
        let list = shorter.push(right);
        assert forall|at: int| 0 <= at < list.len() - 1 implies self.previous_of(
            list[at + 1],
        ).contains(#[trigger] list[at]) by {
            assert(list[at] == shorter[at]);
            if at + 1 < shorter.len() {
                assert(list[at + 1] == shorter[at + 1]);
            }
        }
        assert forall|at: int| 0 <= at < list.len() implies (#[trigger] list[at])
            < self.declarations().len() by {
            if at < shorter.len() {
                assert(list[at] == shorter[at]);
            }
        }
    }

    proof fn lemma_reached_queues(self, right: usize, left: usize)
        requires
            self.sound(),
            !self.is_pending(),
            right < self.declarations().len(),
            self.net().reach[right as int].contains(left),
        ensures
            self.queues_behind(right, left),
        decreases right,
    {
        let middle = self.lemma_next_to_last(right, left);
        let shorter = if middle == left {
            seq![left]
        } else {
            self.lemma_reached_queues(middle, left);
            choose|list: Seq<usize>| #[trigger]
                self.queue(list) && list.len() >= 2 && list[0] == left && list.last() == middle
        };
        assert(self.queue(shorter));
        self.lemma_longer_queue(shorter, right);
        assert(shorter.push(right)[0] == left);
    }

    /// Of two jobs that are strictly related, the later one waits for the earlier one, if only
    /// through others. Of two that are related in a relaxed way it does so, or they must not overlap.
    pub proof fn related_jobs_are_kept_apart(self, left: usize, right: usize)
        requires
            self.sound(),
            !self.is_pending(),
            left < right < self.declarations().len(),
        ensures
            match relation_of(
                self.declarations()[left as int],
                self.declarations()[right as int],
            ) {
                Relation::Free => !self.previous_of(right).contains(left) && !self.rivals_of(
                    right,
                ).contains(left),
                Relation::Relaxed => self.queues_behind(right, left) != self.rivals_of(
                    right,
                ).contains(left),
                Relation::Strict => self.queues_behind(right, left) && !self.rivals_of(
                    right,
                ).contains(left),
            },
    {
        let net = self.net();
        let count = self.declarations().len() as int;
        self.lemma_seat(right);
        self.graphs_show_the_net(right);
        jobs_are_bound_as_related(self.declarations(), count, left as int, right as int);
        assert(net.bound_as_related(self.declarations(), left as int, right as int));
        if net.reach[right as int].contains(left) {
            self.lemma_reached_queues(right, left);
        }
        if self.rivals_of(right).contains(left) {
            self.rivals_share_a_cluster(left, right);
        }
        if self.previous_of(right).contains(left) {
            self.jobs_wait_only_where_they_must(left, right);
        }
        if net.weak[right as int].contains(left) {
            assert(net.rivals(right as int, left as int));
        }
    }

    /// A job does not wait itself for one that another job it waits for comes after.
    pub proof fn waiting_is_not_repeated(self, left: usize, middle: usize, right: usize)
        requires
            self.sound(),
            !self.is_pending(),
            right < self.declarations().len(),
            self.previous_of(right).contains(middle),
            self.queues_behind(middle, left),
        ensures
            !self.previous_of(right).contains(left),
    {
        self.lemma_seat(right);
        lemma_net_is_orderly(self.declarations(), self.declarations().len() as int);
        self.graphs_show_the_net(right);
        self.lemma_queues_are_reached(middle, left);
        assert(self.net().strong[right as int].contains(middle));
    }

    /// Of two jobs to 32 that are all related to one another in a relaxed way, all are members of
    /// one cluster, in the order in which they were pushed. None waits for another, and none may
    /// overlap with another.
    pub proof fn few_relaxed_jobs_share_one_cluster(self, node: usize, other: usize)
        requires
            self.sound(),
            !self.is_pending(),
            2 <= self.declarations().len() <= 32,
            all_relaxed(self.declarations()),
            node < self.declarations().len(),
            other < self.declarations().len(),
        ensures
            self.cluster_count() == 1,
            self.members_of(0).len() == self.declarations().len(),
            self.members_of(0)[node as int] == node,
            self.previous_of(node).len() == 0,
            self.next_of(node).len() == 0,
            self.root_nodes().contains(node),
            self.rivals_of(node).contains(other) == (node != other),
    {
        let net = self.net();
        let count = self.declarations().len() as int;
        lemma_net_huddles(self.declarations(), count);
        self.lemma_seat(node);
        self.graphs_show_the_net(node);
        assert(net.homes[node as int] is Some);
        assert(net.strong[node as int] == Set::<usize>::empty());
        if self.previous_of(node).len() > 0 {
            assert(self.previous_of(node).contains(self.previous_of(node)[0]));
        }
        if self.next_of(node).len() > 0 {
            let next = self.next_of(node)[0];
            assert(self.next_of(node).contains(next));
            assert(net.strong[next as int].contains(node));
        }
        if node == other {
            if self.rivals_of(node).contains(other) {
                self.rivals_share_a_cluster(other, node);
            }
        } else {
            let left = if node < other { node } else { other };
            let right = if node < other { other } else { node };
            lemma_all_relaxed(self.declarations(), left as int, right as int);
            jobs_are_bound_as_related(self.declarations(), count, left as int, right as int);
            assert(net.bound_as_related(self.declarations(), left as int, right as int));
            assert(net.reach[right as int] == Set::<usize>::empty());
            assert(net.weak[right as int].contains(left));
            assert(net.rivals(node as int, other as int));
        }
    }

    /// A job is one that waits for another exactly where that one is waited for by it, and a root
    /// where it waits for none. All the jobs that the views list are jobs of the worker.
    pub proof fn views_list_every_bond(self, left: usize, right: usize)
        requires
            self.sound(),
            !self.is_pending(),
            left < self.declarations().len(),
            right < self.declarations().len(),
        ensures
            self.next_of(left).contains(right) == self.previous_of(right).contains(left),
            self.root_nodes().contains(right) == (self.previous_of(right).len() == 0),
            forall|at: int|
                0 <= at < self.previous_of(right).len() ==> (#[trigger] self.previous_of(right)[at])
                    < right,
            forall|at: int|
                0 <= at < self.next_of(left).len() ==> left < (#[trigger] self.next_of(left)[at])
                    < self.declarations().len(),
    {
        let net = self.net();
        self.lemma_seat(right);
        lemma_net_is_orderly(self.declarations(), self.declarations().len() as int);
        self.graphs_show_the_net(left);
        self.graphs_show_the_net(right);
        if net.strong[right as int] == Set::<usize>::empty() {
            if self.previous_of(right).len() > 0 {
                assert(self.previous_of(right).contains(self.previous_of(right)[0]));
            }
        } else if self.previous_of(right).len() == 0 {
            assert forall|other: usize| !net.strong[right as int].contains(other) by {
                assert(!self.previous_of(right).contains(other));
            }
            assert(net.strong[right as int] =~= Set::<usize>::empty());
        }
        assert forall|at: int| 0 <= at < self.previous_of(right).len() implies (
        #[trigger] self.previous_of(right)[at]) < right by {
            assert(self.previous_of(right).contains(self.previous_of(right)[at]));
            assert(net.strong[right as int].contains(self.previous_of(right)[at]));
        }
        assert forall|at: int| 0 <= at < self.next_of(left).len() implies left < (
        #[trigger] self.next_of(left)[at]) < self.declarations().len() by {
            let next = self.next_of(left)[at];
            assert(self.next_of(left).contains(next));
            assert(net.strong[next as int].contains(left));
        }
    }
}

/// What the view of a job shows are the jobs that it waits for, those that wait for it, and those that
/// it must not overlap with, none left out.
pub proof fn nodes_show_all_their_bonds<'b, R>(
    node: Node<'b, R>,
    previous: Vec<Node<'b, R>>,
    next: Vec<Node<'b, R>>,
    rivals: Vec<Node<'b, R>>,
)
    requires
        node.of().sound(),
        !node.of().is_pending(),
        node.place() < node.of().declarations().len(),
        call_ensures(Node::<'b, R>::previous, (&node,), previous),
        call_ensures(Node::<'b, R>::next, (&node,), next),
        call_ensures(Node::<'b, R>::rivals, (&node,), rivals),
    ensures
        indices(previous@) == node.of().previous_of(node.place()),
        indices(next@) == node.of().next_of(node.place()),
        indices(rivals@) == node.of().rivals_of(node.place()),
{
    let worker = node.of();
    let at = node.place();
    let count = worker.declarations().len() as int;
    worker.views_list_every_bond(at, at);
    worker.graphs_show_the_net(at);
    let before = worker.previous_of(at);
    let after = worker.next_of(at);
    let beside = worker.rivals_of(at);
    assert forall|index: int| 0 <= index < beside.len() implies (#[trigger] beside[index])
        < count by {
        assert(beside.contains(beside[index]));
    }
    lemma_all_below(before, count, before.len() as int);
    lemma_all_below(after, count, after.len() as int);
    lemma_all_below(beside, count, beside.len() as int);
    assert(before.take(before.len() as int) =~= before);
    assert(after.take(after.len() as int) =~= after);
    assert(beside.take(beside.len() as int) =~= beside);
}

/// What the view of a worker shows as roots are the jobs that wait for none, and what the view of a
/// cluster shows are its members, none left out.
pub proof fn views_show_all_roots_and_members<'b, R>(
    graph: Graph<'b, R>,
    cluster: Cluster<'b, R>,
    roots: Vec<Node<'b, R>>,
    members: Vec<Node<'b, R>>,
)
    requires
        graph.of().sound(),
        !graph.of().is_pending(),
        cluster.of() == graph.of(),
        cluster.place() < graph.of().cluster_count(),
        call_ensures(Graph::<'b, R>::roots, (&graph,), roots),
        call_ensures(Cluster::<'b, R>::nodes, (&cluster,), members),
    ensures
        indices(roots@) == graph.of().root_nodes(),
        indices(members@) == graph.of().members_of(cluster.place()),
{
    let worker = graph.of();
    let count = worker.declarations().len() as int;
    worker.clusters_have_two_jobs_or_more(cluster.place());
    let list = worker.root_nodes();
    worker.lemma_bound(worker.net());
    worker.lemma_root_nodes();
    assert forall|index: int| 0 <= index < list.len() implies (#[trigger] list[index]) < count by {
        assert(list.contains(list[index]));
    }
    lemma_all_below(list, count, list.len() as int);
    assert(list.take(list.len() as int) =~= list);
}

impl<R> Worker<R> {
    /// While it runs, a job locks its own bit and those of the jobs that it must not overlap with, and
    /// no other bit of its cluster. One that may overlap with all others locks nothing.
    pub proof fn jobs_lock_their_rivals_only(self, cluster: usize, node: usize, slot: int)
        requires
            self.sound(),
            !self.is_pending(),
            cluster < self.cluster_count(),
            node < self.declarations().len(),
            self.members_of(cluster).contains(node),
            0 <= slot < self.members_of(cluster).len(),
        ensures
            ({
                let member = self.members_of(cluster)[slot];
                mask_bit(self.shape().locks[node as int], slot) == (self.rivals_of(node).len() > 0
                    && (member == node || self.rivals_of(node).contains(member)))
            }),
    {
        let net = self.net();
        let count = self.declarations().len() as int;
        let member = self.members_of(cluster)[slot];
        self.bound_jobs_fit();
        self.lemma_bound(net);
        self.lemma_seat(node);
        self.graphs_show_the_net(node);
        assert(shape_shows_node(net, self.shape(), node as int));
        assert(self.members_of(cluster) == net.clusters[cluster as int]);
        assert(net.clusters[cluster as int][slot] == member);
        assert(net.homes[member as int] == Some(Seat { cluster: cluster as int, slot }));
        assert(mask_bit(self.shape().locks[node as int], slot) == net.locks(node as int, slot));
        if net.locks(node as int, slot) {
            let other = choose|other: usize|
                other < net.homes.len() && #[trigger] net.rivals(node as int, other as int) && (
                net.seat(node as int).slot == slot || net.seat(other as int).slot == slot);
            assert(self.rivals_of(node).contains(other));
            self.rivals_share_a_cluster(other, node);
            self.lemma_seat(other);
            assert(net.seat(other as int).cluster == cluster);
            if net.seat(other as int).slot == slot {
                assert(net.clusters[cluster as int][slot] == other);
            } else {
                assert(net.clusters[cluster as int][slot] == node);
            }
        }
        if self.rivals_of(node).len() > 0 {
            let rival = self.rivals_of(node)[0];
            assert(self.rivals_of(node).contains(rival));
            assert(net.rivals(node as int, rival as int));
            if member == node {
                assert(net.seat(node as int).slot == slot);
            } else if self.rivals_of(node).contains(member) {
                assert(net.rivals(node as int, member as int));
                assert(net.seat(member as int).slot == slot);
            }
        }
    }
}

} // verus!

//! Views of how the jobs of a worker are bound.

use crate::depend::{views, Dependency};
use crate::work::{climbing, Seat, Worker, CLUSTER_NODES};
use vstd::prelude::*;

verus! {

/// How the jobs of a worker are bound.
pub struct Graph<'b, R> {
    worker: &'b Worker<R>,
}

/// One job of a worker.
pub struct Node<'b, R> {
    index: usize,
    worker: &'b Worker<R>,
}

/// One cluster of a worker.
pub struct Cluster<'b, R> {
    index: usize,
    worker: &'b Worker<R>,
}

/// Those of the first `until` numbers of a list that are smaller than `count`.
pub open spec fn below(list: Seq<usize>, count: int, until: int) -> Seq<usize>
    decreases until,
{
    if until <= 0 {
        Seq::empty()
    } else {
        let rest = below(list, count, until - 1);
        if list[until - 1] < count {
            rest.push(list[until - 1])
        } else {
            rest
        }
    }
}

/// The numbers of some jobs.
pub open spec fn indices<R>(nodes: Seq<Node<R>>) -> Seq<usize> {
    nodes.map_values(|node: Node<R>| node.place())
}

pub(crate) proof fn lemma_all_below(list: Seq<usize>, count: int, until: int)
    requires
        0 <= until <= list.len(),
        forall|index: int| 0 <= index < list.len() ==> (#[trigger] list[index]) < count,
    ensures
        below(list, count, until) == list.take(until),
    decreases until,
{
    if until == 0 {
        assert(list.take(0) =~= Seq::empty());
    } else {
        lemma_all_below(list, count, until - 1);
        assert(list.take(until) =~= list.take(until - 1).push(list[until - 1]));
    }
}

impl<R> Worker<R> {
    /// The jobs that a job waits for.
    pub closed spec fn previous_of(self, node: usize) -> Seq<usize> {
        self.nodes@[node as int].strong.previous@
    }

    /// The jobs that wait for a job.
    pub closed spec fn next_of(self, node: usize) -> Seq<usize> {
        self.nodes@[node as int].strong.next@
    }

    /// The jobs that a job must not overlap with.
    pub closed spec fn rivals_of(self, node: usize) -> Seq<usize> {
        self.nodes@[node as int].weak.rivals@
    }

    /// How many clusters there are.
    pub closed spec fn cluster_count(self) -> nat {
        self.clusters@.len()
    }

    /// The jobs of a cluster.
    pub closed spec fn members_of(self, cluster: usize) -> Seq<usize> {
        self.clusters@[cluster as int].nodes@
    }

    /// The jobs of a worker, by their numbers.
    fn pick(&self, list: &[usize]) -> (nodes: Vec<Node<'_, R>>)
        ensures
            indices(nodes@) == below(
                list@,
                self.declarations().len() as int,
                list@.len() as int,
            ),
            forall|index: int|
                0 <= index < nodes@.len() ==> (#[trigger] nodes@[index]).of() == *self
                    && nodes@[index].place() < self.declarations().len(),
    {
        let mut nodes: Vec<Node<R>> = Vec::new();
        assert(indices(nodes@) =~= Seq::empty());
        assert(self.declarations().len() == self.nodes@.len()) by {
            self.lemma_counts();
        }
        for index in 0..list.len()
            invariant
                self.declarations().len() == self.nodes@.len(),
                indices(nodes@) == below(
                    list@,
                    self.declarations().len() as int,
                    index as int,
                ),
                forall|at: int|
                    0 <= at < nodes@.len() ==> (#[trigger] nodes@[at]).of() == *self
                        && nodes@[at].place() < self.declarations().len(),
        {
            let found = list[index];
            if found < self.nodes.len() {
                let ghost before = nodes@;
                nodes.push(Node { index: found, worker: self });
                assert(indices(nodes@) =~= indices(before).push(found));
            }
        }
        nodes
    }

    /// How the jobs are bound.
    pub fn graph(&self) -> (graph: Graph<'_, R>)
        ensures
            graph.of() == *self,
    {
        Graph::new(self)
    }

    /// What the views of a worker show is how its jobs are bound.
    pub proof fn graphs_show_the_net(self, node: usize)
        requires
            self.sound(),
            !self.is_pending(),
            node < self.declarations().len(),
        ensures
            climbing(self.previous_of(node)),
            forall|other: usize| #[trigger]
                self.previous_of(node).contains(other) == self.net().strong[node as int].contains(
                    other,
                ),
            climbing(self.next_of(node)),
            forall|other: usize| #[trigger]
                self.next_of(node).contains(other) == (other < self.declarations().len()
                    && self.net().strong[other as int].contains(node)),
            climbing(self.rivals_of(node)),
            forall|other: usize| #[trigger]
                self.rivals_of(node).contains(other) == (other < self.declarations().len()
                    && self.net().rivals(node as int, other as int)),
            self.cluster_count() == self.net().clusters.len(),
            forall|cluster: usize|
                cluster < self.cluster_count() ==> #[trigger] self.members_of(cluster)
                    == self.net().clusters[cluster as int],
            climbing(self.root_nodes()),
            forall|root: usize| #[trigger]
                self.root_nodes().contains(root) == (root < self.declarations().len()
                    && self.net().strong[root as int] == Set::<usize>::empty()),
    {
        self.lemma_bound(self.net());
        self.lemma_root_nodes();
        self.lemma_counts();
        assert(crate::work::shown(
            self.net(),
            self.nodes@[node as int],
            node as int,
            self.nodes@.len() as int,
        ));
    }

    /// A cluster has two jobs at least, no more than have a bit in its word, and each once.
    pub proof fn clusters_have_two_jobs_or_more(self, cluster: usize)
        requires
            self.sound(),
            !self.is_pending(),
            cluster < self.cluster_count(),
        ensures
            ({
                let members = self.members_of(cluster);
                let count = self.declarations().len() as int;
                &&& 2 <= members.len() <= CLUSTER_NODES
                &&& members.no_duplicates()
                &&& below(members, count, members.len() as int) == members
            }),
    {
        let net = self.net();
        let members = self.members_of(cluster);
        self.lemma_bound(net);
        assert(members == net.clusters[cluster as int]);
        assert forall|left: int, right: int|
            0 <= left < members.len() && 0 <= right < members.len() && left
                != right implies members[left] != members[right] by {
            assert(net.homes[net.clusters[cluster as int][left] as int] == Some(
                Seat { cluster: cluster as int, slot: left },
            ));
            assert(net.homes[net.clusters[cluster as int][right] as int] == Some(
                Seat { cluster: cluster as int, slot: right },
            ));
        }
        assert forall|index: int| 0 <= index < members.len() implies (#[trigger] members[index])
            < self.declarations().len() by {
            assert(net.clusters[cluster as int][index] < net.homes.len());
        }
        lemma_all_below(members, self.declarations().len() as int, members.len() as int);
        assert(members.take(members.len() as int) =~= members);
    }
}

impl<'b, R> Graph<'b, R> {
    /// The worker whose jobs are shown.
    pub closed spec fn of(self) -> Worker<R> {
        *self.worker
    }

    pub fn new(worker: &'b Worker<R>) -> (graph: Self)
        ensures
            graph.of() == *worker,
    {
        Graph { worker }
    }

    /// The jobs that wait for none.
    pub fn roots(&self) -> (nodes: Vec<Node<'b, R>>)
        ensures
            indices(nodes@) == below(
                self.of().root_nodes(),
                self.of().declarations().len() as int,
                self.of().root_nodes().len() as int,
            ),
            forall|index: int|
                0 <= index < nodes@.len() ==> (#[trigger] nodes@[index]).of() == self.of()
                    && nodes@[index].place() < self.of().declarations().len(),
    {
        proof {
            self.worker.lemma_root_nodes();
        }
        self.worker.pick(&self.worker.roots)
    }

    /// All jobs.
    pub fn nodes(&self) -> (nodes: Vec<Node<'b, R>>)
        ensures
            nodes@.len() == self.of().declarations().len(),
            forall|index: int|
                0 <= index < nodes@.len() ==> (#[trigger] nodes@[index]).of() == self.of()
                    && nodes@[index].place() == index,
    {
        let mut nodes: Vec<Node<'b, R>> = Vec::new();
        assert(self.of().declarations().len() == self.worker.nodes@.len()) by {
            self.worker.lemma_counts();
        }
        for index in 0..self.worker.nodes.len()
            invariant
                nodes@.len() == index,
                forall|at: int|
                    0 <= at < nodes@.len() ==> (#[trigger] nodes@[at]).of() == self.of()
                        && nodes@[at].place() == at,
        {
            nodes.push(Node { index, worker: self.worker });
        }
        nodes
    }

    /// All clusters.
    pub fn clusters(&self) -> (clusters: Vec<Cluster<'b, R>>)
        ensures
            clusters@.len() == self.of().cluster_count(),
            forall|index: int|
                0 <= index < clusters@.len() ==> (#[trigger] clusters@[index]).of() == self.of()
                    && clusters@[index].place() == index,
    {
        let mut clusters: Vec<Cluster<'b, R>> = Vec::new();
        for index in 0..self.worker.clusters.len()
            invariant
                clusters@.len() == index,
                forall|at: int|
                    0 <= at < clusters@.len() ==> (#[trigger] clusters@[at]).of() == self.of()
                        && clusters@[at].place() == at,
        {
            clusters.push(Cluster { index, worker: self.worker });
        }
        clusters
    }
}

impl<'b, R> Node<'b, R> {
    /// The worker that the job belongs to.
    pub closed spec fn of(self) -> Worker<R> {
        *self.worker
    }

    /// The number of the job.
    pub closed spec fn place(self) -> usize {
        self.index
    }

    pub fn index(&self) -> (index: usize)
        ensures
            index == self.place(),
    {
        self.index
    }

    pub fn dependencies(&self) -> (dependencies: &'b [Dependency])
        requires
            self.place() < self.of().declarations().len(),
        ensures
            views(dependencies@) == self.of().declarations()[self.place() as int],
    {
        proof {
            self.worker.lemma_counts();
            self.worker.lemma_declared(self.index as int);
        }
        self.worker.nodes[self.index].dependencies.as_slice()
    }

    /// The jobs that the job must not overlap with.
    pub fn rivals(&self) -> (nodes: Vec<Node<'b, R>>)
        requires
            self.place() < self.of().declarations().len(),
        ensures
            ({
                let list = self.of().rivals_of(self.place());
                indices(nodes@) == below(
                    list,
                    self.of().declarations().len() as int,
                    list.len() as int,
                )
            }),
            forall|index: int|
                0 <= index < nodes@.len() ==> (#[trigger] nodes@[index]).of() == self.of()
                    && nodes@[index].place() < self.of().declarations().len(),
    {
        proof {
            self.worker.lemma_counts();
        }
        self.worker.pick(&self.worker.nodes[self.index].weak.rivals)
    }

    /// The jobs that the job waits for.
    pub fn previous(&self) -> (nodes: Vec<Node<'b, R>>)
        requires
            self.place() < self.of().declarations().len(),
        ensures
            ({
                let list = self.of().previous_of(self.place());
                indices(nodes@) == below(
                    list,
                    self.of().declarations().len() as int,
                    list.len() as int,
                )
            }),
            forall|index: int|
                0 <= index < nodes@.len() ==> (#[trigger] nodes@[index]).of() == self.of()
                    && nodes@[index].place() < self.of().declarations().len(),
    {
        proof {
            self.worker.lemma_counts();
        }
        self.worker.pick(&self.worker.nodes[self.index].strong.previous)
    }

    /// The jobs that wait for the job.
    pub fn next(&self) -> (nodes: Vec<Node<'b, R>>)
        requires
            self.place() < self.of().declarations().len(),
        ensures
            ({
                let list = self.of().next_of(self.place());
                indices(nodes@) == below(
                    list,
                    self.of().declarations().len() as int,
                    list.len() as int,
                )
            }),
            forall|index: int|
                0 <= index < nodes@.len() ==> (#[trigger] nodes@[index]).of() == self.of()
                    && nodes@[index].place() < self.of().declarations().len(),
    {
        proof {
            self.worker.lemma_counts();
        }
        self.worker.pick(&self.worker.nodes[self.index].strong.next)
    }
}

impl<'b, R> Cluster<'b, R> {
    /// The worker that the cluster belongs to.
    pub closed spec fn of(self) -> Worker<R> {
        *self.worker
    }

    /// The number of the cluster.
    pub closed spec fn place(self) -> usize {
        self.index
    }

    pub fn index(&self) -> (index: usize)
        ensures
            index == self.place(),
    {
        self.index
    }

    /// The jobs of the cluster.
    pub fn nodes(&self) -> (nodes: Vec<Node<'b, R>>)
        requires
            self.place() < self.of().cluster_count(),
        ensures
            ({
                let list = self.of().members_of(self.place());
                indices(nodes@) == below(
                    list,
                    self.of().declarations().len() as int,
                    list.len() as int,
                )
            }),
            forall|index: int|
                0 <= index < nodes@.len() ==> (#[trigger] nodes@[index]).of() == self.of()
                    && nodes@[index].place() < self.of().declarations().len(),
    {
        self.worker.pick(&self.worker.clusters[self.index].nodes)
    }
}

} // verus!

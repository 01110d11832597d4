//! Schedules that are compiled in several variants, which differ in what makes a job urgent, and
//! that go over to the variant that has turned out fastest.

use crate::chain::{chains_begin_anew, chains_keep_their_lists, Chain};
use crate::dag::{ascending, backward, inverted, lists, proper, reaches, JobId};
use crate::depend::DependencyView;
use crate::error::Error;
use crate::job::Job;
use crate::keys::KeyMap;
use crate::layout::{contents, joined};
use crate::normalize::{relation_of, NormalizedDeps, Relation};
use crate::order::{insert_by_key, key_before, lemma_distinct_bound, numbers, ordered_by, within};
use crate::orient::{
    clashing_jobs_are_oriented, inverse_order, lemma_relaxed_jobs_clash, order_by_worth, orient,
    orients, permutes, prepare, prioritized, ranks, setting_of, strict_jobs_are_oriented,
    worths_of, JobStats, Orientation, Prepared, Setting,
};
use crate::plan::{
    all_consistent, declarations, jobs_rejected_with, normal_views, normalize_jobs, payloads,
};
use crate::waits::{
    finishing_stays_in_step, in_step, jobs_start_after_those_that_reach_them, runs_begin_in_step,
    starting_stays_in_step, unfinished_predecessors_are_waited_for,
};
use vstd::prelude::*;

verus! {

/// How many times each variant is run before the fastest is chosen.
pub const ADAPTIVE_WARMUP_ROUNDS: u64 = 2;

/// After how many runs one is spent on trying another variant.
pub const ADAPTIVE_RESAMPLE_PERIOD: u64 = 32;

/// What makes a job urgent.
#[derive(Clone, Copy, Debug, PartialEq, Eq, Structural)]
pub enum VariantKind {
    CriticalPath,
    ReadHeavy,
    HotContention,
}

impl VariantKind {
    /// What the kind is called.
    pub open spec fn called(self) -> Seq<char> {
        match self {
            VariantKind::CriticalPath => "critical_path"@,
            VariantKind::ReadHeavy => "read_heavy"@,
            VariantKind::HotContention => "hot_contention"@,
        }
    }

    pub fn name(self) -> (name: &'static str)
        ensures
            name@ == self.called(),
    {
        match self {
            VariantKind::CriticalPath => "critical_path",
            VariantKind::ReadHeavy => "read_heavy",
            VariantKind::HotContention => "hot_contention",
        }
    }

    /// What a job is worth: the numbers by which jobs are told apart, the most important first.
    pub open spec fn worth(self, stats: JobStats, job: int) -> Seq<int> {
        match self {
            VariantKind::CriticalPath => seq![
                stats.strict_height as int,
                stats.strict_fanout as int,
                stats.relaxed_degree as int,
                stats.hot_write_score as int,
                stats.writes as int,
                stats.accesses as int,
                -job,
            ],
            VariantKind::ReadHeavy => seq![
                stats.strict_height as int,
                stats.reads as int,
                stats.hot_read_score as int,
                -stats.writes,
                stats.hot_access_score as int,
                stats.strict_fanout as int,
                stats.accesses as int,
                -job,
            ],
            VariantKind::HotContention => seq![
                stats.strict_height as int,
                stats.hot_write_score as int,
                stats.relaxed_degree as int,
                stats.writes as int,
                stats.hot_access_score as int,
                stats.strict_fanout as int,
                -job,
            ],
        }
    }

    /// What each job is worth.
    pub open spec fn worths(self, stats: Seq<JobStats>) -> Seq<Seq<int>> {
        Seq::new(stats.len(), |job: int| self.worth(stats[job], job))
    }

    fn worth_of(self, stats: JobStats, job: JobId) -> (worth: Vec<i128>)
        ensures
            numbers(worth@) == self.worth(stats, job as int),
    {
        let last: i128 = -(job as i128);
        let fewer_writes: i128 = -(stats.writes as i128);
        let worth = match self {
            VariantKind::CriticalPath => vec![
                stats.strict_height as i128,
                stats.strict_fanout as i128,
                stats.relaxed_degree as i128,
                stats.hot_write_score,
                stats.writes as i128,
                stats.accesses as i128,
                last,
            ],
            VariantKind::ReadHeavy => vec![
                stats.strict_height as i128,
                stats.reads as i128,
                stats.hot_read_score,
                fewer_writes,
                stats.hot_access_score,
                stats.strict_fanout as i128,
                stats.accesses as i128,
                last,
            ],
            VariantKind::HotContention => vec![
                stats.strict_height as i128,
                stats.hot_write_score,
                stats.relaxed_degree as i128,
                stats.writes as i128,
                stats.hot_access_score,
                stats.strict_fanout as i128,
                last,
            ],
        };
        assert(numbers(worth@) =~= self.worth(stats, job as int));
        worth
    }
}

/// Which variants a schedule has.
#[derive(Clone, Copy, Debug, PartialEq, Eq, Structural)]
pub enum Policy {
    Adaptive,
    Fixed(VariantKind),
}

impl Policy {
    /// The variants of a schedule with this policy.
    pub open spec fn kinds(self) -> Seq<VariantKind> {
        match self {
            Policy::Adaptive => seq![
                VariantKind::CriticalPath,
                VariantKind::ReadHeavy,
                VariantKind::HotContention,
            ],
            Policy::Fixed(kind) => seq![kind],
        }
    }

    fn variant_kinds(self) -> (kinds: Vec<VariantKind>)
        ensures
            kinds@ == self.kinds(),
    {
        let kinds = match self {
            Policy::Adaptive => vec![
                VariantKind::CriticalPath,
                VariantKind::ReadHeavy,
                VariantKind::HotContention,
            ],
            Policy::Fixed(kind) => vec![kind],
        };
        assert(kinds@ =~= self.kinds());
        kinds
    }
}

/// Takes the jobs one after the other, each time the one that is worth most among those whose
/// predecessors have been taken.
pub fn build_priority_order(
    kind: VariantKind,
    fixed_predecessors: &[Vec<JobId>],
    fixed_successors: &[Vec<JobId>],
    stats: &[JobStats],
) -> (order: Vec<JobId>)
    requires
        fixed_predecessors@.len() <= u32::MAX,
        proper(lists(fixed_predecessors@)),
        backward(lists(fixed_predecessors@)),
        inverted(lists(fixed_predecessors@), lists(fixed_successors@)),
        stats@.len() == fixed_predecessors@.len(),
    ensures
        prioritized(lists(fixed_predecessors@), kind.worths(stats@), order@),
        permutes(order@, fixed_predecessors@.len() as int),
{
    let ghost length = kind.worth(arbitrary(), 0).len() as int;
    let mut worths: Vec<Vec<i128>> = Vec::new();
    for job in 0..stats.len()
        invariant
            stats@.len() <= u32::MAX,
            worths@.len() == job,
            forall|at: int|
                0 <= at < job ==> numbers((#[trigger] worths@[at])@) == kind.worth(stats@[at], at),
    {
        worths.push(kind.worth_of(stats[job], job as JobId));
    }
    proof {
        assert(worths_of(worths@) =~= kind.worths(stats@));
        assert forall|job: int| 0 <= job < worths@.len() implies length > 0 && (
        #[trigger] worths_of(worths@)[job]).len() == length && worths_of(worths@)[job].last()
            == -job by {
            assert(worths_of(worths@)[job] == kind.worth(stats@[job], job));
        }
    }
    order_by_worth(fixed_predecessors, fixed_successors, &worths, Ghost(length))
}

/// The lists of a variant: the successors of each job and the roots, the most urgent first.
pub struct VariantPlan {
    pub orientation: Orientation,
    pub successors: Seq<Seq<JobId>>,
    pub roots: Seq<JobId>,
}

impl VariantPlan {
    /// Whether one job is more urgent than another: the longest path that starts at it is longer,
    /// or as long and it comes later in the order of priority.
    pub open spec fn more_urgent(self, left: JobId, right: JobId) -> bool {
        let rank = self.orientation.rank;
        let heights = self.orientation.heights;
        let l = rank[left as int] as int;
        let r = rank[right as int] as int;
        ||| heights[l] > heights[r]
        ||| heights[l] == heights[r] && l > r
    }

    /// Whether the more urgent jobs come first in a list.
    pub open spec fn urgent_first(self, list: Seq<JobId>) -> bool {
        forall|left: int, right: int|
            0 <= left < right < list.len() ==> self.more_urgent(
                #[trigger] list[left],
                #[trigger] list[right],
            )
    }

    /// Whether the lists are those of the orientation.
    pub open spec fn listed(self) -> bool {
        let count = self.orientation.order.len() as int;
        let rank = self.orientation.rank;
        &&& self.successors.len() == count
        &&& forall|job: int|
            #![trigger self.successors[job]]
            0 <= job < count ==> self.urgent_first(self.successors[job]) && forall|other: JobId|
                #[trigger]
                self.successors[job].contains(other) == (other < count
                    && self.orientation.after[rank[job] as int].contains(rank[other as int]))
        &&& self.urgent_first(self.roots)
        &&& forall|job: JobId| #[trigger]
            self.roots.contains(job) == (job < count
                && self.orientation.before[rank[job as int] as int].len() == 0)
    }

    /// How many jobs each job waits for.
    pub open spec fn waits(self) -> Seq<int> {
        Seq::new(
            self.orientation.order.len(),
            |job: int| self.orientation.before[self.orientation.rank[job] as int].len() as int,
        )
    }
}

/// A schedule of all jobs.
#[derive(Debug)]
pub struct CompiledVariant {
    pub kind: VariantKind,
    pub chain: Chain,
}

impl CompiledVariant {
    /// Whether the variant is that of a plan, before anything has run.
    pub open spec fn follows(self, setting: Setting, plan: VariantPlan) -> bool {
        &&& orients(
            setting,
            self.kind.worths(setting.stats),
            Set::empty(),
            plan.orientation,
        )
        &&& plan.listed()
        &&& self.chain.made_of(plan.waits(), plan.successors, plan.roots)
    }
}

/// The key by which a job is put in a list: the smaller, the more urgent.
spec fn urgency_key(height: u32, rank: u32) -> int {
    (u32::MAX - height) * 0x1_0000_0000 + (u32::MAX - rank)
}

/// In the order of keys the more urgent jobs come first.
proof fn lemma_urgent_first(plan: VariantPlan, keys: Seq<u64>, list: Seq<JobId>)
    requires
        keys.len() == plan.orientation.rank.len(),
        ranks(plan.orientation.order, plan.orientation.rank),
        forall|job: int|
            0 <= job < keys.len() ==> #[trigger] keys[job] == urgency_key(
                plan.orientation.heights[plan.orientation.rank[job] as int],
                plan.orientation.rank[job],
            ),
        within(list, keys.len() as int),
        ordered_by(keys, list),
    ensures
        plan.urgent_first(list),
{
    let rank = plan.orientation.rank;
    assert forall|left: int, right: int| 0 <= left < right < list.len() implies plan.more_urgent(
        #[trigger] list[left],
        #[trigger] list[right],
    ) by {
        let l = list[left];
        let r = list[right];
        assert(key_before(keys, l, r));
        assert(keys[l as int] == urgency_key(
            plan.orientation.heights[rank[l as int] as int],
            rank[l as int],
        ));
        assert(keys[r as int] == urgency_key(
            plan.orientation.heights[rank[r as int] as int],
            rank[r as int],
        ));
        if rank[l as int] == rank[r as int] {
            assert(plan.orientation.order[rank[l as int] as int] == l);
            assert(plan.orientation.order[rank[r as int] as int] == r);
        }
    }
}

/// Puts the jobs at some places in a list, the most urgent first.
fn list_urgent_first(
    Ghost(plan): Ghost<VariantPlan>,
    keys: &[u64],
    order: &[JobId],
    places: &[JobId],
) -> (list: Vec<JobId>)
    requires
        order@ == plan.orientation.order,
        keys@.len() == order@.len(),
        permutes(order@, order@.len() as int),
        ranks(order@, plan.orientation.rank),
        forall|job: int|
            0 <= job < keys@.len() ==> #[trigger] keys@[job] == urgency_key(
                plan.orientation.heights[plan.orientation.rank[job] as int],
                plan.orientation.rank[job],
            ),
        ascending(places@),
        within(places@, order@.len() as int),
    ensures
        plan.urgent_first(list@),
        forall|job: JobId| #[trigger]
            list@.contains(job) == (job < order@.len() && places@.contains(
                plan.orientation.rank[job as int],
            )),
{
    let ghost rank = plan.orientation.rank;
    let mut list: Vec<JobId> = Vec::new();
    for index in 0..places.len()
        invariant
            keys@.len() == order@.len(),
            permutes(order@, order@.len() as int),
            ranks(order@, rank),
            rank == plan.orientation.rank,
            ascending(places@),
            within(places@, order@.len() as int),
            within(list@, keys@.len() as int),
            ordered_by(keys@, list@),
            forall|job: JobId| #[trigger]
                list@.contains(job) == (job < order@.len() && places@.take(index as int).contains(
                    rank[job as int],
                )),
    {
        let place = places[index];
        let ghost shorter = places@.take(index as int);
        let ghost held = list@;
        let job = order[place as usize];
        proof {
            assert(places@.take(index + 1) =~= shorter.push(place));
            crate::ready::lemma_push_to_set(shorter, place);
            assert(order@[place as int] == job);
            assert(rank[job as int] == place);
            if shorter.contains(place) {
                let at = shorter.index_of(place);
                assert(places@[at] < places@[index as int]);
            }
            assert(!held.contains(job));
        }
        insert_by_key(keys, &mut list, job);
        assert forall|other: JobId| #[trigger] list@.contains(other) == (other < order@.len()
            && places@.take(index + 1).contains(rank[other as int])) by {
            assert(held.contains(other) == (other < order@.len() && shorter.contains(
                rank[other as int],
            )));
            if other < order@.len() && rank[other as int] == place {
                assert(order@[rank[other as int] as int] == other);
            }
        }
    }
    proof {
        assert(places@.take(places@.len() as int) =~= places@);
        lemma_urgent_first(plan, keys@, list@);
    }
    list
}

/// Compiles the variant of a kind.
fn compile_variant(
    Ghost(setting): Ghost<Setting>,
    kind: VariantKind,
    normals: &[NormalizedDeps],
    prepared: &Prepared,
) -> (result: (CompiledVariant, Ghost<VariantPlan>))
    requires
        normals@.len() <= u32::MAX,
        setting.normals == normal_views(normals@),
        prepared.shows(setting),
        inverted(setting.predecessors, setting.successors),
    ensures
        result.0.kind == kind,
        result.0.follows(setting, result.1@),
{
    let count: usize = normals.len();
    let ghost worths = kind.worths(setting.stats);
    let priority = build_priority_order(
        kind,
        &prepared.fixed_predecessors,
        &prepared.fixed_successors,
        &prepared.stats,
    );
    let rank = inverse_order(&priority);
    let left_out: KeyMap<()> = KeyMap::new();
    let (oriented, Ghost(orientation)) = orient(
        Ghost(setting),
        Ghost(worths),
        normals,
        prepared,
        &priority,
        &rank,
        &left_out,
    );
    proof {
        assert(left_out@.dom() =~= Set::empty());
    }
    let ghost partial = VariantPlan { orientation, successors: Seq::empty(), roots: Seq::empty() };

    let mut keys: Vec<u64> = Vec::new();
    let mut root_places: Vec<JobId> = Vec::new();
    for job in 0..count
        invariant
            count <= u32::MAX,
            count == rank@.len(),
            count == oriented.heights@.len(),
            ranks(priority@, rank@),
            keys@.len() == job,
            forall|at: int|
                0 <= at < job ==> #[trigger] keys@[at] == urgency_key(
                    oriented.heights@[rank@[at] as int],
                    rank@[at],
                ),
    {
        let place = rank[job];
        assert(priority@[rank@[job as int] as int] == job);
        let above: u64 = (u32::MAX - oriented.heights[place as usize]) as u64;
        let below: u64 = (u32::MAX - place) as u64;
        keys.push(above * 0x1_0000_0000 + below);
    }
    for place in 0..count
        invariant
            count <= u32::MAX,
            count == oriented.before@.len(),
            ascending(root_places@),
            within(root_places@, place as int),
            forall|other: JobId| #[trigger]
                root_places@.contains(other) == (other < place
                    && oriented.before@[other as int]@.len() == 0),
    {
        if oriented.before[place].len() == 0 {
            let ghost held = root_places@;
            root_places.push(place as JobId);
            proof {
                crate::ready::lemma_push_to_set(held, place as JobId);
                assert(root_places@ =~= held.push(place as JobId));
            }
        }
    }
    let roots = list_urgent_first(Ghost(partial), &keys, &priority, &root_places);

    let mut waits: Vec<u32> = Vec::new();
    let mut successors_by_job: Vec<Vec<JobId>> = Vec::new();
    for job in 0..count
        invariant
            count <= u32::MAX,
            count == rank@.len(),
            count == priority@.len(),
            count == keys@.len(),
            count == oriented.before@.len(),
            count == oriented.after@.len(),
            permutes(priority@, count as int),
            ranks(priority@, rank@),
            partial.orientation == orientation,
            orientation.order == priority@,
            orientation.rank == rank@,
            orientation.heights == oriented.heights@,
            orientation.before == lists(oriented.before@),
            orientation.after == lists(oriented.after@),
            proper(orientation.before),
            inverted(orientation.before, orientation.after),
            forall|at: int|
                0 <= at < count ==> #[trigger] keys@[at] == urgency_key(
                    oriented.heights@[rank@[at] as int],
                    rank@[at],
                ),
            waits@.len() == job,
            successors_by_job@.len() == job,
            forall|at: int|
                0 <= at < job ==> #[trigger] waits@[at]
                    == orientation.before[rank@[at] as int].len(),
            forall|at: int|
                #![trigger successors_by_job@[at]]
                0 <= at < job ==> partial.urgent_first(successors_by_job@[at]@) && forall|
                    other: JobId,
                | #[trigger]
                    successors_by_job@[at]@.contains(other) == (other < count
                        && orientation.after[rank@[at] as int].contains(rank@[other as int])),
    {
        let place = rank[job];
        let ghost at = place as int;
        proof {
            assert(priority@[rank@[job as int] as int] == job);
            assert(orientation.before[at] == oriented.before@[at]@);
            assert(orientation.after[at] == oriented.after@[at]@);
            lemma_distinct_bound(orientation.before[at], count as int);
            let list = orientation.after[at];
            assert forall|index: int| 0 <= index < list.len() implies (#[trigger] list[index])
                < count by {
                assert(list.contains(list[index]));
            }
        }
        waits.push(oriented.before[place as usize].len() as u32);
        successors_by_job.push(
            list_urgent_first(Ghost(partial), &keys, &priority, &oriented.after[place as usize]),
        );
    }
    let ghost plan = VariantPlan {
        orientation,
        successors: contents(successors_by_job@),
        roots: roots@,
    };
    let chain = Chain::assemble(waits, &successors_by_job, roots);
    proof {
        assert(waits@.map_values(|wait: u32| wait as int) =~= plan.waits());
        assert forall|job: int|
            #![trigger plan.successors[job]]
            0 <= job < count implies plan.urgent_first(plan.successors[job]) && forall|other: JobId|
            #[trigger]
            plan.successors[job].contains(other) == (other < count
                && orientation.after[rank@[job] as int].contains(rank@[other as int])) by {
            assert(plan.successors[job] == successors_by_job@[job]@);
            assert(partial.urgent_first(plan.successors[job]));
            lemma_same_urgency(partial, plan, plan.successors[job]);
        }
        lemma_same_urgency(partial, plan, plan.roots);
        assert forall|job: JobId| #[trigger] plan.roots.contains(job) == (job < count
            && orientation.before[rank@[job as int] as int].len() == 0) by {
            if job < count {
                let place = rank@[job as int];
                assert(priority@[place as int] == job);
                assert(root_places@.contains(place) == (place < count
                    && oriented.before@[place as int]@.len() == 0));
                assert(orientation.before[place as int] == oriented.before@[place as int]@);
            }
        }
        assert(plan.listed());
    }
    (CompiledVariant { kind, chain }, Ghost(plan))
}

proof fn lemma_same_urgency(left: VariantPlan, right: VariantPlan, list: Seq<JobId>)
    requires
        left.orientation == right.orientation,
        left.urgent_first(list),
    ensures
        right.urgent_first(list),
{
    assert forall|l: int, r: int| 0 <= l < r < list.len() implies right.more_urgent(
        #[trigger] list[l],
        #[trigger] list[r],
    ) by {
        assert(left.more_urgent(list[l], list[r]));
    }
}

/// How often a variant has run, and how long that took.
#[derive(Debug, Clone, Copy, PartialEq, Eq, Structural)]
pub struct VariantStats {
    pub runs: u64,
    pub total_nanos: u128,
}

impl Default for VariantStats {
    fn default() -> (stats: Self)
        ensures
            stats.runs == 0,
            stats.total_nanos == 0,
    {
        VariantStats { runs: 0, total_nanos: 0 }
    }
}

impl VariantStats {
    /// How long a run takes on average.
    pub open spec fn mean(self) -> u128 {
        if self.runs == 0 {
            u128::MAX
        } else {
            self.total_nanos / self.runs as u128
        }
    }

    /// Whether one variant is to be chosen over another: it is faster, or as fast and has run less.
    pub open spec fn beats(self, other: Self) -> bool {
        self.mean() < other.mean() || self.mean() == other.mean() && self.runs < other.runs
    }

    /// Takes note of a run.
    pub fn record(&mut self, elapsed_nanos: u128)
        requires
            old(self).runs < u64::MAX,
            old(self).total_nanos + elapsed_nanos <= u128::MAX,
        ensures
            final(self).runs == old(self).runs + 1,
            final(self).total_nanos == old(self).total_nanos + elapsed_nanos,
    {
        self.runs += 1;
        self.total_nanos += elapsed_nanos;
    }

    pub fn mean_nanos(&self) -> (mean: u128)
        ensures
            mean == self.mean(),
    {
        if self.runs == 0 {
            u128::MAX
        } else {
            self.total_nanos / self.runs as u128
        }
    }
}

/// Jobs, the variants in which they can be run, and what is known of these.
#[derive(Debug)]
pub struct Schedule<R> {
    pub jobs: Vec<R>,
    pub variants: Vec<CompiledVariant>,
    pub stats: Vec<VariantStats>,
    pub policy: Policy,
    pub total_runs: u64,
}

/// The first of the first `until` variants that no other of them beats.
pub open spec fn fastest(stats: Seq<VariantStats>, until: int) -> int
    decreases until,
{
    if until <= 1 {
        0
    } else {
        let best = fastest(stats, until - 1);
        if stats[until - 1].beats(stats[best]) {
            until - 1
        } else {
            best
        }
    }
}

/// No variant beats the fastest.
pub proof fn the_fastest_is_not_beaten(stats: Seq<VariantStats>, until: int, other: int)
    requires
        0 <= other < until <= stats.len(),
    ensures
        0 <= fastest(stats, until) < until,
        !stats[other].beats(stats[fastest(stats, until)]),
    decreases until,
{
    if until > 1 {
        let best = fastest(stats, until - 1);
        the_fastest_is_not_beaten(stats, until - 1, 0);
        if other < until - 1 {
            the_fastest_is_not_beaten(stats, until - 1, other);
        }
    }
}

impl<R> Schedule<R> {
    /// Whether the schedule is that of a setting and plans, before anything has run.
    pub open spec fn follows(
        self,
        policy: Policy,
        setting: Setting,
        plans: Seq<VariantPlan>,
        runs: Seq<R>,
    ) -> bool {
        &&& self.jobs@ == runs
        &&& self.policy == policy
        &&& self.total_runs == 0
        &&& self.variants@.len() == policy.kinds().len()
        &&& plans.len() == policy.kinds().len()
        &&& forall|index: int|
            0 <= index < plans.len() ==> (#[trigger] self.variants@[index]).kind
                == policy.kinds()[index] && self.variants@[index].follows(setting, plans[index])
        &&& self.stats@.len() == self.variants@.len()
        &&& forall|index: int|
            0 <= index < self.stats@.len() ==> (#[trigger] self.stats@[index]).runs == 0
                && self.stats@[index].total_nanos == 0
    }

    /// Whether the variants are those of the policy, and the notes on them match.
    pub open spec fn sound(self) -> bool {
        &&& self.variants@.len() == self.policy.kinds().len()
        &&& self.stats@.len() == self.variants@.len()
        &&& forall|index: int|
            0 <= index < self.variants@.len() ==> (#[trigger] self.variants@[index]).kind
                == self.policy.kinds()[index]
    }

    /// The variant to run next. Variants take turns at first and from time to time; in between the
    /// fastest is run.
    pub open spec fn next_variant(self) -> int {
        match self.policy {
            Policy::Fixed(_) => 0,
            Policy::Adaptive => {
                let count = self.variants@.len() as int;
                if self.total_runs < count * ADAPTIVE_WARMUP_ROUNDS {
                    self.total_runs as int % count
                } else if self.total_runs as int % ADAPTIVE_RESAMPLE_PERIOD as int == 0 {
                    (self.total_runs / ADAPTIVE_RESAMPLE_PERIOD) as usize as int % count
                } else {
                    fastest(self.stats@, count)
                }
            },
        }
    }

    /// Compiles jobs, unless the dependencies of one of them clash.
    pub fn compile(policy: Policy, jobs: Vec<Job<R>>) -> (result: Result<Self, Error>)
        requires
            jobs@.len() <= u32::MAX,
        ensures
            match result {
                Ok(schedule) => {
                    &&& all_consistent(declarations(jobs@))
                    &&& schedule.sound()
                    &&& exists|setting: Setting, plans: Seq<VariantPlan>|
                        {
                            &&& #[trigger] setting_of(declarations(jobs@), None, setting)
                            &&& #[trigger] schedule.follows(
                                policy,
                                setting,
                                plans,
                                payloads(jobs@),
                            )
                        }
                },
                Err(error) => jobs_rejected_with(declarations(jobs@), error@),
            },
    {
        let ghost declared = declarations(jobs@);
        let ghost runs_of_jobs = payloads(jobs@);
        let (runs, normals) = match normalize_jobs(jobs) {
            Ok(parts) => parts,
            Err(error) => {
                return Err(error);
            },
        };
        assert(all_consistent(declared));
        let (prepared, Ghost(setting)) = prepare(Ghost(declared), &normals, None);
        let kinds = policy.variant_kinds();
        let mut variants: Vec<CompiledVariant> = Vec::new();
        let mut stats: Vec<VariantStats> = Vec::new();
        let ghost mut plans: Seq<VariantPlan> = Seq::empty();
        for index in 0..kinds.len()
            invariant
                normals@.len() <= u32::MAX,
                kinds@ == policy.kinds(),
                setting.normals == normal_views(normals@),
                prepared.shows(setting),
                inverted(setting.predecessors, setting.successors),
                variants@.len() == index,
                stats@.len() == index,
                plans.len() == index,
                forall|at: int|
                    0 <= at < index ==> (#[trigger] variants@[at]).kind == kinds@[at]
                        && variants@[at].follows(setting, plans[at]),
                forall|at: int|
                    0 <= at < index ==> (#[trigger] stats@[at]).runs == 0 && stats@[at].total_nanos
                        == 0,
        {
            let (variant, Ghost(plan)) = compile_variant(
                Ghost(setting),
                kinds[index],
                &normals,
                &prepared,
            );
            variants.push(variant);
            stats.push(VariantStats::default());
            proof {
                plans = plans.push(plan);
            }
        }
        let schedule = Schedule { jobs: runs, variants, stats, policy, total_runs: 0 };
        assert(schedule.follows(policy, setting, plans, runs_of_jobs));
        Ok(schedule)
    }

    /// The variant to run next.
    pub fn select_variant_index(&self) -> (index: usize)
        requires
            self.sound(),
        ensures
            index == self.next_variant(),
            index < self.variants@.len(),
    {
        match self.policy {
            Policy::Fixed(kind) => {
                assert(self.variants@[0].kind == self.policy.kinds()[0]);
                for index in 0..self.variants.len()
                    invariant
                        self.sound(),
                        self.policy == Policy::Fixed(kind),
                        self.variants@.len() == 1,
                        self.variants@[0].kind == kind,
                        index == 0,
                {
                    if self.variants[index].kind == kind {
                        return index;
                    }
                }
                0
            },
            Policy::Adaptive => {
                let variant_count: usize = self.variants.len();
                let warmup_runs: u64 = variant_count as u64 * ADAPTIVE_WARMUP_ROUNDS;
                if self.total_runs < warmup_runs {
                    return self.total_runs as usize % variant_count;
                }
                if self.total_runs % ADAPTIVE_RESAMPLE_PERIOD == 0 {
                    return (self.total_runs / ADAPTIVE_RESAMPLE_PERIOD) as usize % variant_count;
                }
                let mut best: usize = 0;
                for index in 1..variant_count
                    invariant
                        variant_count == self.stats@.len(),
                        1 <= index,
                        best < index,
                        best < variant_count,
                        best == fastest(self.stats@, index as int),
                {
                    let left = self.stats[index].mean_nanos();
                    let right = self.stats[best].mean_nanos();
                    if left < right || (left == right && self.stats[index].runs
                        < self.stats[best].runs) {
                        best = index;
                    }
                }
                best
            },
        }
    }

    /// Takes note of a run. Where a job failed, the variant is made ready to run again.
    pub fn end_run(&mut self, variant_index: usize, elapsed_nanos: u128, failed: bool)
        requires
            old(self).sound(),
            variant_index < old(self).variants@.len(),
            old(self).total_runs < u64::MAX,
            old(self).stats@[variant_index as int].runs < u64::MAX,
            old(self).stats@[variant_index as int].total_nanos + elapsed_nanos <= u128::MAX,
        ensures
            final(self).sound(),
            final(self).jobs == old(self).jobs,
            final(self).policy == old(self).policy,
            final(self).total_runs == old(self).total_runs + 1,
            final(self).stats@ == old(self).stats@.update(
                variant_index as int,
                (VariantStats {
                    runs: (old(self).stats@[variant_index as int].runs + 1) as u64,
                    total_nanos: (old(self).stats@[variant_index as int].total_nanos
                        + elapsed_nanos) as u128,
                }),
            ),
            forall|index: int|
                0 <= index < old(self).variants@.len() && (index != variant_index || !failed) ==> (
                #[trigger] final(self).variants@[index]) == old(self).variants@[index],
            final(self).variants@[variant_index as int].kind == old(
                self,
            ).variants@[variant_index as int].kind,
            failed ==> old(self).variants@[variant_index as int].chain.resets(
                final(self).variants@[variant_index as int].chain,
            ),
    {
        let ghost before = *self;
        if failed {
            self.variants[variant_index].chain.reset();
        }
        self.stats[variant_index].record(elapsed_nanos);
        self.total_runs += 1;
        assert forall|index: int| 0 <= index < self.variants@.len() implies (
        #[trigger] self.variants@[index]).kind == self.policy.kinds()[index] by {
            assert(before.variants@[index].kind == before.policy.kinds()[index]);
        }
    }
}

proof fn lemma_the_fastest_comes_first(stats: Seq<VariantStats>, until: int, other: int)
    requires
        0 <= other < fastest(stats, until),
        until <= stats.len(),
    ensures
        stats[fastest(stats, until)].beats(stats[other]),
    decreases until,
{
    if until > 1 {
        let best = fastest(stats, until - 1);
        the_fastest_is_not_beaten(stats, until - 1, 0);
        if other < until - 1 {
            the_fastest_is_not_beaten(stats, until - 1, other);
        }
        if other < best && fastest(stats, until) == best {
            lemma_the_fastest_comes_first(stats, until - 1, other);
        }
    }
}

/// Once each of the variants has run twice, and but for every 32nd run, an adaptive schedule runs a
/// variant whose runs have taken no longer on average than those of any other variant. Of two that
/// are as fast it takes the one that has run less often, and of two that have run as often the first.
pub proof fn adaptive_schedules_run_the_fastest<R>(schedule: Schedule<R>, index: usize, other: int)
    requires
        schedule.sound(),
        schedule.policy == Policy::Adaptive,
        schedule.total_runs >= 6,
        schedule.total_runs % 32 != 0,
        call_ensures(Schedule::<R>::select_variant_index, (&schedule,), index),
        0 <= other < 3,
    ensures
        index < 3,
        ({
            let taken = schedule.stats@[index as int];
            let left = schedule.stats@[other];
            let taken_mean = taken.total_nanos as int / taken.runs as int;
            let left_mean = left.total_nanos as int / left.runs as int;
            &&& taken.runs > 0 && left.runs > 0 ==> {
                &&& taken_mean <= left_mean
                &&& taken_mean == left_mean ==> taken.runs <= left.runs
                &&& taken_mean == left_mean && taken.runs == left.runs ==> index <= other
            }
            &&& taken.runs == 0 && left.runs > 0 ==> left_mean == u128::MAX
            &&& taken.runs == 0 && left.runs == 0 ==> index <= other
        }),
{
    let stats = schedule.stats@;
    let best = fastest(stats, 3);
    assert(index == best);
    the_fastest_is_not_beaten(stats, 3, other);
    if other < best {
        lemma_the_fastest_comes_first(stats, 3, other);
    }
    lemma_mean(stats[best]);
    lemma_mean(stats[other]);
}

proof fn lemma_mean(stats: VariantStats)
    ensures
        stats.runs > 0 ==> stats.mean() == stats.total_nanos as int / stats.runs as int,
{
}

/// An adaptive schedule first runs each of its three variants in turn, twice. Then every 32nd run is
/// spent on one of them, again each in turn.
pub proof fn adaptive_schedules_try_each_variant_in_turn<R>(
    first: Schedule<R>,
    second: Schedule<R>,
    first_index: usize,
    second_index: usize,
)
    requires
        first.sound(),
        second.sound(),
        first.policy == Policy::Adaptive,
        second.policy == Policy::Adaptive,
        call_ensures(Schedule::<R>::select_variant_index, (&first,), first_index),
        call_ensures(Schedule::<R>::select_variant_index, (&second,), second_index),
    ensures
        first.total_runs < 3 ==> first_index == first.total_runs,
        second.total_runs < 6 && second.total_runs == first.total_runs + 3 ==> second_index
            == first_index,
        first.total_runs >= 96 && first.total_runs % 96 == 0 && first.total_runs <= usize::MAX
            ==> first_index == 0,
        32 <= first.total_runs && first.total_runs % 32 == 0 && second.total_runs
            == first.total_runs + 32 && second.total_runs <= usize::MAX ==> second_index == if first_index
            == 2 {
            0int
        } else {
            first_index + 1
        },
{
    let turn = (first.total_runs / 32) as int;
    if 32 <= first.total_runs && first.total_runs % 32 == 0 && second.total_runs
        == first.total_runs + 32 && second.total_runs <= usize::MAX {
        assert((second.total_runs / 32) as int == turn + 1);
        assert(first_index == turn % 3);
        assert(second_index == (turn + 1) % 3);
    }
}

/// A schedule with a fixed policy always runs the variant of the kind that was asked for, which is
/// its only one. An adaptive one has a variant of each kind.
pub proof fn schedules_have_the_variants_asked_for<R>(
    policy: Policy,
    jobs: Vec<Job<R>>,
    schedule: Schedule<R>,
)
    requires
        call_ensures(Schedule::<R>::compile, (policy, jobs), Ok(schedule)),
    ensures
        schedule.policy == policy,
        schedule.total_runs == 0,
        schedule.jobs@.len() == jobs@.len(),
        schedule.stats@.len() == schedule.variants@.len(),
        match policy {
            Policy::Fixed(kind) => schedule.variants@.len() == 1 && schedule.variants@[0].kind
                == kind,
            Policy::Adaptive => schedule.variants@.len() == 3 && schedule.variants@[0].kind
                == VariantKind::CriticalPath && schedule.variants@[1].kind == VariantKind::ReadHeavy
                && schedule.variants@[2].kind == VariantKind::HotContention,
        },
        forall|at: int|
            0 <= at < schedule.stats@.len() ==> (#[trigger] schedule.stats@[at]).runs == 0
                && schedule.stats@[at].total_nanos == 0,
{
    let (setting, plans) = choose|setting: Setting, plans: Seq<VariantPlan>|
        {
            &&& #[trigger] setting_of(declarations(jobs@), None, setting)
            &&& #[trigger] schedule.follows(policy, setting, plans, payloads(jobs@))
        };
    assert(schedule.variants@[0].kind == policy.kinds()[0]);
    if policy == Policy::Adaptive {
        assert(schedule.variants@[1].kind == policy.kinds()[1]);
        assert(schedule.variants@[2].kind == policy.kinds()[2]);
    }
}

/// Each kind of variant has a name of its own.
pub proof fn kinds_are_told_apart_by_name(kind: VariantKind, name: &str)
    requires
        call_ensures(VariantKind::name, (kind,), name),
    ensures
        kind == VariantKind::CriticalPath ==> name@ == "critical_path"@,
        kind == VariantKind::ReadHeavy ==> name@ == "read_heavy"@,
        kind == VariantKind::HotContention ==> name@ == "hot_contention"@,
{
}

/// The mean time of some runs, times their number, is no more than their total time, and less by less
/// than their number. Where there was no run the mean is larger than any.
pub proof fn means_times_runs_give_the_total(stats: VariantStats, mean: u128)
    requires
        call_ensures(VariantStats::mean_nanos, (&stats,), mean),
    ensures
        stats.runs == 0 ==> mean == u128::MAX,
        stats.runs > 0 ==> mean * stats.runs <= stats.total_nanos < mean * stats.runs + stats.runs,
{
    if stats.runs > 0 {
        let total = stats.total_nanos as int;
        let runs = stats.runs as int;
        vstd::arithmetic::div_mod::lemma_fundamental_div_mod(total, runs);
        vstd::arithmetic::div_mod::lemma_mod_bound(total, runs);
        assert(mean * stats.runs == runs * (total / runs)) by (nonlinear_arith)
            requires
                mean as int == total / runs,
                runs == stats.runs as int,
        ;
    }
}

/// The places of some jobs in an order.
pub open spec fn places_of(order: Seq<JobId>, jobs: Set<JobId>) -> Set<JobId> {
    Set::new(|place: JobId| place < order.len() && jobs.contains(order[place as int]))
}

impl VariantPlan {
    /// Whether, of the jobs that have started and are done, each has waited for what it has to, and
    /// each other job waits for what is not done.
    pub open spec fn keeps_step(
        self,
        waits: Seq<int>,
        started: Set<JobId>,
        done: Set<JobId>,
    ) -> bool {
        let order = self.orientation.order;
        &&& waits.len() == order.len()
        &&& in_step(
            self.orientation.before,
            Seq::new(order.len(), |place: int| waits[order[place] as int]),
            places_of(order, started),
            places_of(order, done),
        )
    }
}

/// A variant that has just been compiled is sound, finds its lists again unless they are too long
/// for the ranges, and lets each job wait for all that it has to wait for.
pub proof fn compiled_variants_keep_step(
    setting: Setting,
    plan: VariantPlan,
    variant: CompiledVariant,
)
    requires
        variant.follows(setting, plan),
        setting.normals.len() <= u32::MAX,
        joined(plan.successors, plan.successors.len() as int).len() <= u32::MAX,
    ensures
        variant.chain.sound(),
        forall|job: int|
            0 <= job < setting.normals.len() ==> #[trigger] variant.chain.successors_of(job)
                == plan.successors[job],
        plan.keeps_step(variant.chain.waits(), Set::empty(), Set::empty()),
{
    let orientation = plan.orientation;
    let order = orientation.order;
    let rank = orientation.rank;
    let count = order.len() as int;
    let nothing = Set::<JobId>::empty();
    assert forall|job: int|
        #![trigger plan.successors[job]]
        0 <= job < plan.successors.len() implies plan.successors[job].no_duplicates() && forall|
        index: int,
    |
        0 <= index < plan.successors[job].len() ==> (#[trigger] plan.successors[job][index]) < count
            && plan.successors[job][index] != job by {
        let list = plan.successors[job];
        assert forall|l: int, r: int|
            0 <= l < list.len() && 0 <= r < list.len() && l != r implies list[l] != list[r] by {
            if l < r {
                assert(plan.more_urgent(list[l], list[r]));
            } else {
                assert(plan.more_urgent(list[r], list[l]));
            }
        }
        assert forall|index: int| 0 <= index < list.len() implies (#[trigger] list[index]) < count
            && list[index] != job by {
            assert(list.contains(list[index]));
            if list[index] == job {
                let place = rank[job];
                assert(order[place as int] == job);
                assert(orientation.after[place as int].contains(place));
                assert(orientation.before[place as int].contains(place));
                lemma_oriented_goes_backward(setting, variant.kind.worths(setting.stats), plan);
                let at = orientation.before[place as int].index_of(place);
                assert(orientation.before[place as int][at] < place);
            }
        }
    }
    chains_keep_their_lists(variant.chain, plan.waits(), plan.successors, plan.roots);
    let waits = variant.chain.waits();
    let by_place = Seq::new(order.len(), |place: int| waits[order[place] as int]);
    assert(places_of(order, nothing) =~= nothing);
    assert forall|place: int| 0 <= place < by_place.len() implies #[trigger] by_place[place]
        == orientation.before[place].len() by {
        let job = order[place] as int;
        assert(rank[order[place] as int] == place);
        assert(variant.chain.nodes@[job].wait == plan.waits()[job]);
    }
    runs_begin_in_step(orientation.before, by_place);
}

proof fn lemma_oriented_goes_backward(
    setting: Setting,
    worths: Seq<Seq<int>>,
    plan: VariantPlan,
)
    requires
        orients(setting, worths, Set::empty(), plan.orientation),
    ensures
        backward(plan.orientation.before),
        proper(plan.orientation.before),
{
    crate::orient::lemma_oriented_is_backward(
        setting.normals,
        plan.orientation.order,
        setting.predecessors,
        Set::empty(),
        plan.orientation.candidates,
    );
    crate::plan::lemma_reduced_is_proper(
        plan.orientation.candidates,
        plan.orientation.before,
    );
}

/// When a job that waits for nothing starts, all jobs stay in step.
pub proof fn started_jobs_keep_step(
    plan: VariantPlan,
    waits: Seq<int>,
    started: Set<JobId>,
    done: Set<JobId>,
    job: JobId,
)
    requires
        ranks(plan.orientation.order, plan.orientation.rank),
        plan.orientation.order.len() <= u32::MAX,
        plan.keeps_step(waits, started, done),
        job < waits.len(),
        !started.contains(job),
        waits[job as int] == 0,
    ensures
        plan.keeps_step(waits, started.insert(job), done),
{
    let order = plan.orientation.order;
    let place = plan.orientation.rank[job as int];
    assert(order[place as int] == job);
    let by_place = Seq::new(order.len(), |at: int| waits[order[at] as int]);
    starting_stays_in_step(
        plan.orientation.before,
        by_place,
        places_of(order, started),
        places_of(order, done),
        place,
        0,
    );
    assert(by_place.update(place as int, 0) =~= by_place);
    assert forall|at: JobId| places_of(order, started.insert(job)).contains(at) == places_of(
        order,
        started,
    ).insert(place).contains(at) by {
        if at < order.len() && order[at as int] == job {
            assert(plan.orientation.rank[order[at as int] as int] == at);
        }
    }
    assert(places_of(order, started.insert(job)) =~= places_of(order, started).insert(place));
}

/// A run does not stall: as long as not all jobs are done, and none is running, some job that has
/// not started waits for nothing.
pub proof fn runs_do_not_stall(
    setting: Setting,
    worths: Seq<Seq<int>>,
    plan: VariantPlan,
    waits: Seq<int>,
    done: Set<JobId>,
    job: JobId,
) -> (next: JobId)
    requires
        orients(setting, worths, Set::empty(), plan.orientation),
        plan.orientation.order.len() <= u32::MAX,
        plan.keeps_step(waits, done, done),
        job < waits.len(),
        !done.contains(job),
    ensures
        next < waits.len(),
        !done.contains(next),
        waits[next as int] == 0,
{
    let order = plan.orientation.order;
    let rank = plan.orientation.rank;
    lemma_oriented_goes_backward(setting, worths, plan);
    let place = rank[job as int];
    assert(order[place as int] == job);
    let done_places = places_of(order, done);
    let found = crate::ready::lemma_some_ready(plan.orientation.before, done_places, place);
    assert(!done_places.contains(found));
    order[found as int]
}

/// When a job that has started finishes, all jobs stay in step, and the jobs that are done wait for
/// what they waited for in the beginning: after a run of all jobs the graph is as it was before.
pub proof fn finished_jobs_keep_step(
    setting: Setting,
    worths: Seq<Seq<int>>,
    plan: VariantPlan,
    before: Chain,
    after: Chain,
    started: Set<JobId>,
    done: Set<JobId>,
    job: JobId,
)
    requires
        orients(setting, worths, Set::empty(), plan.orientation),
        plan.listed(),
        setting.normals.len() <= u32::MAX,
        before.sound(),
        job < before.nodes@.len(),
        before.successors_of(job as int) == plan.successors[job as int],
        plan.keeps_step(before.waits(), started, done),
        before.restored(done),
        started.contains(job),
        !done.contains(job),
        before.finishes(job as int, after),
    ensures
        plan.keeps_step(after.waits(), started, done.insert(job)),
        after.restored(done.insert(job)),
{
    let orientation = plan.orientation;
    let order = orientation.order;
    let rank = orientation.rank;
    let count = order.len() as int;
    let place = rank[job as int];
    assert(order[place as int] == job);
    lemma_oriented_goes_backward(setting, worths, plan);
    let old_waits = Seq::new(order.len(), |at: int| before.waits()[order[at] as int]);
    let new_waits = Seq::new(order.len(), |at: int| after.waits()[order[at] as int]);
    let started_places = places_of(order, started);
    let done_places = places_of(order, done);
    assert(places_of(order, done.insert(job)) =~= done_places.insert(place)) by {
        assert forall|at: JobId| places_of(order, done.insert(job)).contains(at)
            == done_places.insert(place).contains(at) by {
            if at < count && order[at as int] == job {
                assert(rank[order[at as int] as int] == at);
            }
        }
    }
    // No successor has started, since the job is not done.
    assert forall|other: JobId| other < count && plan.successors[job as int].contains(
        other,
    ) implies !started.contains(other) && orientation.before[rank[other as int] as int].contains(
        place,
    ) by {
        let at = rank[other as int];
        assert(order[at as int] == other);
        assert(orientation.after[place as int].contains(at));
        let list = orientation.before[at as int];
        assert(list.contains(place));
        let index = list.index_of(place);
        if started.contains(other) {
            assert(started_places.contains(at));
            assert(done_places.contains(list[index]));
        }
    }
    assert forall|at: JobId|
        at < new_waits.len() && !#[trigger] started_places.contains(at) implies new_waits[at as int]
        == old_waits[at as int] - (if orientation.before[at as int].contains(place) {
        1int
    } else {
        0
    }) by {
        let other = order[at as int];
        assert(rank[other as int] == at);
        let list = orientation.before[at as int];
        assert(orientation.after[place as int].contains(at) == list.contains(place));
        assert(plan.successors[job as int].contains(other) == list.contains(place));
        assert(after.nodes@[other as int].wait_initial == before.nodes@[other as int].wait_initial);
        if list.contains(place) {
            let index = list.index_of(place);
            unfinished_predecessors_are_waited_for(
                orientation.before,
                old_waits,
                started_places,
                done_places,
                at,
                index,
            );
        }
    }
    finishing_stays_in_step(
        orientation.before,
        old_waits,
        new_waits,
        started_places,
        done_places,
        place,
    );
    assert forall|other: JobId|
        other < after.nodes@.len() && #[trigger] done.insert(job).contains(
            other,
        ) implies after.nodes@[other as int].wait == after.nodes@[other as int].wait_initial by {
        if other != job {
            assert(done.contains(other));
            let at = rank[other as int];
            assert(order[at as int] == other);
            assert(done_places.contains(at));
            assert(started_places.contains(at));
            assert(before.nodes@[other as int].wait == before.nodes@[other as int].wait_initial);
        }
    }
}

/// Related jobs do not overlap: where both have started, one of them is done; and where they are
/// strictly related, the one that is declared first is done before the other starts.
pub proof fn related_jobs_do_not_overlap(
    declared: Seq<Seq<DependencyView>>,
    setting: Setting,
    worths: Seq<Seq<int>>,
    plan: VariantPlan,
    waits: Seq<int>,
    started: Set<JobId>,
    done: Set<JobId>,
    left: JobId,
    right: JobId,
)
    requires
        all_consistent(declared),
        setting_of(declared, None, setting),
        orients(setting, worths, Set::empty(), plan.orientation),
        plan.keeps_step(waits, started, done),
        left < right < declared.len() <= u32::MAX,
        relation_of(declared[left as int], declared[right as int]) != Relation::Free,
    ensures
        started.contains(left) && started.contains(right) ==> done.contains(left) || done.contains(
            right,
        ),
        relation_of(declared[left as int], declared[right as int]) == Relation::Strict
            && started.contains(right) ==> done.contains(left),
{
    let orientation = plan.orientation;
    let order = orientation.order;
    let by_place = Seq::new(order.len(), |place: int| waits[order[place] as int]);
    let l = orientation.rank[left as int];
    let r = orientation.rank[right as int];
    assert(order[l as int] == left && order[r as int] == right);
    let started_places = places_of(order, started);
    let done_places = places_of(order, done);
    if relation_of(declared[left as int], declared[right as int]) == Relation::Strict {
        strict_jobs_are_oriented(
            declared,
            None,
            setting,
            worths,
            Set::empty(),
            orientation,
            left as int,
            right as int,
        );
        if started.contains(right) {
            jobs_start_after_those_that_reach_them(
                orientation.before,
                by_place,
                started_places,
                done_places,
                l,
                r,
            );
        }
    } else {
        let key = lemma_relaxed_jobs_clash(
            declared[left as int],
            declared[right as int],
            setting.normals[left as int],
            setting.normals[right as int],
        );
        clashing_jobs_are_oriented(
            setting,
            worths,
            Set::empty(),
            orientation,
            left as int,
            right as int,
            key,
        );
        if started.contains(left) && started.contains(right) {
            if reaches(orientation.before, l as int, r as int) {
                jobs_start_after_those_that_reach_them(
                    orientation.before,
                    by_place,
                    started_places,
                    done_places,
                    l,
                    r,
                );
            } else {
                jobs_start_after_those_that_reach_them(
                    orientation.before,
                    by_place,
                    started_places,
                    done_places,
                    r,
                    l,
                );
            }
        }
    }
}

/// Where a job has failed, and so is never done, no job that is strictly related to it and declared
/// later starts.
pub proof fn failed_jobs_hold_back(
    declared: Seq<Seq<DependencyView>>,
    setting: Setting,
    worths: Seq<Seq<int>>,
    plan: VariantPlan,
    waits: Seq<int>,
    started: Set<JobId>,
    done: Set<JobId>,
    failed: JobId,
    job: JobId,
)
    requires
        all_consistent(declared),
        setting_of(declared, None, setting),
        orients(setting, worths, Set::empty(), plan.orientation),
        plan.keeps_step(waits, started, done),
        failed < job < declared.len() <= u32::MAX,
        relation_of(declared[failed as int], declared[job as int]) == Relation::Strict,
        !done.contains(failed),
    ensures
        !started.contains(job),
{
    related_jobs_do_not_overlap(
        declared,
        setting,
        worths,
        plan,
        waits,
        started,
        done,
        failed,
        job,
    );
}

/// A variant that has been run and reset, or of which all jobs are done, follows its plan as it did
/// when it was compiled, so that the next run of it begins as the first did.
pub proof fn next_runs_of_a_variant_begin_anew(
    setting: Setting,
    plan: VariantPlan,
    variant: CompiledVariant,
    chain: Chain,
    after: CompiledVariant,
    done: Set<JobId>,
)
    requires
        variant.follows(setting, plan),
        setting.normals.len() <= u32::MAX,
        chain.resembles(variant.chain),
        after.kind == variant.kind,
        chain.resets(after.chain) || after.chain == chain && chain.restored(done) && forall|
            job: JobId,
        |
            job < setting.normals.len() ==> #[trigger] done.contains(job),
    ensures
        after.follows(setting, plan),
{
    chains_begin_anew(
        chain,
        after.chain,
        plan.waits(),
        plan.successors,
        plan.roots,
        variant.chain,
        done,
    );
}

} // verus!

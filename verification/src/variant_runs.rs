//! The course of a run of a variant: the jobs that wait for none start first, and each other starts
//! when the last job that it waits for has finished.

use crate::chain::{lemma_finished_sound, lemma_woken, woken_of, Chain};
use crate::dag::JobId;
use crate::layout::joined;
use crate::orient::{orients, ranks, Setting};
use crate::variants::{
    compiled_variants_keep_step, finished_jobs_keep_step, places_of, runs_do_not_stall,
    started_jobs_keep_step, CompiledVariant, VariantPlan,
};
use vstd::prelude::*;

verus! {

impl VariantPlan {
    /// Whether a run is in order in which some jobs are done, some run, and each of the others waits
    /// for one of these.
    pub open spec fn proceeds(self, chain: Chain, done: Set<JobId>, running: Set<JobId>) -> bool {
        let started = done.union(running);
        &&& done.disjoint(running)
        &&& chain.sound()
        &&& chain.nodes@.len() == self.orientation.order.len()
        &&& forall|job: int|
            0 <= job < chain.nodes@.len() ==> #[trigger] chain.successors_of(job)
                == self.successors[job]
        &&& self.keeps_step(chain.waits(), started, done)
        &&& chain.restored(done)
        &&& forall|job: JobId| #[trigger] started.contains(job) ==> job < chain.nodes@.len()
        &&& forall|job: JobId|
            job < chain.nodes@.len() && !#[trigger] started.contains(job)
                ==> chain.nodes@[job as int].wait > 0
    }
}

/// Jobs that wait for nothing may all start.
proof fn lemma_all_start(
    plan: VariantPlan,
    waits: Seq<int>,
    started: Set<JobId>,
    done: Set<JobId>,
    list: Seq<JobId>,
    until: int,
)
    requires
        ranks(plan.orientation.order, plan.orientation.rank),
        plan.orientation.order.len() <= u32::MAX,
        plan.keeps_step(waits, started, done),
        list.no_duplicates(),
        forall|index: int|
            0 <= index < list.len() ==> (#[trigger] list[index]) < waits.len() && !started.contains(
                list[index],
            ) && waits[list[index] as int] == 0,
        0 <= until <= list.len(),
    ensures
        plan.keeps_step(waits, started.union(list.take(until).to_set()), done),
    decreases until,
{
    if until == 0 {
        assert(started.union(list.take(0).to_set()) =~= started);
    } else {
        lemma_all_start(plan, waits, started, done, list, until - 1);
        let shorter = list.take(until - 1);
        let job = list[until - 1];
        let earlier = started.union(shorter.to_set());
        assert(!shorter.contains(job)) by {
            if shorter.contains(job) {
                let other = shorter.index_of(job);
                assert(list[other] == list[until - 1]);
            }
        }
        started_jobs_keep_step(plan, waits, earlier, done, job);
        assert(list.take(until) =~= shorter.push(job));
        shorter.lemma_push_to_set_commute(job);
        assert(earlier.insert(job) =~= started.union(list.take(until).to_set()));
    }
}

/// A run of a variant that has just been compiled, or begins anew, begins in order.
pub proof fn variant_runs_begin(setting: Setting, plan: VariantPlan, variant: CompiledVariant)
    requires
        variant.follows(setting, plan),
        setting.normals.len() <= u32::MAX,
        joined(plan.successors, plan.successors.len() as int).len() <= u32::MAX,
    ensures
        plan.proceeds(variant.chain, Set::empty(), variant.chain.roots@.to_set()),
        variant.chain.roots@.no_duplicates(),
{
    let chain = variant.chain;
    let roots = chain.roots@;
    let nothing = Set::<JobId>::empty();
    let rank = plan.orientation.rank;
    let order = plan.orientation.order;
    compiled_variants_keep_step(setting, plan, variant);
    assert forall|left: int, right: int|
        0 <= left < roots.len() && 0 <= right < roots.len() && left != right implies roots[left]
        != roots[right] by {
        if left < right {
            assert(plan.more_urgent(roots[left], roots[right]));
        } else {
            assert(plan.more_urgent(roots[right], roots[left]));
        }
    }
    assert forall|job: JobId| job < chain.nodes@.len() implies chain.waits()[job as int]
        == plan.orientation.before[rank[job as int] as int].len() && (
    #[trigger] chain.nodes@[job as int]).wait == chain.waits()[job as int] by {
        assert(plan.waits()[job as int] == plan.orientation.before[rank[job as int] as int].len());
    }
    assert forall|index: int| 0 <= index < roots.len() implies (#[trigger] roots[index])
        < chain.waits().len() && chain.waits()[roots[index] as int] == 0 by {
        assert(roots.contains(roots[index]));
        assert(chain.nodes@[roots[index] as int].wait == chain.waits()[roots[index] as int]);
    }
    lemma_all_start(plan, chain.waits(), nothing, nothing, roots, roots.len() as int);
    assert(roots.take(roots.len() as int) =~= roots);
    let started = nothing.union(roots.to_set());
    assert forall|job: JobId| #[trigger] started.contains(job) == roots.contains(job) by {}
    assert forall|job: JobId|
        job < chain.nodes@.len() && !#[trigger] started.contains(
            job,
        ) implies chain.nodes@[job as int].wait > 0 by {
        assert(!roots.contains(job));
    }
}

/// A run of a variant goes on in order when a job has finished. The jobs that start on that account
/// are different ones, and none of them has started before.
#[verifier::rlimit(40)]
pub proof fn variant_runs_go_on(
    setting: Setting,
    worths: Seq<Seq<int>>,
    plan: VariantPlan,
    before: Chain,
    after: Chain,
    done: Set<JobId>,
    running: Set<JobId>,
    job: JobId,
)
    requires
        orients(setting, worths, Set::empty(), plan.orientation),
        plan.listed(),
        setting.normals.len() <= u32::MAX,
        plan.proceeds(before, done, running),
        running.contains(job),
        before.finishes(job as int, after),
    ensures
        ({
            let list = before.successors_of(job as int);
            let begun = woken_of(before.nodes@, list, list.len() as int);
            &&& plan.proceeds(after, done.insert(job), running.remove(job).union(begun.to_set()))
            &&& begun.no_duplicates()
            &&& forall|other: JobId| #[trigger]
                begun.contains(other) ==> !done.contains(other) && !running.contains(other)
        }),
{
    let order = plan.orientation.order;
    let rank = plan.orientation.rank;
    let list = before.successors_of(job as int);
    let begun = woken_of(before.nodes@, list, list.len() as int);
    let started = done.union(running);
    let finish = done.insert(job);
    let runs = running.remove(job).union(begun.to_set());
    assert(started.contains(job));
    assert(before.nodes@[job as int].wait == before.nodes@[job as int].wait);
    lemma_woken(before.nodes@, list, list.len() as int);
    assert(list.take(list.len() as int) =~= list);
    lemma_finished_sound(before, job as int, after);
    finished_jobs_keep_step(setting, worths, plan, before, after, started, done, job);
    assert forall|other: JobId| #[trigger] begun.contains(other) implies other
        < before.nodes@.len() && other != job && !started.contains(other)
        && after.waits()[other as int] == 0 by {
        let at = list.index_of(other);
        assert(list[at] == other);
        let here = rank[other as int];
        let there = rank[job as int];
        assert(plan.successors[job as int].contains(other));
        assert(plan.orientation.after[there as int].contains(here));
        assert(plan.orientation.before[here as int].contains(there));
        let index = plan.orientation.before[here as int].index_of(there);
        assert(plan.orientation.before[here as int][index] == there);
        assert(order[here as int] == other && order[there as int] == job);
        if started.contains(other) {
            assert(places_of(order, started).contains(here));
            assert(places_of(order, done).contains(plan.orientation.before[here as int][index]));
        }
        assert(before.nodes@[other as int].wait == 1);
        assert(after.nodes@[other as int].wait == before.nodes@[other as int].wait.wrapping_sub(1));
    }
    assert forall|index: int| 0 <= index < begun.len() implies (#[trigger] begun[index])
        < after.waits().len() && !started.contains(begun[index])
        && after.waits()[begun[index] as int] == 0 by {
        assert(begun.contains(begun[index]));
    }
    lemma_all_start(plan, after.waits(), started, finish, begun, begun.len() as int);
    assert(begun.take(begun.len() as int) =~= begun);
    let next = finish.union(runs);
    assert(next =~= started.union(begun.to_set())) by {
        assert forall|other: JobId| next.contains(other) == started.union(begun.to_set()).contains(
            other,
        ) by {
            assert(begun.to_set().contains(other) == begun.contains(other));
        }
    }
    assert(finish.disjoint(runs)) by {
        assert forall|other: JobId| !(finish.contains(other) && runs.contains(other)) by {
            assert(begun.to_set().contains(other) == begun.contains(other));
            if finish.contains(other) && runs.contains(other) {
                assert(started.contains(other));
            }
        }
    }
    assert forall|other: int| 0 <= other < after.nodes@.len() implies #[trigger] after.successors_of(
        other,
    ) == plan.successors[other] by {
        assert(after.nodes@[other].successor_range == before.nodes@[other].successor_range);
        assert(before.successors_of(other) == plan.successors[other]);
    }
    assert forall|other: JobId| #[trigger] next.contains(other) implies other
        < after.nodes@.len() by {
        assert(started.contains(other) || begun.contains(other));
    }
    assert forall|other: JobId|
        other < after.nodes@.len() && !#[trigger] next.contains(
            other,
        ) implies after.nodes@[other as int].wait > 0 by {
        assert(!started.contains(other) && !begun.contains(other));
        assert(before.nodes@[other as int].wait > 0);
        assert(other != job);
        assert(list.contains(other) ==> before.nodes@[other as int].wait != 1);
    }
    assert forall|other: JobId| #[trigger] begun.contains(other) implies !done.contains(other)
        && !running.contains(other) by {
        assert(!started.contains(other));
    }
}

/// A run of a variant ends only when all jobs are done: where no job runs, there is none left.
pub proof fn variant_runs_end(
    setting: Setting,
    worths: Seq<Seq<int>>,
    plan: VariantPlan,
    chain: Chain,
    done: Set<JobId>,
)
    requires
        orients(setting, worths, Set::empty(), plan.orientation),
        setting.normals.len() <= u32::MAX,
        plan.proceeds(chain, done, Set::empty()),
    ensures
        forall|job: JobId| job < setting.normals.len() ==> #[trigger] done.contains(job),
{
    assert(done.union(Set::empty()) =~= done);
    assert forall|job: JobId| job < setting.normals.len() implies #[trigger] done.contains(job) by {
        if !done.contains(job) {
            let next = runs_do_not_stall(setting, worths, plan, chain.waits(), done, job);
            assert(!done.union(Set::empty()).contains(next));
            assert(chain.nodes@[next as int].wait > 0);
        }
    }
}

} // verus!

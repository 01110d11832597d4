//! Which jobs an order of priority makes wait for one another, and which are taken first.

use crate::dag::{essential, JobId};
use crate::depend::{DependencyView, KeyView};

use crate::normalize::{normal_forms_are_related_as_jobs, some_shared_key, NormalView, Relation};
use crate::orient::{
    accesses_key, next_clash, orients, setting_of, waits_for, writes_in, Orientation, Setting,
};
use crate::plan::{all_consistent, relation_between};
use crate::variants::{CompiledVariant, VariantPlan};
use vstd::prelude::*;

verus! {

pub(crate) proof fn lemma_clashing_normals(left: NormalView, right: NormalView, key: KeyView)
    requires
        accesses_key(left, key),
        accesses_key(right, key),
        writes_in(left, key) || writes_in(right, key),
    ensures
        crate::normalize::normal_relation(left, right) != Relation::Free,
{
    let l = left->Known_0;
    let r = right->Known_0;
    let a = if writes_in(left, key) {
        choose|a: int| 0 <= a < l.len() && (#[trigger] l[a]).key == key && l[a].write
    } else {
        choose|a: int| 0 <= a < l.len() && (#[trigger] l[a]).key == key
    };
    let b = if writes_in(right, key) {
        choose|b: int| 0 <= b < r.len() && (#[trigger] r[b]).key == key && r[b].write
    } else {
        choose|b: int| 0 <= b < r.len() && (#[trigger] r[b]).key == key
    };
    let relation = crate::normalize::shared_key_relation(
        l[a].order,
        r[b].order,
        l[a].write || r[b].write,
    );
    assert(l[a].key == r[b].key);
    assert(some_shared_key(l, r, relation));
}

/// In an order of priority a job waits for another one only where that comes before it in the order
/// and the two are related: strictly, or by a key that is not left out, which both access and one of
/// them writes.
pub proof fn jobs_wait_for_related_ones_only(
    declared: Seq<Seq<DependencyView>>,
    unknown_key: Option<KeyView>,
    setting: Setting,
    worths: Seq<Seq<int>>,
    left_out: Set<KeyView>,
    orientation: Orientation,
    early: JobId,
    late: int,
)
    requires
        all_consistent(declared),
        declared.len() <= u32::MAX,
        setting_of(declared, unknown_key, setting),
        orients(setting, worths, left_out, orientation),
        0 <= late < declared.len(),
        orientation.before[late].contains(early),
    ensures
        early < late,
        relation_between(
            declared,
            orientation.order[early as int] as int,
            orientation.order[late] as int,
        ) != Relation::Free,
        ({
            let left = orientation.order[early as int];
            let right = orientation.order[late];
            let l = setting.normals[left as int];
            let r = setting.normals[right as int];
            ||| relation_between(declared, left as int, right as int) == Relation::Strict
            ||| exists|key: KeyView|
                !left_out.contains(key) && #[trigger] accesses_key(l, key) && accesses_key(r, key)
                    && (writes_in(l, key) || writes_in(r, key))
        }),
{
    let order = orientation.order;
    let index = choose|index: int| #[trigger]
        essential(orientation.candidates, late, index) && orientation.candidates[late][index]
            == early;
    assert(orientation.candidates[late].contains(early));
    assert(waits_for(
        setting.normals,
        order,
        setting.predecessors,
        left_out,
        early as int,
        late,
    ));
    let left = order[early as int];
    let right = order[late];
    assert(left < declared.len() && right < declared.len());
    if setting.predecessors[right as int].contains(left) {
        let at = choose|index: int| #[trigger]
            essential(setting.candidates, right as int, index)
                && setting.candidates[right as int][index] == left;
        assert(setting.candidates[right as int].contains(left));
    } else {
        let key = choose|key: KeyView| !left_out.contains(key) && #[trigger]
            next_clash(setting.normals, order, early as int, late, key);
        let l = setting.normals[left as int];
        let r = setting.normals[right as int];
        assert(accesses_key(l, key));
        lemma_clashing_normals(l, r, key);
        lemma_clashing_normals(r, l, key);
        assert(crate::normalize::consistent(declared[left as int]));
        assert(crate::normalize::consistent(declared[right as int]));
        assert(crate::normalize::normalizes(declared[left as int], l));
        assert(crate::normalize::normalizes(declared[right as int], r));
        normal_forms_are_related_as_jobs(declared[left as int], declared[right as int], l, r);
        normal_forms_are_related_as_jobs(declared[right as int], declared[left as int], r, l);
        reveal(relation_between);
    }
}

/// The jobs that a compiled variant starts with wait for none. Of two that are listed together, among
/// these or among those that a job wakes, the one with the longer way before it comes first; of two
/// with equally long ways the one that comes later in the order of priority.
pub proof fn variants_list_urgent_jobs_first(
    setting: Setting,
    plan: VariantPlan,
    variant: CompiledVariant,
    first: int,
    second: int,
)
    requires
        variant.follows(setting, plan),
        0 <= first < second < variant.chain.roots@.len(),
    ensures
        ({
            let rank = plan.orientation.rank;
            let heights = plan.orientation.heights;
            let left = variant.chain.roots@[first];
            let right = variant.chain.roots@[second];
            let l = rank[left as int] as int;
            let r = rank[right as int] as int;
            &&& plan.orientation.before[l].len() == 0
            &&& plan.orientation.before[r].len() == 0
            &&& heights[l] >= heights[r]
            &&& heights[l] == heights[r] ==> l > r
        }),
{
    let roots = variant.chain.roots@;
    assert(roots == plan.roots);
    assert(plan.more_urgent(plan.roots[first], plan.roots[second]));
    assert(plan.roots.contains(plan.roots[first]));
    assert(plan.roots.contains(plan.roots[second]));
}

/// The jobs that a job of a variant wakes are those that wait for it, the one with the longer way
/// before it first.
pub proof fn variants_wake_urgent_jobs_first(
    setting: Setting,
    plan: VariantPlan,
    variant: CompiledVariant,
    job: JobId,
    other: JobId,
    first: int,
    second: int,
)
    requires
        variant.follows(setting, plan),
        job < plan.successors.len(),
        other < plan.successors.len(),
        0 <= first < second < plan.successors[job as int].len(),
    ensures
        ({
            let rank = plan.orientation.rank;
            let heights = plan.orientation.heights;
            let list = plan.successors[job as int];
            let l = rank[list[first] as int] as int;
            let r = rank[list[second] as int] as int;
            &&& list.contains(other) == plan.orientation.before[rank[other as int] as int].contains(
                rank[job as int],
            )
            &&& heights[l] >= heights[r]
            &&& heights[l] == heights[r] ==> l > r
        }),
{
    let rank = plan.orientation.rank;
    let list = plan.successors[job as int];
    assert(plan.more_urgent(list[first], list[second]));
    assert(list.contains(other) == (other < plan.orientation.order.len()
        && plan.orientation.after[rank[job as int] as int].contains(rank[other as int])));
    assert(plan.orientation.after[rank[job as int] as int].contains(rank[other as int])
        == plan.orientation.before[rank[other as int] as int].contains(rank[job as int]));
}

} // verus!

//! Orientation of conflicts: jobs are put in an order of priority, and those that access a key in
//! conflicting ways wait for one another in that order.

use crate::dag::{
    ascending, backward, build_successors, compute_strict_heights, forward, insert_ascending,
    inverted, lists, measured, proper, reaches, reduce_strict, reduced, reduction_keeps_paths,
    JobId,
};
use crate::depend::{DependencyView, Key, KeyView};
use crate::frontier::lemma_inverted_is_forward;
use crate::keys::KeyMap;
use crate::normalize::{
    consistent, normal_forms_are_related_as_jobs, normalizes, relation_of, sorted_accesses, Access,
    AccessView, NormalView, NormalizedDeps, Relation,
};
use crate::order::{
    is_worth_more, lemma_distinct_bound, lemma_worth_total, lemma_worth_transitive, numbers, within,
    worth_more,
};
use crate::plan::{
    all_normalized, lemma_reduced_is_proper, lemma_strict_is_backward, normal_views, relate_jobs,
    relaxed_beside, strict_jobs_are_connected, strictly_after,
};
use crate::ready::{
    indegrees_tell, is_ready, lemma_missing_shrinks, lemma_push_to_set, lemma_removed,
    lemma_some_ready, release_successors,
};
use crate::waits::{lemma_missing, lemma_nothing_done, missing};
use vstd::prelude::*;

verus! {

/// Whether a job that does not depend on everything accesses a key.
pub open spec fn accesses_key(normal: NormalView, key: KeyView) -> bool {
    match normal {
        NormalView::Unknown => false,
        NormalView::Known(accesses) => exists|index: int|
            0 <= index < accesses.len() && (#[trigger] accesses[index]).key == key,
    }
}

/// Whether a job that does not depend on everything writes a key.
pub open spec fn writes_in(normal: NormalView, key: KeyView) -> bool {
    match normal {
        NormalView::Unknown => false,
        NormalView::Known(accesses) => exists|index: int|
            0 <= index < accesses.len() && (#[trigger] accesses[index]).key == key
                && accesses[index].write,
    }
}

/// Whether the accesses of each job are in order.
pub open spec fn all_sorted(normals: Seq<NormalView>) -> bool {
    forall|job: int|
        0 <= job < normals.len() ==> ((#[trigger] normals[job]) matches NormalView::Known(accesses)
            ==> sorted_accesses(accesses))
}

/// How often a key is accessed.
#[derive(Debug, Copy, Clone, PartialEq, Eq, Structural)]
pub struct KeyHeat {
    pub touches: u32,
    pub writes: u32,
}

/// Whether a job counts as one that accesses a key. Jobs that depend on everything count for
/// `unknown_key`, where it is given.
pub open spec fn counts_for(
    normal: NormalView,
    unknown_key: Option<KeyView>,
    key: KeyView,
) -> bool {
    accesses_key(normal, key) || normal is Unknown && unknown_key == Some(key)
}

/// Whether a job counts as one that writes a key.
pub open spec fn counts_as_write(
    normal: NormalView,
    unknown_key: Option<KeyView>,
    key: KeyView,
) -> bool {
    writes_in(normal, key) || normal is Unknown && unknown_key == Some(key)
}

/// How many of the first `until` jobs count as ones that access a key.
pub open spec fn touches(
    normals: Seq<NormalView>,
    unknown_key: Option<KeyView>,
    key: KeyView,
    until: int,
) -> int
    decreases until,
{
    if until <= 0 {
        0
    } else {
        touches(normals, unknown_key, key, until - 1) + (if counts_for(
            normals[until - 1],
            unknown_key,
            key,
        ) {
            1int
        } else {
            0
        })
    }
}

/// How many of the first `until` jobs count as ones that write a key.
pub open spec fn writes(
    normals: Seq<NormalView>,
    unknown_key: Option<KeyView>,
    key: KeyView,
    until: int,
) -> int
    decreases until,
{
    if until <= 0 {
        0
    } else {
        writes(normals, unknown_key, key, until - 1) + (if counts_as_write(
            normals[until - 1],
            unknown_key,
            key,
        ) {
            1int
        } else {
            0
        })
    }
}

/// Whether `heat` tells how often the first `until` jobs access each key.
pub open spec fn heat_tells(
    normals: Seq<NormalView>,
    unknown_key: Option<KeyView>,
    heat: Map<KeyView, KeyHeat>,
    until: int,
) -> bool {
    &&& forall|key: KeyView| #[trigger]
        heat.contains_key(key) == (touches(normals, unknown_key, key, until) > 0)
    &&& forall|key: KeyView| #[trigger]
        heat.contains_key(key) ==> {
            &&& heat[key].touches == touches(normals, unknown_key, key, until)
            &&& heat[key].writes == writes(normals, unknown_key, key, until)
        }
}

proof fn lemma_touches_bound(
    normals: Seq<NormalView>,
    unknown_key: Option<KeyView>,
    key: KeyView,
    until: int,
)
    requires
        0 <= until,
    ensures
        0 <= writes(normals, unknown_key, key, until) <= touches(
            normals,
            unknown_key,
            key,
            until,
        ) <= until,
    decreases until,
{
    if until > 0 {
        lemma_touches_bound(normals, unknown_key, key, until - 1);
        let normal = normals[until - 1];
        if writes_in(normal, key) {
            let accesses = normal->Known_0;
            let index = choose|index: int|
                0 <= index < accesses.len() && (#[trigger] accesses[index]).key == key
                    && accesses[index].write;
            assert(accesses[index].key == key);
            assert(accesses_key(normal, key));
        }
    }
}

/// Counts one more access to a key.
fn warm(heat: &mut KeyMap<KeyHeat>, key: &Key, write: bool)
    requires
        old(heat)@.contains_key(key@) ==> old(heat)@[key@].touches < u32::MAX && old(
            heat,
        )@[key@].writes < u32::MAX,
    ensures
        final(heat)@ == old(heat)@.insert(
            key@,
            (KeyHeat {
                touches: (if old(heat)@.contains_key(key@) {
                    old(heat)@[key@].touches + 1
                } else {
                    1
                }) as u32,
                writes: ((if old(heat)@.contains_key(key@) {
                    old(heat)@[key@].writes as int
                } else {
                    0
                }) + (if write {
                    1int
                } else {
                    0
                })) as u32,
            }),
        ),
{
    let mut entry = match heat.get(key) {
        Some(entry) => *entry,
        None => KeyHeat { touches: 0, writes: 0 },
    };
    entry.touches += 1;
    if write {
        entry.writes += 1;
    }
    heat.insert(key.clone(), entry);
}

/// Whether one of the first `until` accesses is to a key.
spec fn access_before(accesses: Seq<AccessView>, key: KeyView, until: int) -> bool {
    exists|index: int| 0 <= index < until && (#[trigger] accesses[index]).key == key
}

/// Whether one of the first `until` accesses writes a key.
spec fn write_before(accesses: Seq<AccessView>, key: KeyView, until: int) -> bool {
    exists|index: int|
        0 <= index < until && (#[trigger] accesses[index]).key == key && accesses[index].write
}

proof fn lemma_access_before(accesses: Seq<AccessView>, key: KeyView, until: int)
    requires
        0 <= until < accesses.len(),
        sorted_accesses(accesses),
    ensures
        access_before(accesses, key, until + 1) == (access_before(accesses, key, until)
            || accesses[until].key == key),
        write_before(accesses, key, until + 1) == (write_before(accesses, key, until)
            || accesses[until].key == key && accesses[until].write),
        accesses[until].key == key ==> !access_before(accesses, key, until) && !write_before(
            accesses,
            key,
            until,
        ),
{
    if access_before(accesses, key, until) {
        let index = choose|index: int|
            0 <= index < until && (#[trigger] accesses[index]).key == key;
        assert(accesses[index].key == key);
        assert(accesses[index].key.before(accesses[until].key));
        key.before_is_irreflexive();
    }
    if write_before(accesses, key, until) {
        let index = choose|index: int|
            0 <= index < until && (#[trigger] accesses[index]).key == key && accesses[index].write;
        assert(accesses[index].key == key);
        assert(access_before(accesses, key, until));
    }
}

/// Counts how often each key is accessed.
pub fn build_key_heat(normals: &[NormalizedDeps], unknown_key: Option<&Key>) -> (heat: KeyMap<
    KeyHeat,
>)
    requires
        normals@.len() <= u32::MAX,
        all_sorted(normal_views(normals@)),
    ensures
        heat_tells(
            normal_views(normals@),
            match unknown_key {
                Some(key) => Some(key@),
                None => None,
            },
            heat@,
            normals@.len() as int,
        ),
{
    let ghost views = normal_views(normals@);
    let ghost unknown: Option<KeyView> = match unknown_key {
        Some(key) => Some(key@),
        None => None,
    };
    let mut heat: KeyMap<KeyHeat> = KeyMap::new();
    for job in 0..normals.len()
        invariant
            normals@.len() <= u32::MAX,
            views == normal_views(normals@),
            all_sorted(views),
            unknown == (match unknown_key {
                Some(key) => Some(key@),
                None => None,
            }),
            heat_tells(views, unknown, heat@, job as int),
    {
        let ghost before = heat@;
        let ghost at = job as int;
        assert(views[at] == normals@[at]@);
        proof {
            assert forall|key: KeyView| #[trigger] before.contains_key(
                key,
            ) implies before[key].touches < u32::MAX && before[key].writes < u32::MAX by {
                lemma_touches_bound(views, unknown, key, at);
            }
        }
        match &normals[job] {
            NormalizedDeps::Unknown => {
                if let Some(key) = unknown_key {
                    warm(&mut heat, key, true);
                    assert forall|other: KeyView|
                        #![trigger heat@.contains_key(other)]
                        heat@.contains_key(other) == (touches(views, unknown, other, at + 1) > 0)
                        && (heat@.contains_key(other) ==> heat@[other].touches == touches(
                        views,
                        unknown,
                        other,
                        at + 1,
                    ) && heat@[other].writes == writes(views, unknown, other, at + 1)) by {
                        assert(before.contains_key(other) || !before.contains_key(other));
                        lemma_touches_bound(views, unknown, other, at);
                    }
                } else {
                    assert forall|other: KeyView|
                        #![trigger heat@.contains_key(other)]
                        touches(views, unknown, other, at + 1) == touches(
                        views,
                        unknown,
                        other,
                        at,
                    ) && writes(views, unknown, other, at + 1) == writes(
                        views,
                        unknown,
                        other,
                        at,
                    ) by {}
                }
            },
            NormalizedDeps::Known(accesses) => {
                let ghost own = views[at]->Known_0;
                assert(sorted_accesses(own));
                for index in 0..accesses.len()
                    invariant
                        normals@.len() <= u32::MAX,
                        views == normal_views(normals@),
                        at < normals@.len(),
                        0 <= at,
                        sorted_accesses(own),
                        own == accesses@.map_values(|access: Access| access@),
                        heat_tells(views, unknown, before, at),
                        forall|key: KeyView| #[trigger]
                            before.contains_key(key) ==> before[key].touches < u32::MAX
                                && before[key].writes < u32::MAX,
                        forall|key: KeyView|
                            #![trigger heat@.contains_key(key)]
                            heat@.contains_key(key) == (before.contains_key(key) || access_before(
                                own,
                                key,
                                index as int,
                            )) && (heat@.contains_key(key) ==> heat@[key].touches == touches(
                                views,
                                unknown,
                                key,
                                at,
                            ) + (if access_before(own, key, index as int) {
                                1int
                            } else {
                                0
                            }) && heat@[key].writes == writes(views, unknown, key, at) + (if
                            write_before(own, key, index as int) {
                                1int
                            } else {
                                0
                            })),
                {
                    let access = &accesses[index];
                    let ghost middle = heat@;
                    let ghost key = access.key@;
                    proof {
                        assert(own[index as int] == access@);
                        lemma_access_before(own, key, index as int);
                        assert(middle.contains_key(key) || !middle.contains_key(key));
                        assert(before.contains_key(key) || !before.contains_key(key));
                        lemma_touches_bound(views, unknown, key, at);
                    }
                    warm(&mut heat, &access.key, access.write);
                    assert forall|other: KeyView|
                        #![trigger heat@.contains_key(other)]
                        heat@.contains_key(other) == (before.contains_key(other) || access_before(
                        own,
                        other,
                        index + 1,
                    )) && (heat@.contains_key(other) ==> heat@[other].touches == touches(
                        views,
                        unknown,
                        other,
                        at,
                    ) + (if access_before(own, other, index + 1) {
                        1int
                    } else {
                        0
                    }) && heat@[other].writes == writes(views, unknown, other, at) + (if
                    write_before(own, other, index + 1) {
                        1int
                    } else {
                        0
                    })) by {
                        lemma_access_before(own, other, index as int);
                        assert(middle.contains_key(other) || !middle.contains_key(other));
                        lemma_touches_bound(views, unknown, other, at);
                    }
                }
                assert forall|key: KeyView|
                    #![trigger heat@.contains_key(key)]
                    heat@.contains_key(key) == (touches(views, unknown, key, at + 1) > 0) && (
                heat@.contains_key(key) ==> heat@[key].touches == touches(
                    views,
                    unknown,
                    key,
                    at + 1,
                ) && heat@[key].writes == writes(views, unknown, key, at + 1)) by {
                    let end = own.len() as int;
                    assert(access_before(own, key, end) == accesses_key(views[at], key));
                    assert(write_before(own, key, end) == writes_in(views[at], key));
                    assert(before.contains_key(key) || !before.contains_key(key));
                    lemma_touches_bound(views, unknown, key, at);
                }
            },
        }
    }
    heat
}

/// What is known of a job when priorities are set.
#[derive(Debug, Copy, Clone, PartialEq, Eq, Structural)]
pub struct JobStats {
    pub strict_height: u32,
    pub strict_fanout: usize,
    pub relaxed_degree: usize,
    pub writes: usize,
    pub reads: usize,
    pub accesses: usize,
    pub hot_access_score: i128,
    pub hot_read_score: i128,
    pub hot_write_score: i128,
}

/// How many of the first `until` accesses write, or do not.
pub open spec fn count_kind(accesses: Seq<AccessView>, write: bool, until: int) -> int
    decreases until,
{
    if until <= 0 {
        0
    } else {
        count_kind(accesses, write, until - 1) + (if accesses[until - 1].write == write {
            1int
        } else {
            0
        })
    }
}

/// The heat of the keys of the first `until` accesses, added up.
pub open spec fn access_heat(
    accesses: Seq<AccessView>,
    heat: Map<KeyView, KeyHeat>,
    until: int,
) -> int
    decreases until,
{
    if until <= 0 {
        0
    } else {
        let own = heat[accesses[until - 1].key];
        access_heat(accesses, heat, until - 1) + own.touches + own.writes
    }
}

/// The heat of the keys of those of the first `until` accesses that write, or do not, added up with
/// writes counted twice.
pub open spec fn kind_heat(
    accesses: Seq<AccessView>,
    heat: Map<KeyView, KeyHeat>,
    write: bool,
    until: int,
) -> int
    decreases until,
{
    if until <= 0 {
        0
    } else {
        let own = heat[accesses[until - 1].key];
        kind_heat(accesses, heat, write, until - 1) + (if accesses[until - 1].write == write {
            own.touches + 2 * own.writes
        } else {
            0
        })
    }
}

/// Whether `stats` tells what is to be known of a job but for its height.
pub open spec fn stats_tell(
    normal: NormalView,
    heat: Map<KeyView, KeyHeat>,
    relaxed_degree: int,
    strict_fanout: int,
    stats: JobStats,
) -> bool {
    &&& stats.relaxed_degree == relaxed_degree
    &&& stats.strict_fanout == strict_fanout
    &&& match normal {
        NormalView::Unknown => {
            &&& stats.writes == 1
            &&& stats.reads == 0
            &&& stats.accesses == 1
            &&& stats.hot_access_score == 1
            &&& stats.hot_read_score == 0
            &&& stats.hot_write_score == 1
        },
        NormalView::Known(accesses) => {
            let end = accesses.len() as int;
            &&& stats.writes == count_kind(accesses, true, end)
            &&& stats.reads == count_kind(accesses, false, end)
            &&& stats.accesses == end
            &&& stats.hot_access_score == access_heat(accesses, heat, end)
            &&& stats.hot_read_score == kind_heat(accesses, heat, false, end)
            &&& stats.hot_write_score == kind_heat(accesses, heat, true, end)
        },
    }
}

/// Whether the heat of every key that a job accesses is known.
pub open spec fn heat_covers(normals: Seq<NormalView>, heat: Map<KeyView, KeyHeat>) -> bool {
    forall|job: int, key: KeyView|
        0 <= job < normals.len() && #[trigger] accesses_key(normals[job], key)
            ==> heat.contains_key(key)
}

/// Heat that was counted for jobs is known for every key that they access.
pub proof fn lemma_heat_covers(
    normals: Seq<NormalView>,
    unknown_key: Option<KeyView>,
    heat: Map<KeyView, KeyHeat>,
)
    requires
        heat_tells(normals, unknown_key, heat, normals.len() as int),
    ensures
        heat_covers(normals, heat),
{
    assert forall|job: int, key: KeyView|
        0 <= job < normals.len() && #[trigger] accesses_key(
            normals[job],
            key,
        ) implies heat.contains_key(key) by {
        lemma_touched_counts(normals, unknown_key, key, job, normals.len() as int);
    }
}

proof fn lemma_touched_counts(
    normals: Seq<NormalView>,
    unknown_key: Option<KeyView>,
    key: KeyView,
    job: int,
    until: int,
)
    requires
        0 <= job < until <= normals.len(),
        accesses_key(normals[job], key),
    ensures
        touches(normals, unknown_key, key, until) > 0,
    decreases until,
{
    lemma_touches_bound(normals, unknown_key, key, until - 1);
    if job < until - 1 {
        lemma_touched_counts(normals, unknown_key, key, job, until - 1);
    }
}

/// Collects what is to be known of each job when priorities are set.
pub fn build_job_stats(
    normals: &[NormalizedDeps],
    relaxed_neighbors: &[Vec<JobId>],
    fixed_successors: &[Vec<JobId>],
    key_heat: &KeyMap<KeyHeat>,
) -> (stats: Vec<JobStats>)
    requires
        normals@.len() <= u32::MAX,
        relaxed_neighbors@.len() == normals@.len(),
        fixed_successors@.len() == normals@.len(),
        forward(lists(fixed_successors@)),
        heat_covers(normal_views(normals@), key_heat@),
    ensures
        stats@.len() == normals@.len(),
        forall|job: int|
            0 <= job < stats@.len() ==> stats_tell(
                normal_views(normals@)[job],
                key_heat@,
                relaxed_neighbors@[job]@.len() as int,
                fixed_successors@[job]@.len() as int,
                #[trigger] stats@[job],
            ),
        measured(
            lists(fixed_successors@),
            stats@.map_values(|stats: JobStats| stats.strict_height),
        ),
{
    let ghost views = normal_views(normals@);
    let heights = compute_strict_heights(fixed_successors);
    let mut stats: Vec<JobStats> = Vec::new();
    for job in 0..normals.len()
        invariant
            views == normal_views(normals@),
            normals@.len() <= u32::MAX,
            relaxed_neighbors@.len() == normals@.len(),
            fixed_successors@.len() == normals@.len(),
            heights@.len() == normals@.len(),
            heat_covers(views, key_heat@),
            stats@.len() == job,
            forall|at: int|
                0 <= at < job ==> stats_tell(
                    views[at],
                    key_heat@,
                    relaxed_neighbors@[at]@.len() as int,
                    fixed_successors@[at]@.len() as int,
                    #[trigger] stats@[at],
                ) && stats@[at].strict_height == heights@[at],
    {
        let ghost at = job as int;
        assert(views[at] == normals@[at]@);
        let mut own = JobStats {
            strict_height: heights[job],
            strict_fanout: fixed_successors[job].len(),
            relaxed_degree: relaxed_neighbors[job].len(),
            writes: 0,
            reads: 0,
            accesses: 0,
            hot_access_score: 0,
            hot_read_score: 0,
            hot_write_score: 0,
        };
        match &normals[job] {
            NormalizedDeps::Unknown => {
                own.writes = 1;
                own.accesses = 1;
                own.hot_access_score = 1;
                own.hot_write_score = 1;
            },
            NormalizedDeps::Known(accesses) => {
                let ghost list = views[at]->Known_0;
                for index in 0..accesses.len()
                    invariant
                        views == normal_views(normals@),
                        0 <= at < normals@.len(),
                        views[at] == NormalView::Known(list),
                        list == accesses@.map_values(|access: Access| access@),
                        heat_covers(views, key_heat@),
                        own.strict_height == heights@[at],
                        own.strict_fanout == fixed_successors@[at]@.len(),
                        own.relaxed_degree == relaxed_neighbors@[at]@.len(),
                        own.accesses == index,
                        own.writes == count_kind(list, true, index as int),
                        own.reads == count_kind(list, false, index as int),
                        0 <= own.writes + own.reads <= index,
                        own.hot_access_score == access_heat(list, key_heat@, index as int),
                        own.hot_read_score == kind_heat(list, key_heat@, false, index as int),
                        own.hot_write_score == kind_heat(list, key_heat@, true, index as int),
                        0 <= own.hot_access_score <= index * 12884901885,
                        0 <= own.hot_read_score <= index * 12884901885,
                        0 <= own.hot_write_score <= index * 12884901885,
                {
                    let access = &accesses[index];
                    assert(list[index as int] == access@);
                    assert(accesses_key(views[at], access.key@));
                    own.accesses += 1;
                    let heat = match key_heat.get(&access.key) {
                        Some(heat) => *heat,
                        None => KeyHeat { touches: 0, writes: 0 },
                    };
                    let once: i128 = heat.touches as i128 + heat.writes as i128;
                    let twice: i128 = heat.touches as i128 + heat.writes as i128 * 2;
                    own.hot_access_score += once;
                    if access.write {
                        own.writes += 1;
                        own.hot_write_score += twice;
                    } else {
                        own.reads += 1;
                        own.hot_read_score += twice;
                    }
                }
            },
        }
        stats.push(own);
    }
    assert(stats@.map_values(|stats: JobStats| stats.strict_height) =~= heights@);
    stats
}

/// What each of a list of jobs is worth.
pub open spec fn worths_of(worths: Seq<Vec<i128>>) -> Seq<Seq<int>> {
    worths.map_values(|worth: Vec<i128>| numbers(worth@))
}

/// Whether no two jobs are worth the same: the last number that a job is worth is that of the job,
/// below zero.
pub open spec fn distinct_worths(worths: Seq<Seq<int>>, length: int) -> bool {
    forall|job: int|
        0 <= job < worths.len() ==> length > 0 && (#[trigger] worths[job]).len() == length
            && worths[job].last() == -job
}

/// Whether a job is worth most among those that are ready.
pub open spec fn best_ready(
    predecessors: Seq<Seq<JobId>>,
    worths: Seq<Seq<int>>,
    done: Set<JobId>,
    job: JobId,
) -> bool {
    &&& is_ready(predecessors, done, job)
    &&& forall|other: JobId| #[trigger]
        is_ready(predecessors, done, other) && other != job ==> worth_more(
            worths[job as int],
            worths[other as int],
        )
}

/// Whether `order` takes the jobs one after the other, each time the one that is worth most among
/// those whose predecessors have been taken.
pub open spec fn prioritized(
    predecessors: Seq<Seq<JobId>>,
    worths: Seq<Seq<int>>,
    order: Seq<JobId>,
) -> bool {
    &&& order.len() == predecessors.len()
    &&& forall|index: int|
        0 <= index < order.len() ==> best_ready(
            predecessors,
            worths,
            order.take(index).to_set(),
            #[trigger] order[index],
        )
}

/// Whether a list names each of `count` jobs once.
pub open spec fn permutes(order: Seq<JobId>, count: int) -> bool {
    &&& order.len() == count
    &&& order.no_duplicates()
    &&& within(order, count)
    &&& forall|job: JobId| job < count ==> #[trigger] order.contains(job)
}

/// Finds the available job that is worth most.
fn select_best_available(available: &[JobId], worths: &[Vec<i128>], Ghost(length): Ghost<int>) -> (
best: usize)
    requires
        available@.len() > 0,
        available@.no_duplicates(),
        within(available@, worths@.len() as int),
        distinct_worths(worths_of(worths@), length),
    ensures
        best < available@.len(),
        forall|index: int|
            0 <= index < available@.len() && index != best ==> worth_more(
                worths_of(worths@)[available@[best as int] as int],
                worths_of(worths@)[(#[trigger] available@[index]) as int],
            ),
{
    let ghost all = worths_of(worths@);
    let mut best: usize = 0;
    for index in 1..available.len()
        invariant
            available@.no_duplicates(),
            within(available@, worths@.len() as int),
            all == worths_of(worths@),
            distinct_worths(all, length),
            best < index,
            best < available@.len(),
            forall|at: int|
                0 <= at < index && at != best ==> worth_more(
                    all[available@[best as int] as int],
                    all[(#[trigger] available@[at]) as int],
                ),
    {
        let left = available[index];
        let right = available[best];
        let ghost l = all[left as int];
        let ghost r = all[right as int];
        proof {
            assert(l == numbers(worths@[left as int]@));
            assert(r == numbers(worths@[right as int]@));
            assert(available@[index as int] != available@[best as int]);
            lemma_worth_total(l, r);
        }
        let better = is_worth_more(&worths[left as usize], &worths[right as usize]);
        if better {
            assert forall|at: int| 0 <= at < index + 1 && at != index implies worth_more(
                l,
                all[(#[trigger] available@[at]) as int],
            ) by {
                if at != best {
                    assert(all[available@[at] as int].len() == length);
                    lemma_worth_transitive(l, r, all[available@[at] as int]);
                }
            }
            best = index;
        }
    }
    best
}

/// Takes the jobs one after the other, each time the one that is worth most among those whose
/// predecessors have been taken.
pub(crate) fn order_by_worth(
    fixed_predecessors: &[Vec<JobId>],
    fixed_successors: &[Vec<JobId>],
    worths: &[Vec<i128>],
    Ghost(length): Ghost<int>,
) -> (order: Vec<JobId>)
    requires
        fixed_predecessors@.len() <= u32::MAX,
        proper(lists(fixed_predecessors@)),
        backward(lists(fixed_predecessors@)),
        inverted(lists(fixed_predecessors@), lists(fixed_successors@)),
        worths@.len() == fixed_predecessors@.len(),
        distinct_worths(worths_of(worths@), length),
    ensures
        prioritized(lists(fixed_predecessors@), worths_of(worths@), order@),
        permutes(order@, fixed_predecessors@.len() as int),
{
    let ghost edges = lists(fixed_predecessors@);
    let ghost all = worths_of(worths@);
    let ghost count = edges.len() as int;
    let len: usize = fixed_predecessors.len();
    let ghost nothing = Set::<JobId>::empty();
    let mut remaining: Vec<u32> = Vec::new();
    let mut available: Vec<JobId> = Vec::new();
    for job in 0..len
        invariant
            edges == lists(fixed_predecessors@),
            count == edges.len(),
            len == count,
            count <= u32::MAX,
            proper(edges),
            remaining@.len() == job,
            forall|at: int| 0 <= at < job ==> #[trigger] remaining@[at] == edges[at].len(),
            available@.no_duplicates(),
            forall|at: JobId| #[trigger]
                available@.contains(at) == (at < job && edges[at as int].len() == 0),
    {
        proof {
            let own = edges[job as int];
            assert(own == fixed_predecessors@[job as int]@);
            assert(own.no_duplicates());
            lemma_distinct_bound(own, count);
        }
        remaining.push(fixed_predecessors[job].len() as u32);
        if fixed_predecessors[job].len() == 0 {
            let ghost held = available@;
            available.push(job as JobId);
            proof {
                lemma_push_to_set(held, job as JobId);
                assert forall|l: int, r: int|
                    0 <= l < available@.len() && 0 <= r < available@.len() && l
                        != r implies available@[l] != available@[r] by {
                    if l == held.len() {
                        assert(held.contains(held[r]));
                    } else if r == held.len() {
                        assert(held.contains(held[l]));
                    }
                }
            }
        }
    }
    let mut order: Vec<JobId> = Vec::new();
    proof {
        assert(order@.to_set() =~= nothing);
        assert forall|at: int| 0 <= at < count implies #[trigger] remaining@[at] == missing(
            edges[at],
            nothing,
            edges[at].len() as int,
        ) by {
            lemma_nothing_done(edges[at], edges[at].len() as int);
        }
        assert forall|at: JobId| #[trigger] available@.contains(at) == is_ready(
            edges,
            nothing,
            at,
        ) by {
            if at < count {
                lemma_nothing_done(edges[at as int], edges[at as int].len() as int);
            }
        }
    }
    while available.len() > 0
        invariant
            edges == lists(fixed_predecessors@),
            count == edges.len(),
            count <= u32::MAX,
            all == worths_of(worths@),
            worths@.len() == count,
            distinct_worths(all, length),
            proper(edges),
            backward(edges),
            inverted(edges, lists(fixed_successors@)),
            indegrees_tell(edges, order@.to_set(), remaining@),
            available@.no_duplicates(),
            forall|at: JobId| #[trigger]
                available@.contains(at) == is_ready(edges, order@.to_set(), at),
            order@.no_duplicates(),
            within(order@, count),
            forall|at: JobId| #[trigger]
                order@.contains(at) ==> missing(
                    edges[at as int],
                    order@.to_set(),
                    edges[at as int].len() as int,
                ) == 0,
            forall|index: int|
                0 <= index < order@.len() ==> best_ready(
                    edges,
                    all,
                    order@.take(index).to_set(),
                    #[trigger] order@[index],
                ),
        decreases count - order@.len(),
    {
        let ghost before = order@;
        let ghost done = before.to_set();
        let ghost held = available@;
        proof {
            assert forall|index: int| 0 <= index < held.len() implies (#[trigger] held[index])
                < worths@.len() by {
                assert(held.contains(held[index]));
            }
        }
        let best_index = select_best_available(&available, worths, Ghost(length));
        let job = available.swap_remove(best_index);
        let ghost left_over = available@;
        proof {
            assert(held[best_index as int] == job);
            assert(held.contains(job));
            lemma_removed(held, best_index as int, left_over);
            assert(!before.contains(job)) by {
                if before.contains(job) {
                    assert(done.contains(job));
                }
            }
            assert(best_ready(edges, all, done, job)) by {
                assert forall|other: JobId| #[trigger]
                    is_ready(edges, done, other) && other != job implies worth_more(
                    all[job as int],
                    all[other as int],
                ) by {
                    assert(held.contains(other));
                    let at = held.index_of(other);
                    assert(held[at] == other);
                }
            }
        }
        order.push(job);
        proof {
            lemma_push_to_set(before, job);
            assert(order@.no_duplicates()) by {
                assert forall|l: int, r: int|
                    0 <= l < order@.len() && 0 <= r < order@.len() && l != r implies order@[l]
                    != order@[r] by {
                    if l == before.len() {
                        assert(before.contains(before[r]));
                    } else if r == before.len() {
                        assert(before.contains(before[l]));
                    }
                }
            }
            lemma_distinct_bound(order@, count);
            assert forall|index: int| 0 <= index < order@.len() implies best_ready(
                edges,
                all,
                order@.take(index).to_set(),
                #[trigger] order@[index],
            ) by {
                assert(order@.take(index) =~= before.take(index));
                if index == before.len() {
                    assert(before.take(index) =~= before);
                } else {
                    assert(order@[index] == before[index]);
                }
            }
        }
        let mut newly_ready: Vec<JobId> = Vec::new();
        release_successors(
            Ghost(edges),
            Ghost(done),
            job,
            fixed_successors,
            &mut remaining,
            &mut newly_ready,
        );
        let ghost added = newly_ready@;
        available.append(&mut newly_ready);
        proof {
            let following = done.insert(job);
            assert(order@.to_set() == following);
            assert(available@ =~= left_over + added);
            assert forall|at: JobId| #[trigger] available@.contains(at) == (left_over.contains(at)
                || added.contains(at)) by {
                if left_over.contains(at) {
                    assert(available@[left_over.index_of(at)] == at);
                }
                if added.contains(at) {
                    assert(available@[left_over.len() + added.index_of(at)] == at);
                }
                if available@.contains(at) {
                    let place = available@.index_of(at);
                    if place < left_over.len() {
                        assert(left_over[place] == at);
                    } else {
                        assert(added[place - left_over.len()] == at);
                    }
                }
            }
            assert forall|at: JobId| #[trigger] order@.contains(at) implies missing(
                edges[at as int],
                following,
                edges[at as int].len() as int,
            ) == 0 by {
                let list = edges[at as int];
                lemma_missing_shrinks(list, done, following, list.len() as int);
                if at != job {
                    assert(before.contains(at));
                }
            }
            assert forall|at: JobId|
                #![trigger added.contains(at)]
                added.contains(at) implies is_ready(edges, following, at) && !left_over.contains(
                at,
            ) by {
                let list = edges[at as int];
                assert(remaining@[at as int] == missing(list, following, list.len() as int));
                lemma_missing(list, done, list.len() as int);
                assert(list.contains(job));
                let place = list.index_of(job);
                // It waited for the job, so that it was neither ready nor done.
                if missing(list, done, list.len() as int) == 0 {
                    assert(done.contains(list[place]));
                }
                if done.contains(at) {
                    assert(before.contains(at));
                }
                assert(at != job) by {
                    assert(edges[at as int][place] < at);
                }
            }
            assert forall|at: JobId| #[trigger] available@.contains(at) == is_ready(
                edges,
                following,
                at,
            ) by {
                if at < count {
                    let list = edges[at as int];
                    let end = list.len() as int;
                    lemma_missing_shrinks(list, done, following, end);
                    assert(remaining@[at as int] == missing(list, following, end));
                    if is_ready(edges, following, at) {
                        assert(!done.contains(at) && at != job);
                        if missing(list, done, end) == 0 {
                            assert(held.contains(at));
                            assert(left_over.contains(at));
                        } else {
                            crate::waits::lemma_one_done(list, done, job, end);
                            assert(list.take(end) =~= list);
                            assert(list.contains(job));
                            assert(added.contains(at));
                        }
                    }
                    if left_over.contains(at) {
                        assert(held.contains(at));
                        assert(is_ready(edges, done, at));
                    }
                }
            }
            assert(available@.no_duplicates()) by {
                assert forall|l: int, r: int|
                    0 <= l < available@.len() && 0 <= r < available@.len() && l
                        != r implies available@[l] != available@[r] by {
                    let start = left_over.len();
                    if l < start && r >= start {
                        assert(left_over.contains(left_over[l]));
                        assert(added.contains(added[r - start]));
                    }
                    if r < start && l >= start {
                        assert(left_over.contains(left_over[r]));
                        assert(added.contains(added[l - start]));
                    }
                    if l >= start && r >= start {
                        assert(added[l - start] != added[r - start]);
                    }
                }
            }
        }
    }
    proof {
        let done = order@.to_set();
        assert forall|job: JobId| job < count implies #[trigger] order@.contains(job) by {
            if !done.contains(job) {
                let ready_job = lemma_some_ready(edges, done, job);
                assert(available@.contains(ready_job));
                let at = available@.index_of(ready_job);
            }
        }
        lemma_all_named(order@, count);
    }
    order
}

/// A list that names each of `count` jobs once is as long as that.
pub(crate) proof fn lemma_all_named(order: Seq<JobId>, count: int)
    requires
        0 <= count <= u32::MAX,
        order.no_duplicates(),
        within(order, count),
        forall|job: JobId| job < count ==> #[trigger] order.contains(job),
    ensures
        order.len() == count,
{
    lemma_distinct_bound(order, count);
    order.unique_seq_to_set();
    lemma_at_least(order.to_set(), count);
}

proof fn lemma_at_least(jobs: Set<JobId>, count: int)
    requires
        0 <= count <= u32::MAX,
        jobs.finite(),
        forall|job: JobId| job < count ==> #[trigger] jobs.contains(job),
    ensures
        jobs.len() >= count,
    decreases count,
{
    if count > 0 {
        let last = (count - 1) as JobId;
        assert(jobs.contains(last));
        let rest = jobs.remove(last);
        assert forall|job: JobId| job < count - 1 implies #[trigger] rest.contains(job) by {
            assert(jobs.contains(job));
        }
        lemma_at_least(rest, count - 1);
    }
}

/// Whether `rank` tells the place of each job in an order.
pub open spec fn ranks(order: Seq<JobId>, rank: Seq<u32>) -> bool {
    &&& rank.len() == order.len()
    &&& forall|index: int|
        0 <= index < order.len() ==> rank[(#[trigger] order[index]) as int] == index
    &&& forall|job: int|
        0 <= job < rank.len() ==> (#[trigger] rank[job]) < order.len()
            && order[rank[job] as int] == job
}

/// The place of each job in an order.
pub fn inverse_order(order: &[JobId]) -> (rank: Vec<u32>)
    requires
        order@.len() <= u32::MAX,
        permutes(order@, order@.len() as int),
    ensures
        ranks(order@, rank@),
{
    let mut rank: Vec<u32> = Vec::new();
    rank.resize(order.len(), 0u32);
    for index in 0..order.len()
        invariant
            order@.len() <= u32::MAX,
            permutes(order@, order@.len() as int),
            rank@.len() == order@.len(),
            forall|at: int|
                0 <= at < index ==> rank@[(#[trigger] order@[at]) as int] == at,
    {
        let job = order[index];
        let ghost before = rank@;
        rank.set(job as usize, index as u32);
        assert forall|at: int| 0 <= at < index + 1 implies rank@[(#[trigger] order@[at]) as int]
            == at by {
            if at < index {
                assert(order@[at] != order@[index as int]);
            }
        }
    }
    assert forall|job: int| 0 <= job < rank@.len() implies (#[trigger] rank@[job]) < order@.len()
        && order@[rank@[job] as int] == job by {
        assert(order@.contains(job as JobId));
        let at = order@.index_of(job as JobId);
        assert(rank@[order@[at] as int] == at);
    }
    rank
}

/// Whether the jobs at two places of an order access a key in conflicting ways, and no job between
/// them writes it.
pub open spec fn next_clash(
    normals: Seq<NormalView>,
    order: Seq<JobId>,
    left: int,
    right: int,
    key: KeyView,
) -> bool {
    let l = normals[order[left] as int];
    let r = normals[order[right] as int];
    &&& 0 <= left < right < order.len()
    &&& accesses_key(l, key)
    &&& accesses_key(r, key)
    &&& writes_in(l, key) || writes_in(r, key)
    &&& forall|between: int|
        left < between < right ==> !writes_in(normals[(#[trigger] order[between]) as int], key)
}

/// Whether the job at one place of an order has to wait for that at another one: because it is one
/// of its predecessors, or because of a key that is not left out.
pub open spec fn waits_for(
    normals: Seq<NormalView>,
    order: Seq<JobId>,
    predecessors: Seq<Seq<JobId>>,
    left_out: Set<KeyView>,
    left: int,
    right: int,
) -> bool {
    ||| predecessors[order[right] as int].contains(order[left])
    ||| exists|key: KeyView| !left_out.contains(key) && #[trigger]
        next_clash(normals, order, left, right, key)
}

/// Whether `candidates` holds, in order, for each place of an order the earlier places that it has
/// to wait for.
pub open spec fn oriented(
    normals: Seq<NormalView>,
    order: Seq<JobId>,
    predecessors: Seq<Seq<JobId>>,
    left_out: Set<KeyView>,
    candidates: Seq<Seq<JobId>>,
) -> bool {
    &&& candidates.len() == order.len()
    &&& forall|right: int|
        #![trigger candidates[right]]
        0 <= right < candidates.len() ==> ascending(candidates[right]) && forall|left: JobId|
            #[trigger]
            candidates[right].contains(left) == (left < right && waits_for(
                normals,
                order,
                predecessors,
                left_out,
                left as int,
                right,
            ))
}

/// Finds what a job does with a key: whether it writes it, where it accesses it.
pub(crate) fn find_access(dependencies: &NormalizedDeps, key: &Key) -> (found: Option<bool>)
    requires
        dependencies@ matches NormalView::Known(accesses) ==> sorted_accesses(accesses),
    ensures
        match found {
            None => !accesses_key(dependencies@, key@),
            Some(write) => accesses_key(dependencies@, key@) && write == writes_in(
                dependencies@,
                key@,
            ),
        },
{
    match dependencies {
        NormalizedDeps::Unknown => None,
        NormalizedDeps::Known(accesses) => {
            let ghost views = dependencies@->Known_0;
            for index in 0..accesses.len()
                invariant
                    dependencies@ == NormalView::Known(views),
                    views == accesses@.map_values(|access: Access| access@),
                    sorted_accesses(views),
                    forall|at: int| 0 <= at < index ==> (#[trigger] views[at]).key != key@,
            {
                assert(views[index as int] == accesses@[index as int]@);
                if accesses[index].key == *key {
                    assert(views[index as int].key == key@);
                    assert forall|at: int|
                        0 <= at < views.len() && (#[trigger] views[at]).key
                            == key@ implies at == index by {
                        if at > index {
                            assert(views[index as int].key.before(views[at].key));
                            key@.before_is_irreflexive();
                        }
                    }
                    return Some(accesses[index].write);
                }
            }
            None
        },
    }
}

/// Adds the places that the job at one place has to wait for because of a key.
fn orient_key(
    normals: &[NormalizedDeps],
    order: &[JobId],
    right: usize,
    key: &Key,
    write: bool,
    list: &mut Vec<JobId>,
)
    requires
        order@.len() <= u32::MAX,
        all_sorted(normal_views(normals@)),
        within(order@, normals@.len() as int),
        right < order@.len(),
        accesses_key(normal_views(normals@)[order@[right as int] as int], key@),
        write == writes_in(normal_views(normals@)[order@[right as int] as int], key@),
        ascending(old(list)@),
    ensures
        ascending(final(list)@),
        forall|left: JobId| #[trigger]
            final(list)@.contains(left) == (old(list)@.contains(left) || next_clash(
                normal_views(normals@),
                order@,
                left as int,
                right as int,
                key@,
            )),
{
    let ghost views = normal_views(normals@);
    let ghost at = right as int;
    let ghost before = list@;
    let mut left: usize = right;
    let mut searching = true;
    while searching && left > 0
        invariant
            order@.len() <= u32::MAX,
            views == normal_views(normals@),
            all_sorted(views),
            within(order@, normals@.len() as int),
            at == right,
            right < order@.len(),
            left <= right,
            accesses_key(views[order@[at] as int], key@),
            write == writes_in(views[order@[at] as int], key@),
            ascending(list@),
            searching ==> forall|between: int|
                left <= between < right ==> !writes_in(
                    views[(#[trigger] order@[between]) as int],
                    key@,
                ),
            !searching ==> left < right && writes_in(views[order@[left as int] as int], key@),
            forall|other: JobId| #[trigger]
                list@.contains(other) == (before.contains(other) || left <= other && next_clash(
                    views,
                    order@,
                    other as int,
                    at,
                    key@,
                )),
        decreases left, (if searching { 1int } else { 0int }),
    {
        left -= 1;
        let ghost held = list@;
        let job = order[left];
        let ghost normal = views[job as int];
        assert(normal == normals@[job as int]@);
        let found = find_access(&normals[job as usize], key);
        proof {
            assert(order@[left as int] == job);
            assert(next_clash(views, order@, left as int, at, key@) == (found is Some && (found->0
                || write)));
        }
        match found {
            Some(wrote) => {
                if wrote || write {
                    insert_ascending(list, left as JobId);
                }
                if wrote {
                    searching = false;
                }
            },
            None => {
                assert(!writes_in(normal, key@)) by {
                    if writes_in(normal, key@) {
                        let accesses = normal->Known_0;
                        let index = choose|index: int|
                            0 <= index < accesses.len() && (#[trigger] accesses[index]).key == key@
                                && accesses[index].write;
                        assert(accesses[index].key == key@);
                    }
                }
            },
        }
        assert forall|other: JobId| #[trigger] list@.contains(other) == (before.contains(other)
            || left <= other && next_clash(views, order@, other as int, at, key@)) by {
            assert(held.contains(other) == (before.contains(other) || left + 1 <= other
                && next_clash(views, order@, other as int, at, key@)));
        }
    }
    assert forall|other: JobId| #[trigger] list@.contains(other) == (before.contains(other)
        || next_clash(views, order@, other as int, at, key@)) by {
        if next_clash(views, order@, other as int, at, key@) && other < left {
            assert(!searching);
            assert(!writes_in(views[order@[left as int] as int], key@));
        }
    }
}

/// Finds for each place of an order the earlier places that it has to wait for.
pub(crate) fn orient_conflicts<V>(
    normals: &[NormalizedDeps],
    fixed_predecessors: &[Vec<JobId>],
    order: &[JobId],
    rank: &[u32],
    left_out: &KeyMap<V>,
) -> (candidates: Vec<Vec<JobId>>)
    requires
        order@.len() <= u32::MAX,
        normals@.len() == order@.len(),
        fixed_predecessors@.len() == order@.len(),
        all_sorted(normal_views(normals@)),
        permutes(order@, order@.len() as int),
        ranks(order@, rank@),
        proper(lists(fixed_predecessors@)),
        forall|job: int, index: int|
            0 <= job < order@.len() && 0 <= index < lists(fixed_predecessors@)[job].len()
                ==> rank@[(#[trigger] lists(fixed_predecessors@)[job][index]) as int] < rank@[job],
    ensures
        oriented(
            normal_views(normals@),
            order@,
            lists(fixed_predecessors@),
            left_out@.dom(),
            lists(candidates@),
        ),
{
    let ghost views = normal_views(normals@);
    let ghost fixed = lists(fixed_predecessors@);
    let ghost skipped = left_out@.dom();
    let mut candidates: Vec<Vec<JobId>> = Vec::new();
    for right in 0..order.len()
        invariant
            order@.len() <= u32::MAX,
            normals@.len() == order@.len(),
            fixed_predecessors@.len() == order@.len(),
            views == normal_views(normals@),
            fixed == lists(fixed_predecessors@),
            skipped == left_out@.dom(),
            all_sorted(views),
            permutes(order@, order@.len() as int),
            ranks(order@, rank@),
            proper(fixed),
            forall|job: int, index: int|
                0 <= job < order@.len() && 0 <= index < fixed[job].len() ==> rank@[(
                #[trigger] fixed[job][index]) as int] < rank@[job],
            candidates@.len() == right,
            forall|at: int|
                #![trigger candidates@[at]]
                0 <= at < right ==> ascending(candidates@[at]@) && forall|left: JobId| #[trigger]
                    candidates@[at]@.contains(left) == (left < at && waits_for(
                        views,
                        order@,
                        fixed,
                        skipped,
                        left as int,
                        at,
                    )),
    {
        let job = order[right];
        let ghost at = right as int;
        let ghost own = fixed[job as int];
        assert(own == fixed_predecessors@[job as int]@);
        let mut list: Vec<JobId> = Vec::new();
        let length: usize = fixed_predecessors[job as usize].len();
        for index in 0..length
            invariant
                order@.len() <= u32::MAX,
                fixed == lists(fixed_predecessors@),
                fixed_predecessors@.len() == order@.len(),
                permutes(order@, order@.len() as int),
                ranks(order@, rank@),
                proper(fixed),
                at == right,
                right < order@.len(),
                job == order@[at],
                own == fixed[job as int],
                own == fixed_predecessors@[job as int]@,
                length == own.len(),
                ascending(list@),
                forall|left: JobId| #[trigger]
                    list@.contains(left) == (left < order@.len() && own.take(
                        index as int,
                    ).contains(order@[left as int])),
        {
            let predecessor = fixed_predecessors[job as usize][index];
            let ghost shorter = own.take(index as int);
            let ghost held = list@;
            proof {
                assert(own[index as int] == predecessor);
                assert(fixed[job as int][index as int] < fixed.len());
                assert(own.take(index + 1) =~= shorter.push(predecessor));
                lemma_push_to_set(shorter, predecessor);
            }
            let place = rank[predecessor as usize];
            insert_ascending(&mut list, place);
            assert forall|left: JobId| #[trigger] list@.contains(left) == (left < order@.len()
                && own.take(index + 1).contains(order@[left as int])) by {
                assert(held.contains(left) == (left < order@.len() && shorter.contains(
                    order@[left as int],
                )));
                if left < order@.len() {
                    assert(rank@[order@[left as int] as int] == left);
                }
            }
        }
        assert(own.take(length as int) =~= own);
        let ghost by_predecessor = list@;
        assert(views[job as int] == normals@[job as int]@);
        match &normals[job as usize] {
            NormalizedDeps::Unknown => {
                assert forall|left: JobId| #[trigger] list@.contains(left) == (left < at
                    && waits_for(views, order@, fixed, skipped, left as int, at)) by {
                    if list@.contains(left) {
                        lemma_predecessor_place(fixed, order@, rank@, left, at);
                    }
                }
            },
            NormalizedDeps::Known(accesses) => {
                let ghost known = views[job as int]->Known_0;
                for index in 0..accesses.len()
                    invariant
                        order@.len() <= u32::MAX,
                        views == normal_views(normals@),
                        all_sorted(views),
                        normals@.len() == order@.len(),
                        permutes(order@, order@.len() as int),
                        at == right,
                        right < order@.len(),
                        job == order@[at],
                        skipped == left_out@.dom(),
                        views[job as int] == NormalView::Known(known),
                        known == accesses@.map_values(|access: Access| access@),
                        sorted_accesses(known),
                        ascending(list@),
                        forall|left: JobId| #[trigger]
                            list@.contains(left) == (by_predecessor.contains(left) || exists|
                                place: int,
                            |
                                0 <= place < index && !skipped.contains(
                                    (#[trigger] known[place]).key,
                                ) && next_clash(views, order@, left as int, at, known[place].key)),
                {
                    let access = &accesses[index];
                    let ghost held = list@;
                    let ghost key = access.key@;
                    proof {
                        assert(known[index as int] == access@);
                        assert(accesses_key(views[job as int], key));
                        assert(access.write == writes_in(views[job as int], key)) by {
                            if writes_in(views[job as int], key) {
                                let other = choose|other: int|
                                    0 <= other < known.len() && (#[trigger] known[other]).key == key
                                        && known[other].write;
                                key.before_is_irreflexive();
                                if other < index {
                                    assert(known[other].key.before(known[index as int].key));
                                } else if other > index {
                                    assert(known[index as int].key.before(known[other].key));
                                }
                            }
                            if access.write {
                                assert(known[index as int].key == key
                                    && known[index as int].write);
                            }
                        }
                    }
                    let skip = left_out.contains(&access.key);
                    if !skip {
                        orient_key(normals, order, right, &access.key, access.write, &mut list);
                    }
                    assert forall|left: JobId| #[trigger] list@.contains(left) == (
                    by_predecessor.contains(left) || exists|place: int|
                        0 <= place < index + 1 && !skipped.contains((#[trigger] known[place]).key)
                            && next_clash(views, order@, left as int, at, known[place].key)) by {
                        let mine = exists|place: int|
                            0 <= place < index && !skipped.contains((#[trigger] known[place]).key)
                                && next_clash(views, order@, left as int, at, known[place].key);
                        assert(held.contains(left) == (by_predecessor.contains(left) || mine));
                        if mine {
                            let place = choose|place: int|
                                0 <= place < index && !skipped.contains(
                                    (#[trigger] known[place]).key,
                                ) && next_clash(views, order@, left as int, at, known[place].key);
                            assert(!skipped.contains(known[place].key));
                        }
                        if !skip && next_clash(views, order@, left as int, at, key) {
                            assert(!skipped.contains(known[index as int].key));
                        }
                    }
                }
                assert forall|left: JobId| #[trigger] list@.contains(left) == (left < at
                    && waits_for(views, order@, fixed, skipped, left as int, at)) by {
                    if by_predecessor.contains(left) {
                        lemma_predecessor_place(fixed, order@, rank@, left, at);
                    }
                    if exists|key: KeyView| !skipped.contains(key) && #[trigger]
                        next_clash(views, order@, left as int, at, key) {
                        let key = choose|key: KeyView| !skipped.contains(key) && #[trigger]
                            next_clash(views, order@, left as int, at, key);
                        assert(accesses_key(views[job as int], key));
                        let place = choose|place: int|
                            0 <= place < known.len() && (#[trigger] known[place]).key == key;
                        assert(!skipped.contains(known[place].key));
                    }
                }
            },
        }
        candidates.push(list);
    }
    proof {
        let result = lists(candidates@);
        assert forall|right: int|
            #![trigger result[right]]
            0 <= right < result.len() implies ascending(result[right]) && forall|left: JobId|
            #[trigger]
            result[right].contains(left) == (left < right && waits_for(
                views,
                order@,
                fixed,
                skipped,
                left as int,
                right,
            )) by {
            assert(result[right] == candidates@[right]@);
        }
    }
    candidates
}

proof fn lemma_predecessor_place(
    fixed: Seq<Seq<JobId>>,
    order: Seq<JobId>,
    rank: Seq<u32>,
    left: JobId,
    right: int,
)
    requires
        fixed.len() == order.len(),
        within(order, order.len() as int),
        ranks(order, rank),
        forall|job: int, index: int|
            0 <= job < order.len() && 0 <= index < fixed[job].len() ==> rank[(
            #[trigger] fixed[job][index]) as int] < rank[job],
        0 <= right < order.len(),
        left < order.len(),
        fixed[order[right] as int].contains(order[left as int]),
    ensures
        left < right,
{
    let job = order[right];
    let list = fixed[job as int];
    let index = list.index_of(order[left as int]);
    assert(rank[fixed[job as int][index] as int] < rank[job as int]);
    assert(rank[order[left as int] as int] == left);
    assert(rank[order[right] as int] == right);
}

/// In an order of priority each job comes after its predecessors.
pub proof fn lemma_prioritized_follows(
    predecessors: Seq<Seq<JobId>>,
    worths: Seq<Seq<int>>,
    order: Seq<JobId>,
    rank: Seq<u32>,
    job: int,
    index: int,
)
    requires
        prioritized(predecessors, worths, order),
        ranks(order, rank),
        0 <= job < order.len(),
        0 <= index < predecessors[job].len(),
    ensures
        rank[predecessors[job][index] as int] < rank[job],
        predecessors[job][index] < order.len(),
{
    let at = rank[job] as int;
    let list = predecessors[job];
    let done = order.take(at).to_set();
    assert(order[at] == job);
    assert(best_ready(predecessors, worths, done, order[at]));
    lemma_missing(list, done, list.len() as int);
    assert(done.contains(list[index]));
    assert(order.take(at).contains(list[index]));
    let place = order.take(at).index_of(list[index]);
    assert(order[place] == list[index]);
    assert(rank[order[place] as int] == place);
    assert(best_ready(predecessors, worths, order.take(place).to_set(), order[place]));
}

/// Jobs that access a key in conflicting ways are connected by a path, in the order of priority,
/// unless the key is left out.
pub proof fn conflicts_on_a_key_are_oriented(
    normals: Seq<NormalView>,
    order: Seq<JobId>,
    predecessors: Seq<Seq<JobId>>,
    left_out: Set<KeyView>,
    candidates: Seq<Seq<JobId>>,
    left: int,
    right: int,
    key: KeyView,
)
    requires
        oriented(normals, order, predecessors, left_out, candidates),
        0 <= left < right < order.len() <= u32::MAX,
        !left_out.contains(key),
        accesses_key(normals[order[left] as int], key),
        accesses_key(normals[order[right] as int], key),
        writes_in(normals[order[left] as int], key) || writes_in(
            normals[order[right] as int],
            key,
        ),
    ensures
        reaches(candidates, left, right),
    decreases right - left,
{
    if next_clash(normals, order, left, right, key) {
        assert(candidates[right].contains(left as JobId));
        let index = candidates[right].index_of(left as JobId);
        crate::dag::lemma_reaches_edge(candidates, left, right, index);
    } else {
        let between = choose|between: int|
            left < between < right && writes_in(normals[(#[trigger] order[between]) as int], key);
        let middle = normals[order[between] as int];
        assert(accesses_key(middle, key)) by {
            let accesses = middle->Known_0;
            let index = choose|index: int|
                0 <= index < accesses.len() && (#[trigger] accesses[index]).key == key
                    && accesses[index].write;
            assert(accesses[index].key == key);
        }
        conflicts_on_a_key_are_oriented(
            normals,
            order,
            predecessors,
            left_out,
            candidates,
            left,
            between,
            key,
        );
        conflicts_on_a_key_are_oriented(
            normals,
            order,
            predecessors,
            left_out,
            candidates,
            between,
            right,
            key,
        );
        crate::dag::lemma_reaches_transitive(candidates, left, between, right);
    }
}

/// A path of predecessors is a path in the order of priority.
pub proof fn predecessors_are_oriented(
    normals: Seq<NormalView>,
    order: Seq<JobId>,
    rank: Seq<u32>,
    predecessors: Seq<Seq<JobId>>,
    worths: Seq<Seq<int>>,
    left_out: Set<KeyView>,
    candidates: Seq<Seq<JobId>>,
    from: int,
    to: int,
)
    requires
        oriented(normals, order, predecessors, left_out, candidates),
        prioritized(predecessors, worths, order),
        ranks(order, rank),
        order.len() <= u32::MAX,
        reaches(predecessors, from, to),
    ensures
        0 <= from < order.len(),
        0 <= to < order.len(),
        reaches(candidates, rank[from] as int, rank[to] as int),
    decreases to,
{
    let list = predecessors[to];
    let index = choose|index: int|
        0 <= index < predecessors[to].len() && (#[trigger] predecessors[to][index]) < to && (
        predecessors[to][index] == from || reaches(
            predecessors,
            from,
            predecessors[to][index] as int,
        ));
    let middle = list[index];
    lemma_prioritized_follows(predecessors, worths, order, rank, to, index);
    let l = rank[middle as int];
    let r = rank[to] as int;
    assert(order[l as int] == middle && order[r] == to);
    assert(predecessors[order[r] as int].contains(order[l as int]));
    assert(waits_for(normals, order, predecessors, left_out, l as int, r));
    assert(candidates[r].contains(l));
    let place = candidates[r].index_of(l);
    crate::dag::lemma_reaches_edge(candidates, l as int, r, place);
    if middle != from {
        predecessors_are_oriented(
            normals,
            order,
            rank,
            predecessors,
            worths,
            left_out,
            candidates,
            from,
            middle as int,
        );
        crate::dag::lemma_reaches_transitive(candidates, rank[from] as int, l as int, r);
    }
}

/// The places that a place has to wait for come before it.
pub proof fn lemma_oriented_is_backward(
    normals: Seq<NormalView>,
    order: Seq<JobId>,
    predecessors: Seq<Seq<JobId>>,
    left_out: Set<KeyView>,
    candidates: Seq<Seq<JobId>>,
)
    requires
        oriented(normals, order, predecessors, left_out, candidates),
    ensures
        backward(candidates),
{
    assert forall|to: int, index: int|
        0 <= to < candidates.len() && 0 <= index < candidates[to].len() implies (
    #[trigger] candidates[to][index]) < to by {
        assert(candidates[to].contains(candidates[to][index]));
    }
}

/// What is known of jobs before they are put in an order of priority.
pub struct Setting {
    pub normals: Seq<NormalView>,
    pub candidates: Seq<Seq<JobId>>,
    pub neighbors: Seq<Seq<JobId>>,
    pub predecessors: Seq<Seq<JobId>>,
    pub successors: Seq<Seq<JobId>>,
    pub heat: Map<KeyView, KeyHeat>,
    pub stats: Seq<JobStats>,
}

/// Whether a setting is that of declared jobs.
pub open spec fn setting_of(
    declared: Seq<Seq<DependencyView>>,
    unknown_key: Option<KeyView>,
    setting: Setting,
) -> bool {
    let count = declared.len() as int;
    &&& setting.normals.len() == count
    &&& forall|job: int|
        0 <= job < count ==> normalizes(#[trigger] declared[job], setting.normals[job])
    &&& strictly_after(declared, setting.candidates)
    &&& relaxed_beside(declared, setting.neighbors)
    &&& reduced(setting.candidates, setting.predecessors)
    &&& inverted(setting.predecessors, setting.successors)
    &&& heat_tells(setting.normals, unknown_key, setting.heat, count)
    &&& setting.stats.len() == count
    &&& forall|job: int|
        0 <= job < count ==> stats_tell(
            setting.normals[job],
            setting.heat,
            setting.neighbors[job].len() as int,
            setting.successors[job].len() as int,
            #[trigger] setting.stats[job],
        )
    &&& measured(
        setting.successors,
        setting.stats.map_values(|stats: JobStats| stats.strict_height),
    )
}

/// What is computed of jobs before they are put in an order of priority.
pub struct Prepared {
    pub relaxed_neighbors: Vec<Vec<JobId>>,
    pub fixed_predecessors: Vec<Vec<JobId>>,
    pub fixed_successors: Vec<Vec<JobId>>,
    pub key_heat: KeyMap<KeyHeat>,
    pub stats: Vec<JobStats>,
}

impl Prepared {
    /// Whether this is what a setting says.
    pub open spec fn shows(self, setting: Setting) -> bool {
        &&& lists(self.relaxed_neighbors@) == setting.neighbors
        &&& lists(self.fixed_predecessors@) == setting.predecessors
        &&& lists(self.fixed_successors@) == setting.successors
        &&& self.key_heat@ == setting.heat
        &&& self.stats@ == setting.stats
        &&& self.relaxed_neighbors@.len() == setting.normals.len()
        &&& self.fixed_predecessors@.len() == setting.normals.len()
        &&& self.fixed_successors@.len() == setting.normals.len()
        &&& self.stats@.len() == setting.normals.len()
        &&& all_sorted(setting.normals)
        &&& heat_covers(setting.normals, setting.heat)
        &&& proper(setting.predecessors)
        &&& backward(setting.predecessors)
    }
}

/// Relates jobs, and collects what is to be known of each.
pub(crate) fn prepare(
    Ghost(declared): Ghost<Seq<Seq<DependencyView>>>,
    normals: &[NormalizedDeps],
    unknown_key: Option<&Key>,
) -> (result: (Prepared, Ghost<Setting>))
    requires
        normals@.len() <= u32::MAX,
        all_normalized(declared, normals@),
    ensures
        result.1@.normals == normal_views(normals@),
        setting_of(
            declared,
            match unknown_key {
                Some(key) => Some(key@),
                None => None,
            },
            result.1@,
        ),
        result.0.shows(result.1@),
{
    let ghost views = normal_views(normals@);
    let (strict_candidates, relaxed_neighbors) = relate_jobs(Ghost(declared), normals);
    let ghost candidates = lists(strict_candidates@);
    proof {
        lemma_strict_is_backward(declared, candidates);
        assert forall|job: int| 0 <= job < views.len() implies ((#[trigger] views[job]) matches
            NormalView::Known(accesses) ==> sorted_accesses(accesses)) by {
            assert(normalizes(declared[job], normals@[job]@));
        }
    }
    let fixed_predecessors = reduce_strict(&strict_candidates);
    proof {
        lemma_reduced_is_proper(candidates, lists(fixed_predecessors@));
    }
    let fixed_successors = build_successors(&fixed_predecessors);
    proof {
        lemma_inverted_is_forward(lists(fixed_predecessors@), lists(fixed_successors@));
    }
    let key_heat = build_key_heat(normals, unknown_key);
    let ghost unknown: Option<KeyView> = match unknown_key {
        Some(key) => Some(key@),
        None => None,
    };
    proof {
        lemma_heat_covers(views, unknown, key_heat@);
    }
    let stats = build_job_stats(normals, &relaxed_neighbors, &fixed_successors, &key_heat);
    let ghost setting = Setting {
        normals: views,
        candidates,
        neighbors: lists(relaxed_neighbors@),
        predecessors: lists(fixed_predecessors@),
        successors: lists(fixed_successors@),
        heat: key_heat@,
        stats: stats@,
    };
    proof {
        assert forall|job: int| 0 <= job < declared.len() implies normalizes(
            #[trigger] declared[job],
            views[job],
        ) by {
            assert(views[job] == normals@[job]@);
        }
        assert forall|job: int| 0 <= job < declared.len() implies stats_tell(
            setting.normals[job],
            setting.heat,
            setting.neighbors[job].len() as int,
            setting.successors[job].len() as int,
            #[trigger] setting.stats[job],
        ) by {
            assert(setting.neighbors[job] == relaxed_neighbors@[job]@);
            assert(setting.successors[job] == fixed_successors@[job]@);
        }
    }
    (
        Prepared { relaxed_neighbors, fixed_predecessors, fixed_successors, key_heat, stats },
        Ghost(setting),
    )
}

/// How jobs are put in an order of priority, and which places of it wait for which. All lists but
/// `order` are of places, and `rank` tells the place of each job.
pub struct Orientation {
    pub order: Seq<JobId>,
    pub rank: Seq<u32>,
    pub candidates: Seq<Seq<JobId>>,
    pub before: Seq<Seq<JobId>>,
    pub after: Seq<Seq<JobId>>,
    pub heights: Seq<u32>,
}

/// Whether an orientation is that of a setting, by what each job is worth, with some keys left out.
pub open spec fn orients(
    setting: Setting,
    worths: Seq<Seq<int>>,
    left_out: Set<KeyView>,
    orientation: Orientation,
) -> bool {
    &&& prioritized(setting.predecessors, worths, orientation.order)
    &&& permutes(orientation.order, setting.normals.len() as int)
    &&& ranks(orientation.order, orientation.rank)
    &&& oriented(
        setting.normals,
        orientation.order,
        setting.predecessors,
        left_out,
        orientation.candidates,
    )
    &&& reduced(orientation.candidates, orientation.before)
    &&& inverted(orientation.before, orientation.after)
    &&& measured(orientation.after, orientation.heights)
}

/// The lists of places of an orientation.
pub struct Oriented {
    pub before: Vec<Vec<JobId>>,
    pub after: Vec<Vec<JobId>>,
    pub heights: Vec<u32>,
}

/// Orients conflicts in an order of priority.
pub(crate) fn orient<V>(
    Ghost(setting): Ghost<Setting>,
    Ghost(worths): Ghost<Seq<Seq<int>>>,
    normals: &[NormalizedDeps],
    prepared: &Prepared,
    order: &[JobId],
    rank: &[u32],
    left_out: &KeyMap<V>,
) -> (result: (Oriented, Ghost<Orientation>))
    requires
        normals@.len() <= u32::MAX,
        setting.normals == normal_views(normals@),
        prepared.shows(setting),
        prioritized(setting.predecessors, worths, order@),
        permutes(order@, normals@.len() as int),
        ranks(order@, rank@),
    ensures
        orients(setting, worths, left_out@.dom(), result.1@),
        result.1@.order == order@,
        result.1@.rank == rank@,
        result.1@.before == lists(result.0.before@),
        result.1@.after == lists(result.0.after@),
        result.1@.heights == result.0.heights@,
        result.0.before@.len() == normals@.len(),
        result.0.after@.len() == normals@.len(),
        result.0.heights@.len() == normals@.len(),
        proper(result.1@.before),
        backward(result.1@.before),
        forward(result.1@.after),
        forall|place: int|
            0 <= place < normals@.len() ==> #[trigger] result.0.heights@[place] < normals@.len(),
{
    proof {
        assert forall|job: int, index: int|
            0 <= job < order@.len() && 0 <= index
                < setting.predecessors[job].len() implies rank@[(
        #[trigger] setting.predecessors[job][index]) as int] < rank@[job] by {
            lemma_prioritized_follows(
                setting.predecessors,
                worths,
                order@,
                rank@,
                job,
                index,
            );
        }
    }
    let candidates = orient_conflicts(
        normals,
        &prepared.fixed_predecessors,
        order,
        rank,
        left_out,
    );
    proof {
        lemma_oriented_is_backward(
            setting.normals,
            order@,
            setting.predecessors,
            left_out@.dom(),
            lists(candidates@),
        );
    }
    let before = reduce_strict(&candidates);
    proof {
        lemma_reduced_is_proper(lists(candidates@), lists(before@));
    }
    let after = build_successors(&before);
    proof {
        lemma_inverted_is_forward(lists(before@), lists(after@));
    }
    let heights = compute_strict_heights(&after);
    let ghost orientation = Orientation {
        order: order@,
        rank: rank@,
        candidates: lists(candidates@),
        before: lists(before@),
        after: lists(after@),
        heights: heights@,
    };
    (Oriented { before, after, heights }, Ghost(orientation))
}

/// Whether two jobs access a key, and one of them writes it.
pub open spec fn clash_on(left: NormalView, right: NormalView, key: KeyView) -> bool {
    &&& accesses_key(left, key)
    &&& accesses_key(right, key)
    &&& writes_in(left, key) || writes_in(right, key)
}

/// Jobs that are related, but not strictly, access a key in conflicting ways.
pub proof fn lemma_relaxed_jobs_clash(
    left: Seq<DependencyView>,
    right: Seq<DependencyView>,
    left_normal: NormalView,
    right_normal: NormalView,
) -> (key: KeyView)
    requires
        consistent(left),
        consistent(right),
        normalizes(left, left_normal),
        normalizes(right, right_normal),
        relation_of(left, right) == Relation::Relaxed,
    ensures
        clash_on(left_normal, right_normal, key),
{
    normal_forms_are_related_as_jobs(left, right, left_normal, right_normal);
    let ls = left_normal->Known_0;
    let rs = right_normal->Known_0;
    let (l, r) = choose|l: int, r: int|
        0 <= l < ls.len() && 0 <= r < rs.len() && (#[trigger] ls[l]).key == (#[trigger] rs[r]).key
            && crate::normalize::shared_key_relation(
            ls[l].order,
            rs[r].order,
            ls[l].write || rs[r].write,
        ) == Relation::Relaxed;
    let key = ls[l].key;
    assert(accesses_key(left_normal, key));
    assert(rs[r].key == key);
    assert(accesses_key(right_normal, key));
    key
}

/// Strictly related jobs are connected by a path, from the one that is declared first to the other,
/// in every order of priority.
pub proof fn strict_jobs_are_oriented(
    declared: Seq<Seq<DependencyView>>,
    unknown_key: Option<KeyView>,
    setting: Setting,
    worths: Seq<Seq<int>>,
    left_out: Set<KeyView>,
    orientation: Orientation,
    left: int,
    right: int,
)
    requires
        setting_of(declared, unknown_key, setting),
        orients(setting, worths, left_out, orientation),
        0 <= left < right < declared.len() <= u32::MAX,
        relation_of(declared[left], declared[right]) == Relation::Strict,
    ensures
        reaches(
            orientation.before,
            orientation.rank[left] as int,
            orientation.rank[right] as int,
        ),
{
    strict_jobs_are_connected(
        declared,
        setting.candidates,
        setting.predecessors,
        left,
        right,
    );
    predecessors_are_oriented(
        setting.normals,
        orientation.order,
        orientation.rank,
        setting.predecessors,
        worths,
        left_out,
        orientation.candidates,
        left,
        right,
    );
    lemma_oriented_is_backward(
        setting.normals,
        orientation.order,
        setting.predecessors,
        left_out,
        orientation.candidates,
    );
    reduction_keeps_paths(
        orientation.candidates,
        orientation.before,
        orientation.rank[left] as int,
        orientation.rank[right] as int,
    );
}

/// Jobs that access a key in conflicting ways are connected by a path, one way or the other, unless
/// the key is left out.
pub proof fn clashing_jobs_are_oriented(
    setting: Setting,
    worths: Seq<Seq<int>>,
    left_out: Set<KeyView>,
    orientation: Orientation,
    left: int,
    right: int,
    key: KeyView,
)
    requires
        orients(setting, worths, left_out, orientation),
        0 <= left < setting.normals.len() <= u32::MAX,
        0 <= right < setting.normals.len(),
        left != right,
        !left_out.contains(key),
        clash_on(setting.normals[left], setting.normals[right], key),
    ensures
        ({
            let l = orientation.rank[left] as int;
            let r = orientation.rank[right] as int;
            reaches(orientation.before, l, r) || reaches(orientation.before, r, l)
        }),
{
    let order = orientation.order;
    let l = orientation.rank[left] as int;
    let r = orientation.rank[right] as int;
    assert(order[l] == left && order[r] == right);
    let (first, second) = if l < r {
        (l, r)
    } else {
        (r, l)
    };
    conflicts_on_a_key_are_oriented(
        setting.normals,
        order,
        setting.predecessors,
        left_out,
        orientation.candidates,
        first,
        second,
        key,
    );
    lemma_oriented_is_backward(
        setting.normals,
        order,
        setting.predecessors,
        left_out,
        orientation.candidates,
    );
    reduction_keeps_paths(orientation.candidates, orientation.before, first, second);
}

} // verus!

//! Graphs whose edges lead from a job to jobs that are declared later.

use crate::bits::{bit, bit_or, bit_set, bit_test, lemma_no_bits};
use vstd::prelude::*;

verus! {

pub type JobId = u32;

/// The contents of a list of lists.
pub open spec fn lists(lists: Seq<Vec<JobId>>) -> Seq<Seq<JobId>> {
    lists.map_values(|list: Vec<JobId>| list@)
}

/// Whether each value of a list is smaller than those after it.
pub open spec fn ascending(list: Seq<JobId>) -> bool {
    forall|left: int, right: int|
        0 <= left < right < list.len() ==> #[trigger] list[left] < #[trigger] list[right]
}

/// Whether each job's predecessors come before it.
pub open spec fn backward(predecessors: Seq<Seq<JobId>>) -> bool {
    forall|to: int, index: int|
        0 <= to < predecessors.len() && 0 <= index < predecessors[to].len() ==> (
        #[trigger] predecessors[to][index]) < to
}

/// Whether a path leads from one job to another.
pub open spec fn reaches(predecessors: Seq<Seq<JobId>>, from: int, to: int) -> bool
    decreases to,
{
    0 <= to < predecessors.len() && exists|index: int|
        0 <= index < predecessors[to].len() && (#[trigger] predecessors[to][index]) < to && (
        predecessors[to][index] == from || reaches(
            predecessors,
            from,
            predecessors[to][index] as int,
        ))
}

/// A path goes forward.
pub proof fn lemma_reaches_forward(predecessors: Seq<Seq<JobId>>, from: int, to: int)
    requires
        reaches(predecessors, from, to),
    ensures
        0 <= from < to < predecessors.len(),
    decreases to,
{
    let index = choose|index: int|
        0 <= index < predecessors[to].len() && (#[trigger] predecessors[to][index]) < to && (
        predecessors[to][index] == from || reaches(
            predecessors,
            from,
            predecessors[to][index] as int,
        ));
    if predecessors[to][index] != from {
        lemma_reaches_forward(predecessors, from, predecessors[to][index] as int);
    }
}

/// An edge is a path.
pub proof fn lemma_reaches_edge(predecessors: Seq<Seq<JobId>>, from: int, to: int, index: int)
    requires
        0 <= to < predecessors.len(),
        0 <= index < predecessors[to].len(),
        predecessors[to][index] < to,
        predecessors[to][index] == from || reaches(
            predecessors,
            from,
            predecessors[to][index] as int,
        ),
    ensures
        reaches(predecessors, from, to),
{
}

/// Two paths, one after the other, are a path.
pub proof fn lemma_reaches_transitive(
    predecessors: Seq<Seq<JobId>>,
    from: int,
    middle: int,
    to: int,
)
    requires
        reaches(predecessors, from, middle),
        reaches(predecessors, middle, to),
    ensures
        reaches(predecessors, from, to),
    decreases to,
{
    let index = choose|index: int|
        0 <= index < predecessors[to].len() && (#[trigger] predecessors[to][index]) < to && (
        predecessors[to][index] == middle || reaches(
            predecessors,
            middle,
            predecessors[to][index] as int,
        ));
    if predecessors[to][index] != middle {
        lemma_reaches_transitive(predecessors, from, middle, predecessors[to][index] as int);
    }
    lemma_reaches_edge(predecessors, from, to, index);
}

/// Whether the candidate at `index` is not implied by one after it in the list: it is neither equal
/// to such a candidate, nor does a path lead from it to one.
pub open spec fn essential(candidates: Seq<Seq<JobId>>, to: int, index: int) -> bool {
    &&& 0 <= index < candidates[to].len()
    &&& forall|later: int|
        index < later < candidates[to].len() ==> candidates[to][index]
            != #[trigger] candidates[to][later] && !reaches(
            candidates,
            candidates[to][index] as int,
            candidates[to][later] as int,
        )
}

/// Whether `job` is among the essential candidates of `to`.
pub open spec fn essential_job(candidates: Seq<Seq<JobId>>, to: int, job: JobId) -> bool {
    exists|index: int| #[trigger] essential(candidates, to, index) && candidates[to][index] == job
}

/// Whether `predecessors` holds the essential candidates of each job, in order.
pub open spec fn reduced(
    candidates: Seq<Seq<JobId>>,
    predecessors: Seq<Seq<JobId>>,
) -> bool {
    &&& predecessors.len() == candidates.len()
    &&& forall|to: int|
        #![trigger predecessors[to]]
        0 <= to < candidates.len() ==> ascending(predecessors[to]) && forall|job: JobId| #[trigger]
            predecessors[to].contains(job) == essential_job(candidates, to, job)
}

/// Inserts a value into an ascending list, unless the list holds it already.
pub fn insert_ascending(list: &mut Vec<JobId>, value: JobId)
    requires
        ascending(old(list)@),
    ensures
        ascending(final(list)@),
        forall|other: JobId| #[trigger]
            final(list)@.contains(other) == (old(list)@.contains(other) || other == value),
        final(list)@.len() <= old(list)@.len() + 1,
        !old(list)@.contains(value) ==> final(list)@.len() == old(list)@.len() + 1,
{
    let ghost before = list@;
    let mut index: usize = 0;
    while index < list.len() && list[index] < value
        invariant
            index <= list.len(),
            list@ == before,
            forall|at: int| 0 <= at < index ==> before[at] < value,
        decreases list.len() - index,
    {
        index += 1;
    }
    if index < list.len() && list[index] == value {
        assert(before[index as int] == value);
        return ;
    }
    list.insert(index, value);
    let ghost after = list@;
    assert forall|other: JobId| #[trigger] after.contains(other) == (before.contains(other) || other
        == value) by {
        if before.contains(other) {
            let at = before.index_of(other);
            assert(after[if at < index {
                at
            } else {
                at + 1
            }] == other);
        }
        if other == value {
            assert(after[index as int] == other);
        }
        if after.contains(other) && other != value {
            let at = after.index_of(other);
            assert(before[if at < index {
                at
            } else {
                at - 1
            }] == other);
        }
    }
}

/// Every candidate is, or leads to, an essential one that is not before it in the list.
proof fn lemma_essential_covers(candidates: Seq<Seq<JobId>>, to: int, index: int) -> (covering:
    int)
    requires
        backward(candidates),
        0 <= to < candidates.len(),
        0 <= index < candidates[to].len(),
    ensures
        index <= covering,
        essential(candidates, to, covering),
        candidates[to][covering] == candidates[to][index] || reaches(
            candidates,
            candidates[to][index] as int,
            candidates[to][covering] as int,
        ),
    decreases candidates[to].len() - index,
{
    if essential(candidates, to, index) {
        index
    } else {
        let later = choose|later: int|
            index < later < candidates[to].len() && !(candidates[to][index]
                != #[trigger] candidates[to][later] && !reaches(
                candidates,
                candidates[to][index] as int,
                candidates[to][later] as int,
            ));
        let covering = lemma_essential_covers(candidates, to, later);
        if candidates[to][index] != candidates[to][later] && candidates[to][covering]
            != candidates[to][later] {
            lemma_reaches_transitive(
                candidates,
                candidates[to][index] as int,
                candidates[to][later] as int,
                candidates[to][covering] as int,
            );
        }
        covering
    }
}

/// Reducing a graph keeps its paths.
pub proof fn reduction_keeps_paths(
    candidates: Seq<Seq<JobId>>,
    predecessors: Seq<Seq<JobId>>,
    from: int,
    to: int,
)
    requires
        backward(candidates),
        reduced(candidates, predecessors),
        0 <= to < candidates.len(),
    ensures
        reaches(predecessors, from, to) == reaches(candidates, from, to),
    decreases to,
{
    lemma_partial_reduction(candidates, predecessors, from, to, to);
}

proof fn lemma_partial_reduction(
    candidates: Seq<Seq<JobId>>,
    predecessors: Seq<Seq<JobId>>,
    from: int,
    to: int,
    until: int,
)
    requires
        backward(candidates),
        predecessors.len() == candidates.len(),
        forall|job: int|
            #![trigger predecessors[job]]
            0 <= job <= until ==> forall|value: JobId| #[trigger]
                predecessors[job].contains(value) == essential_job(candidates, job, value),
        0 <= to <= until < candidates.len(),
    ensures
        reaches(predecessors, from, to) == reaches(candidates, from, to),
    decreases to,
{
    if reaches(predecessors, from, to) {
        let index = choose|index: int|
            0 <= index < predecessors[to].len() && (#[trigger] predecessors[to][index]) < to && (
            predecessors[to][index] == from || reaches(
                predecessors,
                from,
                predecessors[to][index] as int,
            ));
        let job = predecessors[to][index];
        assert(predecessors[to].contains(job));
        let at = choose|at: int| #[trigger]
            essential(candidates, to, at) && candidates[to][at] == job;
        if job != from {
            lemma_partial_reduction(candidates, predecessors, from, job as int, until);
        }
        lemma_reaches_edge(candidates, from, to, at);
    }
    if reaches(candidates, from, to) {
        let index = choose|index: int|
            0 <= index < candidates[to].len() && (#[trigger] candidates[to][index]) < to && (
            candidates[to][index] == from || reaches(
                candidates,
                from,
                candidates[to][index] as int,
            ));
        let covering = lemma_essential_covers(candidates, to, index);
        let job = candidates[to][covering];
        assert(essential_job(candidates, to, job));
        assert(predecessors[to].contains(job));
        let at = predecessors[to].index_of(job);
        if job != from {
            if candidates[to][index] != from && candidates[to][covering] != candidates[to][index] {
                lemma_reaches_transitive(
                    candidates,
                    from,
                    candidates[to][index] as int,
                    job as int,
                );
            }
            assert(reaches(candidates, from, job as int));
            lemma_partial_reduction(candidates, predecessors, from, job as int, until);
        }
        lemma_reaches_edge(predecessors, from, to, at);
    }
}

/// In a reduced graph no edge repeats a longer path, provided that the candidates were ascending.
pub proof fn reduction_drops_implied_edges(
    candidates: Seq<Seq<JobId>>,
    predecessors: Seq<Seq<JobId>>,
    to: int,
    left: int,
    right: int,
)
    requires
        backward(candidates),
        reduced(candidates, predecessors),
        0 <= to < candidates.len(),
        ascending(candidates[to]),
        0 <= left < predecessors[to].len(),
        0 <= right < predecessors[to].len(),
    ensures
        !reaches(predecessors, predecessors[to][left] as int, predecessors[to][right] as int),
{
    let first = predecessors[to][left];
    let second = predecessors[to][right];
    assert(predecessors[to].contains(first));
    assert(predecessors[to].contains(second));
    let l = choose|at: int| #[trigger] essential(candidates, to, at) && candidates[to][at] == first;
    let r = choose|at: int| #[trigger]
        essential(candidates, to, at) && candidates[to][at] == second;
    if reaches(predecessors, first as int, second as int) {
        lemma_reaches_forward(predecessors, first as int, second as int);
        reduction_keeps_paths(candidates, predecessors, first as int, second as int);
        assert(l < r);
        assert(candidates[to][r] == second);
    }
}

/// Drops the edges that longer paths imply. The predecessors of each job are tried from last to
/// first.
pub fn reduce_strict(strict_candidates: &[Vec<JobId>]) -> (predecessors: Vec<Vec<JobId>>)
    requires
        backward(lists(strict_candidates@)),
    ensures
        reduced(lists(strict_candidates@), lists(predecessors@)),
{
    let ghost candidates = lists(strict_candidates@);
    let len: usize = strict_candidates.len();
    let words: usize = len / 64 + 1;
    let mut predecessors: Vec<Vec<JobId>> = Vec::new();
    let mut ancestors: Vec<Vec<u64>> = Vec::new();

    for right in 0..len
        invariant
            candidates == lists(strict_candidates@),
            backward(candidates),
            len == candidates.len(),
            words == len / 64 + 1,
            predecessors.len() == right,
            ancestors.len() == right,
            forall|to: int|
                #![trigger predecessors@[to]]
                0 <= to < right ==> ascending(predecessors@[to]@) && forall|job: JobId| #[trigger]
                    predecessors@[to]@.contains(job) == essential_job(candidates, to, job),
            forall|to: int|
                #![trigger ancestors@[to]]
                0 <= to < right ==> ancestors@[to]@.len() == words && forall|from: int|
                    0 <= from < len ==> #[trigger] bit(ancestors@[to]@, from) == reaches(
                        candidates,
                        from,
                        to,
                    ),
    {
        let ghost to = right as int;
        let ghost own = candidates[to];
        assert(own == strict_candidates@[to]@);
        let mut selected: Vec<JobId> = Vec::new();
        let mut remaining: usize = strict_candidates[right].len();
        while remaining > 0
            invariant
                candidates == lists(strict_candidates@),
                backward(candidates),
                to == right,
                0 <= to < candidates.len(),
                own == candidates[to],
                own == strict_candidates@[to]@,
                len == candidates.len(),
                words == len / 64 + 1,
                ancestors.len() == right,
                forall|to: int|
                    #![trigger ancestors@[to]]
                    0 <= to < right ==> ancestors@[to]@.len() == words && forall|from: int|
                        0 <= from < len ==> #[trigger] bit(ancestors@[to]@, from) == reaches(
                            candidates,
                            from,
                            to,
                        ),
                remaining <= own.len(),
                ascending(selected@),
                forall|job: JobId| #[trigger]
                    selected@.contains(job) == (exists|at: int|
                        remaining <= at && #[trigger] essential(candidates, to, at) && own[at]
                            == job),
            decreases remaining,
        {
            let ghost before = selected@;
            remaining -= 1;
            let ghost current = remaining as int;
            let candidate = strict_candidates[right][remaining];
            assert(candidate == own[current]);
            assert(candidates[to][current] < to);
            let mut redundant = false;
            let mut index: usize = 0;
            while index < selected.len() && !redundant
                invariant
                    to == right,
                    0 <= to < candidates.len(),
                    candidate < to,
                    len == candidates.len(),
                    words == len / 64 + 1,
                    ancestors.len() == right,
                    selected@ == before,
                    index <= before.len(),
                    backward(candidates),
                    own == candidates[to],
                    forall|job: JobId| #[trigger]
                        before.contains(job) == (exists|at: int|
                            current < at && #[trigger] essential(candidates, to, at) && own[at]
                                == job),
                    forall|to: int|
                        #![trigger ancestors@[to]]
                        0 <= to < right ==> ancestors@[to]@.len() == words && forall|from: int|
                            0 <= from < len ==> #[trigger] bit(ancestors@[to]@, from) == reaches(
                                candidates,
                                from,
                                to,
                            ),
                    redundant ==> exists|at: int|
                        0 <= at < before.len() && (candidate == #[trigger] before[at] || reaches(
                            candidates,
                            candidate as int,
                            before[at] as int,
                        )),
                    !redundant ==> forall|at: int|
                        0 <= at < index ==> candidate != #[trigger] before[at] && !reaches(
                            candidates,
                            candidate as int,
                            before[at] as int,
                        ),
                decreases before.len() - index, (if redundant { 0int } else { 1int }),
            {
                let chosen = selected[index];
                proof {
                    assert(before.contains(chosen));
                    let at = choose|at: int|
                        current < at && #[trigger] essential(candidates, to, at) && own[at]
                            == chosen;
                    assert(candidates[to][at] < to);
                    assert(bit(ancestors@[chosen as int]@, candidate as int) == reaches(
                        candidates,
                        candidate as int,
                        chosen as int,
                    ));
                }
                if chosen == candidate || bit_test(&ancestors[chosen as usize], candidate as usize) {
                    assert(candidate == before[index as int] || reaches(
                        candidates,
                        candidate as int,
                        before[index as int] as int,
                    ));
                    redundant = true;
                } else {
                    index += 1;
                }
            }
            proof {
                if redundant {
                    let at = choose|at: int|
                        0 <= at < before.len() && (candidate == #[trigger] before[at] || reaches(
                            candidates,
                            candidate as int,
                            before[at] as int,
                        ));
                    assert(before.contains(before[at]));
                    let later = choose|later: int|
                        current < later && #[trigger] essential(candidates, to, later) && own[later]
                            == before[at];
                    assert(candidates[to][later] == before[at]);
                    assert(!essential(candidates, to, current));
                } else {
                    assert forall|later: int| current < later < own.len() implies candidate
                        != #[trigger] candidates[to][later] && !reaches(
                        candidates,
                        candidate as int,
                        candidates[to][later] as int,
                    ) by {
                        let covering = lemma_essential_covers(candidates, to, later);
                        let job = candidates[to][covering];
                        assert(before.contains(job));
                        let at = before.index_of(job);
                        assert(before[at] == job);
                        if reaches(candidates, candidate as int, candidates[to][later] as int)
                            && job != candidates[to][later] {
                            lemma_reaches_transitive(
                                candidates,
                                candidate as int,
                                candidates[to][later] as int,
                                job as int,
                            );
                        }
                    }
                    assert(essential(candidates, to, current));
                }
            }
            if !redundant {
                insert_ascending(&mut selected, candidate);
            }
            assert forall|job: JobId| #[trigger] selected@.contains(job) == (exists|at: int|
                current <= at && #[trigger] essential(candidates, to, at) && own[at] == job) by {
                if before.contains(job) {
                    let at = choose|at: int|
                        current < at && #[trigger] essential(candidates, to, at) && own[at] == job;
                    assert(essential(candidates, to, at) && own[at] == job);
                }
                if exists|at: int|
                    current <= at && #[trigger] essential(candidates, to, at) && own[at] == job {
                    let at = choose|at: int|
                        current <= at && #[trigger] essential(candidates, to, at) && own[at] == job;
                    if at > current {
                        assert(before.contains(job));
                    }
                }
            }
        }
        assert forall|job: JobId| #[trigger] selected@.contains(job) == essential_job(
            candidates,
            to,
            job,
        ) by {
            if essential_job(candidates, to, job) {
                let at = choose|at: int| #[trigger]
                    essential(candidates, to, at) && candidates[to][at] == job;
                assert(0 <= at && essential(candidates, to, at) && own[at] == job);
            }
        }

        let mut own_ancestors: Vec<u64> = Vec::new();
        own_ancestors.resize(words, 0u64);
        assert forall|from: int| 0 <= from < 64 * words implies !#[trigger] bit(
            own_ancestors@,
            from,
        ) by {
            lemma_no_bits(own_ancestors@, from);
        }
        for index in 0..selected.len()
            invariant
                to == right,
                0 <= to < candidates.len(),
                backward(candidates),
                len == candidates.len(),
                words == len / 64 + 1,
                ancestors.len() == right,
                own_ancestors@.len() == words,
                forall|job: JobId| #[trigger]
                    selected@.contains(job) == essential_job(candidates, to, job),
                forall|to: int|
                    #![trigger ancestors@[to]]
                    0 <= to < right ==> ancestors@[to]@.len() == words && forall|from: int|
                        0 <= from < len ==> #[trigger] bit(ancestors@[to]@, from) == reaches(
                            candidates,
                            from,
                            to,
                        ),
                forall|from: int|
                    0 <= from < len ==> #[trigger] bit(own_ancestors@, from) == exists|at: int|
                        0 <= at < index && (from == #[trigger] selected@[at] || reaches(
                            candidates,
                            from,
                            selected@[at] as int,
                        )),
        {
            let ghost before = own_ancestors@;
            let predecessor = selected[index];
            proof {
                assert(selected@.contains(predecessor));
                let at = choose|at: int| #[trigger]
                    essential(candidates, to, at) && candidates[to][at] == predecessor;
                assert(candidates[to][at] < to);
            }
            bit_set(&mut own_ancestors, predecessor as usize);
            bit_or(&mut own_ancestors, &ancestors[predecessor as usize]);
            assert forall|from: int| 0 <= from < len implies #[trigger] bit(own_ancestors@, from)
                == exists|at: int|
                0 <= at < index + 1 && (from == #[trigger] selected@[at] || reaches(
                    candidates,
                    from,
                    selected@[at] as int,
                )) by {
                assert(bit(ancestors@[predecessor as int]@, from) == reaches(
                    candidates,
                    from,
                    predecessor as int,
                ));
                assert(selected@[index as int] == predecessor);
                assert(bit(before, from) == exists|at: int|
                    0 <= at < index && (from == #[trigger] selected@[at] || reaches(
                        candidates,
                        from,
                        selected@[at] as int,
                    )));
            }
        }
        assert forall|from: int| 0 <= from < len implies #[trigger] bit(own_ancestors@, from)
            == reaches(candidates, from, to) by {
            if bit(own_ancestors@, from) {
                let at = choose|at: int|
                    0 <= at < selected@.len() && (from == #[trigger] selected@[at] || reaches(
                        candidates,
                        from,
                        selected@[at] as int,
                    ));
                assert(selected@.contains(selected@[at]));
                let index = choose|index: int| #[trigger]
                    essential(candidates, to, index) && candidates[to][index] == selected@[at];
                lemma_reaches_edge(candidates, from, to, index);
            }
            if reaches(candidates, from, to) {
                let index = choose|index: int|
                    0 <= index < candidates[to].len() && (#[trigger] candidates[to][index]) < to && (
                    candidates[to][index] == from || reaches(
                        candidates,
                        from,
                        candidates[to][index] as int,
                    ));
                let covering = lemma_essential_covers(candidates, to, index);
                let job = candidates[to][covering];
                assert(selected@.contains(job));
                let at = selected@.index_of(job);
                if from != candidates[to][index] && job != candidates[to][index] {
                    lemma_reaches_transitive(
                        candidates,
                        from,
                        candidates[to][index] as int,
                        job as int,
                    );
                }
                assert(from == selected@[at] || reaches(candidates, from, selected@[at] as int));
            }
        }
        predecessors.push(selected);
        ancestors.push(own_ancestors);
    }
    proof {
        let result = lists(predecessors@);
        assert forall|to: int|
            #![trigger result[to]]
            0 <= to < candidates.len() implies ascending(result[to]) && forall|job: JobId| #[trigger]
            result[to].contains(job) == essential_job(candidates, to, job) by {
            assert(result[to] == predecessors@[to]@);
        }
    }
    predecessors
}

/// Whether each predecessor is one of the jobs, and occurs once.
pub open spec fn proper(predecessors: Seq<Seq<JobId>>) -> bool {
    forall|to: int|
        #![trigger predecessors[to]]
        0 <= to < predecessors.len() ==> ascending(predecessors[to]) && forall|index: int|
            0 <= index < predecessors[to].len() ==> (#[trigger] predecessors[to][index])
                < predecessors.len()
}

/// Whether `successors` holds, in order, for each job the jobs that it is a predecessor of.
pub open spec fn inverted(
    predecessors: Seq<Seq<JobId>>,
    successors: Seq<Seq<JobId>>,
) -> bool {
    &&& successors.len() == predecessors.len()
    &&& forall|from: int|
        #![trigger successors[from]]
        0 <= from < successors.len() ==> ascending(successors[from]) && forall|to: JobId|
            #[trigger]
            successors[from].contains(to) == (to < predecessors.len()
                && predecessors[to as int].contains(from as JobId))
}

/// The jobs that each job is a predecessor of.
pub fn build_successors(predecessors: &[Vec<JobId>]) -> (successors: Vec<Vec<JobId>>)
    requires
        predecessors@.len() <= u32::MAX,
        proper(lists(predecessors@)),
    ensures
        inverted(lists(predecessors@), lists(successors@)),
{
    let ghost edges = lists(predecessors@);
    let len: usize = predecessors.len();
    let mut successors: Vec<Vec<JobId>> = Vec::new();
    for job in 0..len
        invariant
            successors.len() == job,
            forall|from: int|
                0 <= from < job ==> (#[trigger] successors@[from])@ == Seq::<JobId>::empty(),
    {
        successors.push(Vec::new());
    }
    for job in 0..len
        invariant
            edges == lists(predecessors@),
            proper(edges),
            len == edges.len(),
            len <= u32::MAX,
            successors.len() == len,
            forall|from: int|
                #![trigger successors@[from]]
                0 <= from < len ==> ascending(successors@[from]@) && forall|to: JobId| #[trigger]
                    successors@[from]@.contains(to) == (to < job && edges[to as int].contains(
                        from as JobId,
                    )),
    {
        let ghost own = edges[job as int];
        assert(own == predecessors@[job as int]@);
        let degree: usize = predecessors[job].len();
        for index in 0..degree
            invariant
                edges == lists(predecessors@),
                proper(edges),
                len == edges.len(),
                len <= u32::MAX,
                job < len,
                own == edges[job as int],
                own == predecessors@[job as int]@,
                degree == own.len(),
                successors.len() == len,
                forall|from: int|
                    #![trigger successors@[from]]
                    0 <= from < len ==> ascending(successors@[from]@) && forall|to: JobId|
                        #[trigger]
                        successors@[from]@.contains(to) == (to < job && edges[to as int].contains(
                            from as JobId,
                        ) || to == job && own.take(index as int).contains(from as JobId)),
        {
            let ghost before = successors@;
            let predecessor = predecessors[job][index];
            let ghost at = predecessor as int;
            assert(edges[job as int][index as int] == predecessor);
            assert forall|place: int| 0 <= place < before[at]@.len() implies #[trigger]
                before[at]@[place] < job by {
                assert(before[at]@.contains(before[at]@[place]));
                if own.take(index as int).contains(predecessor) {
                    let earlier = own.take(index as int).index_of(predecessor);
                    assert(own[earlier] == predecessor);
                }
            }
            successors[predecessor as usize].push(job as JobId);
            assert forall|from: int|
                #![trigger successors@[from]]
                0 <= from < len implies ascending(successors@[from]@) && forall|to: JobId|
                #[trigger]
                successors@[from]@.contains(to) == (to < job && edges[to as int].contains(
                    from as JobId,
                ) || to == job && own.take(index + 1).contains(from as JobId)) by {
                let own_before = own.take(index as int);
                let own_after = own.take(index + 1);
                assert(own_after =~= own_before.push(predecessor));
                assert(own_after.contains(from as JobId) == (own_before.contains(from as JobId)
                    || from == predecessor)) by {
                    if own_before.contains(from as JobId) {
                        assert(own_after[own_before.index_of(from as JobId)] == from as JobId);
                    }
                    if from == predecessor {
                        assert(own_after[index as int] == from as JobId);
                    }
                }
                if from == at {
                    let list = before[at]@;
                    let longer = successors@[at]@;
                    assert(longer == list.push(job as JobId));
                    assert forall|to: JobId| #[trigger] longer.contains(to) == (list.contains(to)
                        || to == job) by {
                        if list.contains(to) {
                            assert(longer[list.index_of(to)] == to);
                        }
                        if to == job {
                            assert(longer[list.len() as int] == to);
                        }
                    }
                } else {
                    assert(successors@[from] == before[from]);
                }
            }
        }
        assert(own.take(own.len() as int) =~= own);
        assert forall|from: int|
            #![trigger successors@[from]]
            0 <= from < len implies forall|to: JobId| #[trigger]
            successors@[from]@.contains(to) == (to < job + 1 && edges[to as int].contains(
                from as JobId,
            )) by {}
    }
    proof {
        let result = lists(successors@);
        assert forall|from: int|
            #![trigger result[from]]
            0 <= from < len implies ascending(result[from]) && forall|to: JobId| #[trigger]
            result[from].contains(to) == (to < len && edges[to as int].contains(
                from as JobId,
            )) by {
            assert(result[from] == successors@[from]@);
        }
    }
    successors
}

/// One more than the greatest height among `jobs`, or zero where there are none.
pub open spec fn peak(heights: Seq<u32>, jobs: Seq<JobId>) -> int
    decreases jobs.len(),
{
    if jobs.len() == 0 {
        0
    } else {
        let rest = peak(heights, jobs.drop_last());
        let last = heights[jobs.last() as int] + 1;
        if rest < last {
            last
        } else {
            rest
        }
    }
}

/// Whether `heights` holds, for each job, the length of the longest path that starts at it.
pub open spec fn measured(successors: Seq<Seq<JobId>>, heights: Seq<u32>) -> bool {
    &&& heights.len() == successors.len()
    &&& forall|job: int|
        0 <= job < heights.len() ==> (#[trigger] heights[job]) == peak(heights, successors[job])
}

/// Whether each job's successors come after it.
pub open spec fn forward(successors: Seq<Seq<JobId>>) -> bool {
    forall|from: int, index: int|
        0 <= from < successors.len() && 0 <= index < successors[from].len() ==> from < (
        #[trigger] successors[from][index]) < successors.len()
}

proof fn lemma_peak_local(left: Seq<u32>, right: Seq<u32>, jobs: Seq<JobId>)
    requires
        forall|index: int|
            0 <= index < jobs.len() ==> left[(#[trigger] jobs[index]) as int]
                == right[jobs[index] as int],
    ensures
        peak(left, jobs) == peak(right, jobs),
    decreases jobs.len(),
{
    if jobs.len() > 0 {
        assert(jobs[jobs.len() - 1] == jobs.last());
        assert forall|index: int| 0 <= index < jobs.drop_last().len() implies left[(
        #[trigger] jobs.drop_last()[index]) as int] == right[jobs.drop_last()[index] as int] by {
            assert(jobs[index] == jobs.drop_last()[index]);
        }
        lemma_peak_local(left, right, jobs.drop_last());
    }
}

/// The length of the longest path that starts at each job.
pub fn compute_strict_heights(successors: &[Vec<JobId>]) -> (heights: Vec<u32>)
    requires
        successors@.len() <= u32::MAX,
        forward(lists(successors@)),
    ensures
        measured(lists(successors@), heights@),
        forall|job: int| 0 <= job < heights@.len() ==> #[trigger] heights@[job] < heights@.len(),
{
    let ghost edges = lists(successors@);
    let len: usize = successors.len();
    let mut heights: Vec<u32> = Vec::new();
    heights.resize(len, 0u32);
    let mut job: usize = len;
    while job > 0
        invariant
            edges == lists(successors@),
            forward(edges),
            len == edges.len(),
            len <= u32::MAX,
            job <= len,
            heights.len() == len,
            forall|at: int|
                job <= at < len ==> (#[trigger] heights@[at]) == peak(heights@, edges[at])
                    && heights@[at] < len - at,
        decreases job,
    {
        job -= 1;
        let ghost own = edges[job as int];
        assert(own == successors@[job as int]@);
        let mut height: u32 = 0;
        let degree: usize = successors[job].len();
        for index in 0..degree
            invariant
                edges == lists(successors@),
                forward(edges),
                len == edges.len(),
                len <= u32::MAX,
                job < len,
                own == edges[job as int],
                own == successors@[job as int]@,
                degree == own.len(),
                heights.len() == len,
                forall|at: int| job < at < len ==> (#[trigger] heights@[at]) < len - at,
                height == peak(heights@, own.take(index as int)),
                height < len - job,
        {
            let successor = successors[job][index];
            assert(edges[job as int][index as int] == successor);
            let candidate: u32 = heights[successor as usize] + 1;
            assert(own.take(index + 1).drop_last() =~= own.take(index as int));
            assert(own.take(index + 1).last() == successor);
            if candidate > height {
                height = candidate;
            }
        }
        assert(own.take(own.len() as int) =~= own);
        let ghost before = heights@;
        heights.set(job, height);
        assert forall|at: int| job <= at < len implies (#[trigger] heights@[at]) == peak(
            heights@,
            edges[at],
        ) && heights@[at] < len - at by {
            assert forall|index: int| 0 <= index < edges[at].len() implies before[(
            #[trigger] edges[at][index]) as int] == heights@[edges[at][index] as int] by {}
            lemma_peak_local(before, heights@, edges[at]);
        }
    }
    heights
}

/// The jobs without predecessors, in order.
pub fn find_roots(predecessors: &[Vec<JobId>]) -> (roots: Vec<JobId>)
    requires
        predecessors@.len() <= u32::MAX,
    ensures
        ascending(roots@),
        forall|job: JobId| #[trigger]
            roots@.contains(job) == (job < predecessors@.len() && predecessors@[job as int]@.len()
                == 0),
{
    let mut roots: Vec<JobId> = Vec::new();
    for job in 0..predecessors.len()
        invariant
            predecessors@.len() <= u32::MAX,
            ascending(roots@),
            forall|other: JobId| #[trigger]
                roots@.contains(other) == (other < job && predecessors@[other as int]@.len() == 0),
    {
        if predecessors[job].len() == 0 {
            let ghost before = roots@;
            assert forall|index: int| 0 <= index < before.len() implies #[trigger] before[index]
                < job by {
                assert(before.contains(before[index]));
            }
            roots.push(job as JobId);
            assert forall|other: JobId| #[trigger] roots@.contains(other) == (before.contains(other)
                || other == job) by {
                if before.contains(other) {
                    assert(roots@[before.index_of(other)] == other);
                }
                if other == job {
                    assert(roots@[before.len() as int] == other);
                }
            }
        }
    }
    roots
}

} // verus!

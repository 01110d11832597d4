//! Placement of jobs on pages, and lists that are laid out one after the other.

use crate::dag::{ascending, lists, JobId};
use crate::order::{insert_by_key, key_before, lemma_distinct_bound, ordered_by, within};
use std::ops::Range;
use vstd::prelude::*;

verus! {

/// How many jobs a page has room for.
pub const PAGE_JOBS: usize = 32;

/// The first `until` lists, one after the other.
pub open spec fn joined<T>(lists: Seq<Seq<T>>, until: int) -> Seq<T>
    decreases until,
{
    if until <= 0 {
        Seq::empty()
    } else {
        joined(lists, until - 1) + lists[until - 1]
    }
}

/// The range that list `index` takes where lists are laid out one after the other.
pub open spec fn joined_range<T>(lists: Seq<Seq<T>>, index: int) -> Range<u32> {
    Range {
        start: joined(lists, index).len() as u32,
        end: joined(lists, index + 1).len() as u32,
    }
}

/// What lies in the range of list `index` is that list.
pub proof fn lemma_joined<T>(lists: Seq<Seq<T>>, index: int, until: int)
    requires
        0 <= index < until <= lists.len(),
    ensures
        joined(lists, index).len() + lists[index].len() <= joined(lists, until).len(),
        joined(lists, until).subrange(
            joined(lists, index).len() as int,
            joined(lists, index).len() as int + lists[index].len() as int,
        ) == lists[index],
    decreases until,
{
    let start = joined(lists, index).len() as int;
    if index == until - 1 {
        assert(joined(lists, until).subrange(start, start + lists[index].len())
            =~= lists[index]);
    } else {
        lemma_joined(lists, index, until - 1);
        assert(joined(lists, until).subrange(start, start + lists[index].len()) =~= joined(
            lists,
            until - 1,
        ).subrange(start, start + lists[index].len()));
    }
}

/// The contents of a list of lists.
pub open spec fn contents<T>(lists: Seq<Vec<T>>) -> Seq<Seq<T>> {
    lists.map_values(|list: Vec<T>| list@)
}

/// Lays lists out one after the other, and tells the range of each.
pub fn join<T: Copy>(lists: &[Vec<T>]) -> (laid: (Vec<T>, Vec<Range<u32>>))
    ensures
        laid.0@ == joined(contents(lists@), lists@.len() as int),
        laid.1@.len() == lists@.len(),
        forall|index: int|
            0 <= index < lists@.len() ==> #[trigger] laid.1@[index] == joined_range(
                contents(lists@),
                index,
            ),
{
    let ghost all = contents(lists@);
    let mut values: Vec<T> = Vec::new();
    let mut ranges: Vec<Range<u32>> = Vec::new();
    for index in 0..lists.len()
        invariant
            all == contents(lists@),
            values@ == joined(all, index as int),
            ranges@.len() == index,
            forall|at: int|
                0 <= at < index ==> #[trigger] ranges@[at] == joined_range(all, at),
    {
        let start = values.len() as u32;
        let ghost before = values@;
        let length: usize = lists[index].len();
        for at in 0..length
            invariant
                index < lists@.len(),
                length == lists@[index as int]@.len(),
                values@ == before + lists@[index as int]@.take(at as int),
        {
            values.push(lists[index][at]);
            assert(values@ =~= before + lists@[index as int]@.take(at + 1));
        }
        assert(lists@[index as int]@.take(length as int) =~= all[index as int]);
        assert(before + lists@[index as int]@.take(0) =~= before);
        let end = values.len() as u32;
        ranges.push(start..end);
    }
    (values, ranges)
}

/// Whether each step of a path leads from a job to one of its neighbors.
pub open spec fn walk(neighbors: Seq<Seq<JobId>>, path: Seq<JobId>) -> bool {
    forall|step: int|
        0 <= step && step + 1 < path.len() ==> (#[trigger] path[step]) < neighbors.len()
            && neighbors[path[step] as int].contains(path[step + 1])
}

/// Whether a path leads from one job to another.
pub open spec fn linked(neighbors: Seq<Seq<JobId>>, from: JobId, to: JobId) -> bool {
    exists|path: Seq<JobId>| #[trigger]
        walk(neighbors, path) && path.len() > 0 && path[0] == from && path.last() == to
}

/// Whether each neighbor is one of the jobs, and being neighbors is mutual.
pub open spec fn undirected(neighbors: Seq<Seq<JobId>>) -> bool {
    &&& forall|job: int, index: int|
        0 <= job < neighbors.len() && 0 <= index < neighbors[job].len() ==> (
        #[trigger] neighbors[job][index]) < neighbors.len()
    &&& forall|left: JobId, right: JobId|
        left < neighbors.len() && right < neighbors.len()
            && #[trigger] neighbors[left as int].contains(right)
            ==> neighbors[right as int].contains(left)
}

proof fn lemma_linked_self(neighbors: Seq<Seq<JobId>>, job: JobId)
    ensures
        linked(neighbors, job, job),
{
    let path = seq![job];
    assert(walk(neighbors, path));
    assert(path.last() == job);
}

proof fn lemma_linked_step(neighbors: Seq<Seq<JobId>>, from: JobId, middle: JobId, to: JobId)
    requires
        linked(neighbors, from, middle),
        middle < neighbors.len(),
        neighbors[middle as int].contains(to),
    ensures
        linked(neighbors, from, to),
{
    let path = choose|path: Seq<JobId>| #[trigger]
        walk(neighbors, path) && path.len() > 0 && path[0] == from && path.last() == middle;
    let longer = path.push(to);
    assert forall|step: int| 0 <= step && step + 1 < longer.len() implies (
    #[trigger] longer[step]) < neighbors.len() && neighbors[longer[step] as int].contains(
        longer[step + 1],
    ) by {
        assert(longer[step] == path[step]);
        if step + 1 < path.len() {
            assert(longer[step + 1] == path[step + 1]);
        } else {
            assert(path[step] == path.last());
        }
    }
    assert(walk(neighbors, longer));
    assert(longer[0] == from && longer.last() == to);
}

proof fn lemma_linked_joins(neighbors: Seq<Seq<JobId>>, from: JobId, middle: JobId, to: JobId)
    requires
        linked(neighbors, from, middle),
        linked(neighbors, middle, to),
    ensures
        linked(neighbors, from, to),
{
    let path = choose|path: Seq<JobId>| #[trigger]
        walk(neighbors, path) && path.len() > 0 && path[0] == middle && path.last() == to;
    lemma_linked_along(neighbors, from, path, path.len() - 1);
}

proof fn lemma_linked_along(
    neighbors: Seq<Seq<JobId>>,
    from: JobId,
    path: Seq<JobId>,
    until: int,
)
    requires
        walk(neighbors, path),
        0 <= until < path.len(),
        linked(neighbors, from, path[0]),
    ensures
        linked(neighbors, from, path[until]),
    decreases until,
{
    if until > 0 {
        lemma_linked_along(neighbors, from, path, until - 1);
        assert(path[until - 1] < neighbors.len() && neighbors[path[until - 1] as int].contains(
            path[until - 1 + 1],
        ));
        lemma_linked_step(neighbors, from, path[until - 1], path[until]);
    }
}

proof fn lemma_linked_mutual(neighbors: Seq<Seq<JobId>>, from: JobId, to: JobId)
    requires
        undirected(neighbors),
        linked(neighbors, from, to),
        from < neighbors.len(),
    ensures
        linked(neighbors, to, from),
{
    let path = choose|path: Seq<JobId>| #[trigger]
        walk(neighbors, path) && path.len() > 0 && path[0] == from && path.last() == to;
    let back = path.reverse();
    assert forall|step: int| 0 <= step && step + 1 < back.len() implies (#[trigger] back[step])
        < neighbors.len() && neighbors[back[step] as int].contains(back[step + 1]) by {
        let there = path.len() - 2 - step;
        assert(back[step + 1] == path[there] && back[step] == path[there + 1]);
        assert(path[there] < neighbors.len() && neighbors[path[there] as int].contains(
            path[there + 1],
        ));
        let at = neighbors[path[there] as int].index_of(path[there + 1]);
        assert(neighbors[path[there] as int][at] < neighbors.len());
    }
    assert(walk(neighbors, back));
    assert(back[0] == to && back.last() == from);
}

/// Whether `left` comes before `right` among jobs that are linked: the one with more neighbors
/// first, and of two with equally many the one that is declared first.
pub open spec fn linked_before(neighbors: Seq<Seq<JobId>>, left: JobId, right: JobId) -> bool {
    let l = neighbors[left as int].len();
    let r = neighbors[right as int].len();
    l > r || l == r && left < right
}

/// Whether `group` holds, in order, all the jobs that are linked to one another.
pub open spec fn component(neighbors: Seq<Seq<JobId>>, group: Seq<JobId>) -> bool {
    &&& group.len() > 0
    &&& within(group, neighbors.len() as int)
    &&& forall|left: int, right: int|
        0 <= left < right < group.len() ==> linked_before(
            neighbors,
            #[trigger] group[left],
            #[trigger] group[right],
        )
    &&& forall|index: int, job: JobId|
        0 <= index < group.len() ==> #[trigger] group.contains(job) == linked(
            neighbors,
            #[trigger] group[index],
            job,
        )
}

/// Whether a group holds a job that is declared before each of another group.
pub open spec fn leads(group: Seq<JobId>, other: Seq<JobId>) -> bool {
    exists|leader: int|
        0 <= leader < group.len() && forall|index: int|
            0 <= index < other.len() ==> #[trigger] group[leader] < #[trigger] other[index]
}

/// Whether `groups` holds the groups of linked jobs that have neighbors, in the order of the first
/// job of each.
pub open spec fn components(
    neighbors: Seq<Seq<JobId>>,
    groups: Seq<Seq<JobId>>,
) -> bool {
    &&& forall|group: int|
        0 <= group < groups.len() ==> component(neighbors, #[trigger] groups[group])
    &&& forall|group: int, index: int|
        0 <= group < groups.len() && 0 <= index < groups[group].len() ==> neighbors[(
        #[trigger] groups[group][index]) as int].len() > 0
    &&& forall|left: int, right: int|
        0 <= left < right < groups.len() ==> leads(
            #[trigger] groups[left],
            #[trigger] groups[right],
        )
}

/// Whether `groups` are the groups of linked jobs, and `isolated` the jobs without neighbors, in
/// order.
pub open spec fn grouped(
    neighbors: Seq<Seq<JobId>>,
    groups: Seq<Seq<JobId>>,
    isolated: Seq<JobId>,
) -> bool {
    &&& components(neighbors, groups)
    &&& forall|job: JobId|
        job < neighbors.len() && #[trigger] neighbors[job as int].len() > 0 ==> exists|group: int|
            0 <= group < groups.len() && (#[trigger] groups[group]).contains(job)
    &&& ascending(isolated)
    &&& forall|job: JobId| #[trigger]
        isolated.contains(job) == (job < neighbors.len() && neighbors[job as int].len() == 0)
}

/// A list, cut into pages.
pub open spec fn pages_of(list: Seq<JobId>) -> Seq<Seq<JobId>> {
    Seq::new(
        ((list.len() + 31) / 32) as nat,
        |page: int|
            list.subrange(
                32 * page,
                if 32 * page + 32 < list.len() {
                    32 * page + 32
                } else {
                    list.len() as int
                },
            ),
    )
}

/// The pages of groups: each group starts on a page of its own.
pub open spec fn layout_of(groups: Seq<Seq<JobId>>) -> Seq<Seq<JobId>>
    decreases groups.len(),
{
    if groups.len() == 0 {
        Seq::empty()
    } else {
        layout_of(groups.drop_last()) + pages_of(groups.last())
    }
}

/// Whether `layout` holds the pages on which the jobs are placed.
pub open spec fn laid_out(neighbors: Seq<Seq<JobId>>, layout: Seq<Seq<JobId>>) -> bool {
    exists|groups: Seq<Seq<JobId>>, isolated: Seq<JobId>| #[trigger]
        grouped(neighbors, groups, isolated) && layout == layout_of(groups.push(isolated))
}

/// Whether a job has a place on the pages.
pub open spec fn placed(layout: Seq<Seq<JobId>>, job: JobId) -> bool {
    exists|page: int| 0 <= page < layout.len() && (#[trigger] layout[page]).contains(job)
}

/// Whether each of `count` jobs has one place on the pages, and no page is empty or too full.
pub open spec fn settled(layout: Seq<Seq<JobId>>, count: int) -> bool {
    &&& forall|page: int|
        0 <= page < layout.len() ==> 0 < (#[trigger] layout[page]).len() <= 32 && within(
            layout[page],
            count,
        )
    &&& forall|job: JobId| job < count ==> #[trigger] placed(layout, job)
    &&& forall|page: int, slot: int, other: int, there: int|
        0 <= page < layout.len() && 0 <= slot < layout[page].len() && 0 <= other < layout.len()
            && 0 <= there < layout[other].len() && #[trigger] layout[page][slot]
            == #[trigger] layout[other][there] ==> page == other && slot == there
}

/// The job at a place of the layout is a job of one of the groups, and each place is another
/// position in the groups.
pub(crate) proof fn lemma_layout_places(groups: Seq<Seq<JobId>>, page: int, slot: int) -> (place: (int, int))
    requires
        0 <= page < layout_of(groups).len(),
        0 <= slot < layout_of(groups)[page].len(),
    ensures
        0 <= place.0 < groups.len(),
        0 <= place.1 < groups[place.0].len(),
        groups[place.0][place.1] == layout_of(groups)[page][slot],
        page == layout_of(groups.take(place.0)).len() + place.1 / 32,
        slot == place.1 % 32,
        0 < layout_of(groups)[page].len() <= 32,
    decreases groups.len(),
{
    let shorter = groups.drop_last();
    let last = groups.len() - 1;
    let start = layout_of(shorter).len();
    if page < start {
        let place = lemma_layout_places(shorter, page, slot);
        assert(shorter.take(place.0) =~= groups.take(place.0));
        assert(shorter[place.0] == groups[place.0]);
        place
    } else {
        let own = page - start;
        let index = 32 * own + slot;
        assert(groups.take(last) =~= shorter);
        assert(pages_of(groups.last())[own] == layout_of(groups)[page]);
        assert(index / 32 == own && index % 32 == slot);
        (last, index)
    }
}

/// Each position in the groups has a place in the layout.
pub(crate) proof fn lemma_groups_are_laid_out(groups: Seq<Seq<JobId>>, group: int, index: int) -> (page: int)
    requires
        0 <= group < groups.len(),
        0 <= index < groups[group].len(),
    ensures
        0 <= page < layout_of(groups).len(),
        layout_of(groups)[page].contains(groups[group][index]),
    decreases groups.len(),
{
    let shorter = groups.drop_last();
    let start = layout_of(shorter).len() as int;
    if group < shorter.len() {
        assert(shorter[group] == groups[group]);
        let page = lemma_groups_are_laid_out(shorter, group, index);
        assert(layout_of(groups)[page] == layout_of(shorter)[page]);
        page
    } else {
        let page = start + index / 32;
        let own = pages_of(groups.last());
        assert(own[index / 32][index % 32] == groups[group][index]);
        assert(layout_of(groups)[page] == own[index / 32]);
        page
    }
}

/// No job occurs twice in the groups.
pub(crate) proof fn lemma_no_job_twice(
    neighbors: Seq<Seq<JobId>>,
    groups: Seq<Seq<JobId>>,
    isolated: Seq<JobId>,
)
    requires
        grouped(neighbors, groups, isolated),
    ensures
        ({
            let all = groups.push(isolated);
            forall|group: int, index: int, other: int, there: int|
                0 <= group < all.len() && 0 <= index < all[group].len() && 0 <= other < all.len()
                    && 0 <= there < all[other].len() && #[trigger] all[group][index]
                    == #[trigger] all[other][there] ==> group == other && index == there
        }),
{
    let all = groups.push(isolated);
    assert forall|group: int, index: int, other: int, there: int|
        0 <= group < all.len() && 0 <= index < all[group].len() && 0 <= other < all.len() && 0
            <= there < all[other].len() && #[trigger] all[group][index]
            == #[trigger] all[other][there] implies group == other && index == there by {
        let job = all[group][index];
        if group < groups.len() {
            assert(component(neighbors, groups[group]));
            assert(groups[group][index] == job);
            assert(neighbors[groups[group][index] as int].len() > 0);
        } else {
            assert(isolated.contains(isolated[index]));
        }
        if other < groups.len() {
            assert(component(neighbors, groups[other]));
            assert(groups[other][there] == job);
            assert(neighbors[groups[other][there] as int].len() > 0);
        } else {
            assert(isolated.contains(isolated[there]));
        }
        if group < groups.len() && other < groups.len() {
            if group != other {
                let low = if group < other {
                    group
                } else {
                    other
                };
                let high = if group < other {
                    other
                } else {
                    group
                };
                assert(leads(groups[low], groups[high]));
                let leader = choose|leader: int|
                    0 <= leader < groups[low].len() && forall|index: int|
                        0 <= index < groups[high].len() ==> #[trigger] groups[low][leader]
                            < #[trigger] groups[high][index];
                let first = groups[low][leader];
                assert(groups[low].contains(first));
                let low_at = if group < other {
                    index
                } else {
                    there
                };
                let high_at = if group < other {
                    there
                } else {
                    index
                };
                assert(groups[low][low_at] == job && groups[high][high_at] == job);
                assert(linked(neighbors, groups[low][low_at], first));
                assert(groups[high].contains(first));
                let at = groups[high].index_of(first);
                assert(groups[low][leader] < groups[high][at]);
            } else if index != there {
                if index < there {
                    assert(linked_before(neighbors, groups[group][index], groups[group][there]));
                } else {
                    assert(linked_before(neighbors, groups[group][there], groups[group][index]));
                }
            }
        }
    }
}

/// Each job has one place in the layout.
pub proof fn layouts_place_each_job_once(neighbors: Seq<Seq<JobId>>, layout: Seq<Seq<JobId>>)
    requires
        undirected(neighbors),
        laid_out(neighbors, layout),
    ensures
        settled(layout, neighbors.len() as int),
{
    let (groups, isolated) = choose|groups: Seq<Seq<JobId>>, isolated: Seq<JobId>| #[trigger]
        grouped(neighbors, groups, isolated) && layout == layout_of(groups.push(isolated));
    let all = groups.push(isolated);
    let count = neighbors.len() as int;
    assert forall|group: int, index: int|
        0 <= group < all.len() && 0 <= index < all[group].len() implies (
    #[trigger] all[group][index]) < count by {
        if group < groups.len() {
            assert(component(neighbors, groups[group]));
            assert(all[group] == groups[group]);
        } else {
            assert(isolated.contains(isolated[index]));
        }
    }
    lemma_no_job_twice(neighbors, groups, isolated);
    assert forall|page: int| 0 <= page < layout.len() implies 0 < (#[trigger] layout[page]).len()
        <= 32 && within(layout[page], count) by {
        lemma_layout_pages(all, page);
        assert forall|slot: int| 0 <= slot < layout[page].len() implies (
        #[trigger] layout[page][slot]) < count by {
            let place = lemma_layout_places(all, page, slot);
            assert(all[place.0][place.1] < count);
        }
    }
    assert forall|job: JobId| job < count implies #[trigger] placed(layout, job) by {
        if neighbors[job as int].len() > 0 {
            let group = choose|group: int|
                0 <= group < groups.len() && (#[trigger] groups[group]).contains(job);
            let index = groups[group].index_of(job);
            assert(all[group] == groups[group]);
            let page = lemma_groups_are_laid_out(all, group, index);
            assert(layout[page].contains(job));
        } else {
            assert(isolated.contains(job));
            let index = isolated.index_of(job);
            assert(all[groups.len() as int] == isolated);
            let page = lemma_groups_are_laid_out(all, groups.len() as int, index);
            assert(layout[page].contains(job));
        }
    }
    assert forall|page: int, slot: int, other: int, there: int|
        0 <= page < layout.len() && 0 <= slot < layout[page].len() && 0 <= other < layout.len()
            && 0 <= there < layout[other].len() && #[trigger] layout[page][slot]
            == #[trigger] layout[other][there] implies page == other && slot == there by {
        let left = lemma_layout_places(all, page, slot);
        let right = lemma_layout_places(all, other, there);
        assert(all[left.0][left.1] == all[right.0][right.1]);
    }
}

proof fn lemma_layout_pages(groups: Seq<Seq<JobId>>, page: int)
    requires
        0 <= page < layout_of(groups).len(),
    ensures
        0 < layout_of(groups)[page].len() <= 32,
    decreases groups.len(),
{
    let shorter = groups.drop_last();
    if page < layout_of(shorter).len() {
        lemma_layout_pages(shorter, page);
    } else {
        assert(layout_of(groups)[page] == pages_of(groups.last())[page - layout_of(
            shorter,
        ).len()]);
    }
}

/// There are no more pages than jobs.
pub proof fn lemma_page_bound(layout: Seq<Seq<JobId>>, count: int)
    requires
        0 <= count,
        settled(layout, count),
    ensures
        layout.len() <= count,
{
    let firsts = Seq::new(layout.len(), |page: int| layout[page][0]);
    assert forall|page: int| 0 <= page < firsts.len() implies (#[trigger] firsts[page])
        < count by {
        assert(layout[page].len() > 0);
        assert(layout[page][0] < count);
    }
    assert forall|left: int, right: int|
        0 <= left < firsts.len() && 0 <= right < firsts.len() && left != right implies firsts[left]
        != firsts[right] by {
        assert(layout[left].len() > 0 && layout[right].len() > 0);
        if layout[left][0] == layout[right][0] {
            assert(left == right);
        }
    }
    lemma_distinct_bound(firsts, count);
}

/// Whether each visited job's neighbors are visited.
spec fn closed(neighbors: Seq<Seq<JobId>>, visited: Seq<bool>) -> bool {
    forall|job: JobId, other: JobId|
        job < neighbors.len() && #[trigger] neighbors[job as int].contains(other)
            && visited[job as int] ==> visited[other as int]
}

spec fn degree_keys(neighbors: Seq<Seq<JobId>>, keys: Seq<u64>) -> bool {
    &&& keys.len() == neighbors.len()
    &&& forall|job: int|
        0 <= job < keys.len() ==> #[trigger] keys[job] == u64::MAX - neighbors[job].len()
}

proof fn lemma_ordered_is_distinct(keys: Seq<u64>, list: Seq<JobId>)
    requires
        ordered_by(keys, list),
    ensures
        list.no_duplicates(),
{
    assert forall|left: int, right: int|
        0 <= left < list.len() && 0 <= right < list.len() && left != right implies list[left]
        != list[right] by {
        if left < right {
            assert(key_before(keys, list[left], list[right]));
        } else {
            assert(key_before(keys, list[right], list[left]));
        }
    }
}

/// Collects the jobs that are linked to an unvisited one, and marks them as visited.
fn find_component(
    relaxed_neighbors: &[Vec<JobId>],
    keys: &[u64],
    visited: &mut Vec<bool>,
    start: JobId,
) -> (group: Vec<JobId>)
    requires
        undirected(lists(relaxed_neighbors@)),
        degree_keys(lists(relaxed_neighbors@), keys@),
        old(visited)@.len() == relaxed_neighbors@.len(),
        closed(lists(relaxed_neighbors@), old(visited)@),
        start < relaxed_neighbors@.len(),
        !old(visited)@[start as int],
    ensures
        component(lists(relaxed_neighbors@), group@),
        group@.contains(start),
        closed(lists(relaxed_neighbors@), final(visited)@),
        final(visited)@.len() == old(visited)@.len(),
        forall|job: JobId|
            job < old(visited)@.len() ==> #[trigger] final(visited)@[job as int] == (old(
                visited,
            )@[job as int] || group@.contains(job)),
        forall|job: JobId| #[trigger] group@.contains(job) ==> !old(visited)@[job as int],
{
    let ghost neighbors = lists(relaxed_neighbors@);
    let ghost count = neighbors.len() as int;
    let ghost before = visited@;
    let mut stack: Vec<JobId> = vec![start];
    let mut group: Vec<JobId> = Vec::new();
    visited.set(start as usize, true);
    proof {
        lemma_linked_self(neighbors, start);
        assert(stack@[0] == start);
        assert forall|job: JobId| stack@.contains(job) implies job == start by {}
        assert(stack@.contains(start));
    }
    while stack.len() > 0
        invariant
            neighbors == lists(relaxed_neighbors@),
            count == neighbors.len(),
            undirected(neighbors),
            degree_keys(neighbors, keys@),
            start < count,
            before.len() == count,
            closed(neighbors, before),
            visited@.len() == count,
            within(stack@, count),
            within(group@, count),
            ordered_by(keys@, group@),
            stack@.no_duplicates(),
            forall|job: JobId|
                job < count ==> #[trigger] visited@[job as int] == (before[job as int]
                    || group@.contains(job) || stack@.contains(job)),
            forall|job: JobId| #[trigger]
                stack@.contains(job) ==> !group@.contains(job) && !before[job as int] && linked(
                    neighbors,
                    start,
                    job,
                ),
            forall|job: JobId| #[trigger]
                group@.contains(job) ==> !before[job as int] && linked(neighbors, start, job),
            forall|job: JobId, other: JobId| #[trigger]
                group@.contains(job) && #[trigger] neighbors[job as int].contains(other)
                    ==> group@.contains(other) || stack@.contains(other),
            group@.contains(start) || stack@.contains(start),
        decreases count - group@.len(),
    {
        let ghost whole = stack@;
        let ghost found = group@;
        let current = match stack.pop() {
            Some(current) => current,
            None => {
                return group;
            },
        };
        let ghost rest = stack@;
        proof {
            assert(whole[whole.len() - 1] == current);
            assert(whole.contains(current));
            assert forall|job: JobId| #[trigger] whole.contains(job) == (rest.contains(job) || job
                == current) by {
                if whole.contains(job) && job != current {
                    assert(rest[whole.index_of(job)] == job);
                }
                if rest.contains(job) {
                    assert(whole[rest.index_of(job)] == job);
                }
            }
            if rest.contains(current) {
                assert(whole[rest.index_of(current)] == whole[whole.len() - 1]);
            }
            lemma_ordered_is_distinct(keys@, found);
            assert(found.push(current).no_duplicates()) by {
                assert forall|left: int, right: int|
                    0 <= left < found.len() + 1 && 0 <= right < found.len() + 1 && left
                        != right implies found.push(current)[left]
                    != found.push(current)[right] by {
                    if left == found.len() {
                        assert(found.contains(found[right]));
                    } else if right == found.len() {
                        assert(found.contains(found[left]));
                    }
                }
            }
            lemma_distinct_bound(found.push(current), count);
        }
        insert_by_key(keys, &mut group, current);
        assert forall|job: JobId| #[trigger] rest.contains(job) implies !group@.contains(job)
            && !before[job as int] && linked(neighbors, start, job) by {
            assert(whole.contains(job));
        }
        let ghost own = neighbors[current as int];
        assert(own == relaxed_neighbors@[current as int]@);
        let degree: usize = relaxed_neighbors[current as usize].len();
        for index in 0..degree
            invariant
                neighbors == lists(relaxed_neighbors@),
                count == neighbors.len(),
                undirected(neighbors),
                current < count,
                own == neighbors[current as int],
                own == relaxed_neighbors@[current as int]@,
                degree == own.len(),
                before.len() == count,
                closed(neighbors, before),
                !before[current as int],
                linked(neighbors, start, current),
                visited@.len() == count,
                within(stack@, count),
                stack@.no_duplicates(),
                forall|job: JobId|
                    job < count ==> #[trigger] visited@[job as int] == (before[job as int]
                        || group@.contains(job) || stack@.contains(job)),
                forall|job: JobId| #[trigger]
                    stack@.contains(job) ==> !group@.contains(job) && !before[job as int] && linked(
                        neighbors,
                        start,
                        job,
                    ),
                forall|job: JobId| #[trigger] rest.contains(job) ==> stack@.contains(job),
                forall|at: int|
                    0 <= at < index ==> group@.contains(#[trigger] own[at]) || stack@.contains(
                        own[at],
                    ),
        {
            let neighbor = relaxed_neighbors[current as usize][index];
            assert(neighbors[current as int][index as int] == neighbor);
            assert(own.contains(neighbor));
            proof {
                // A visited neighbor was visited in this search.
                assert(neighbors[neighbor as int].contains(current));
                assert(!before[neighbor as int]);
            }
            if !visited[neighbor as usize] {
                let ghost shorter = stack@;
                proof {
                    lemma_linked_step(neighbors, start, current, neighbor);
                    assert(!visited@[neighbor as int]);
                    assert(!shorter.contains(neighbor) && !group@.contains(neighbor));
                }
                visited.set(neighbor as usize, true);
                stack.push(neighbor);
                proof {
                    assert forall|job: JobId| #[trigger] stack@.contains(job) == (shorter.contains(
                        job,
                    ) || job == neighbor) by {
                        if shorter.contains(job) {
                            assert(stack@[shorter.index_of(job)] == job);
                        }
                        if job == neighbor {
                            assert(stack@[shorter.len() as int] == job);
                        }
                    }
                    assert(stack@.no_duplicates()) by {
                        assert forall|left: int, right: int|
                            0 <= left < stack@.len() && 0 <= right < stack@.len() && left
                                != right implies stack@[left] != stack@[right] by {
                            if left == shorter.len() {
                                assert(shorter.contains(shorter[right]));
                            } else if right == shorter.len() {
                                assert(shorter.contains(shorter[left]));
                            }
                        }
                    }
                }
            } else {
                assert(visited@[neighbor as int]);
            }
        }
        proof {
            assert forall|job: JobId, other: JobId| #[trigger]
                group@.contains(job) && #[trigger] neighbors[job as int].contains(
                    other,
                ) implies group@.contains(other) || stack@.contains(other) by {
                if job == current {
                    let at = own.index_of(other);
                    assert(group@.contains(own[at]) || stack@.contains(own[at]));
                } else {
                    assert(found.contains(job));
                    if found.contains(other) {
                        assert(group@.contains(other));
                    } else {
                        assert(whole.contains(other));
                        if other == current {
                            assert(group@.contains(other));
                        }
                    }
                }
            }
        }
    }
    proof {
        assert forall|job: JobId| stack@.contains(job) implies false by {}
        assert(group@.contains(start));
        // The group is closed, so that it holds all that is linked to its start.
        assert forall|job: JobId| #[trigger] group@.contains(job) == linked(
            neighbors,
            start,
            job,
        ) by {
            if linked(neighbors, start, job) {
                let path = choose|path: Seq<JobId>| #[trigger]
                    walk(neighbors, path) && path.len() > 0 && path[0] == start && path.last()
                        == job;
                lemma_closed_along(neighbors, group@, path, path.len() - 1);
            }
        }
        assert forall|index: int, job: JobId|
            0 <= index < group@.len() implies #[trigger] group@.contains(job) == linked(
            neighbors,
            #[trigger] group@[index],
            job,
        ) by {
            let member = group@[index];
            assert(group@.contains(member));
            if group@.contains(job) {
                lemma_linked_mutual(neighbors, start, member);
                lemma_linked_joins(neighbors, member, start, job);
            }
            if linked(neighbors, member, job) {
                lemma_linked_joins(neighbors, start, member, job);
            }
        }
        assert forall|left: int, right: int| 0 <= left < right < group@.len() implies linked_before(
            neighbors,
            #[trigger] group@[left],
            #[trigger] group@[right],
        ) by {
            assert(key_before(keys@, group@[left], group@[right]));
        }
        assert forall|job: JobId, other: JobId|
            job < neighbors.len() && #[trigger] neighbors[job as int].contains(other)
                && visited@[job as int] implies visited@[other as int] by {
            let at = neighbors[job as int].index_of(other);
            assert(neighbors[job as int][at] < neighbors.len());
            if group@.contains(job) {
                assert(group@.contains(other));
            }
        }
    }
    group
}

proof fn lemma_closed_along(
    neighbors: Seq<Seq<JobId>>,
    group: Seq<JobId>,
    path: Seq<JobId>,
    until: int,
)
    requires
        walk(neighbors, path),
        0 <= until < path.len(),
        group.contains(path[0]),
        forall|job: JobId, other: JobId| #[trigger]
            group.contains(job) && #[trigger] neighbors[job as int].contains(other)
                ==> group.contains(other),
    ensures
        group.contains(path[until]),
    decreases until,
{
    if until > 0 {
        lemma_closed_along(neighbors, group, path, until - 1);
        assert(path[until - 1] < neighbors.len() && neighbors[path[until - 1] as int].contains(
            path[until - 1 + 1],
        ));
    }
}

/// Appends the pages of a list.
fn push_pages(layout: &mut Vec<Vec<JobId>>, list: &[JobId])
    ensures
        lists(final(layout)@) == lists(old(layout)@) + pages_of(list@),
{
    let ghost before = lists(layout@);
    let ghost pages = pages_of(list@);
    let mut start: usize = 0;
    let ghost mut done: int = 0;
    assert(before + pages.take(0) =~= before);
    while start < list.len()
        invariant
            pages == pages_of(list@),
            start <= list@.len(),
            start == 32 * done || start == list@.len() && done == pages.len(),
            0 <= done <= pages.len(),
            lists(layout@) == before + pages.take(done),
        decreases list@.len() - start,
    {
        let mut page: Vec<JobId> = Vec::new();
        let ghost first = start as int;
        while start < list.len() && page.len() < PAGE_JOBS
            invariant
                start <= list@.len(),
                0 <= first,
                start == first + page@.len(),
                page@.len() <= 32,
                page@ == list@.subrange(first, start as int),
            decreases list@.len() - start,
        {
            page.push(list[start]);
            start += 1;
            assert(page@ =~= list@.subrange(first, start as int));
        }
        let ghost shorter = lists(layout@);
        layout.push(page);
        proof {
            assert(page@ =~= pages[done]);
            assert(lists(layout@) =~= shorter.push(page@));
            assert(lists(layout@) =~= before + pages.take(done + 1));
            done = done + 1;
        }
    }
    assert(pages.take(pages.len() as int) =~= pages);
}

/// Whether a group holds a job before `job`.
spec fn led_before(group: Seq<JobId>, job: int) -> bool {
    exists|leader: int| 0 <= leader < group.len() && #[trigger] group[leader] < job
}

/// Whether a job is in one of the groups.
spec fn in_groups(groups: Seq<Seq<JobId>>, job: JobId) -> bool {
    exists|group: int| 0 <= group < groups.len() && (#[trigger] groups[group]).contains(job)
}

/// What holds when the jobs before `until` have been looked at: they and all that is linked to them
/// are visited, those with neighbors are in groups, and the others are isolated.
spec fn surveyed(
    neighbors: Seq<Seq<JobId>>,
    visited: Seq<bool>,
    groups: Seq<Seq<JobId>>,
    isolated: Seq<JobId>,
    until: int,
) -> bool {
    &&& visited.len() == neighbors.len()
    &&& closed(neighbors, visited)
    &&& components(neighbors, groups)
    &&& forall|at: int| 0 <= at < until ==> #[trigger] visited[at]
    &&& forall|at: JobId|
        at < neighbors.len() && neighbors[at as int].len() > 0 ==> #[trigger] visited[at as int]
            == in_groups(groups, at)
    &&& forall|group: int|
        0 <= group < groups.len() ==> led_before(#[trigger] groups[group], until)
    &&& forall|at: JobId|
        at < neighbors.len() && neighbors[at as int].len() == 0 && #[trigger] visited[at as int]
            ==> at < until
    &&& ascending(isolated)
    &&& forall|at: JobId| #[trigger]
        isolated.contains(at) == (at < until && neighbors[at as int].len() == 0)
}

proof fn lemma_survey_skips(
    neighbors: Seq<Seq<JobId>>,
    visited: Seq<bool>,
    groups: Seq<Seq<JobId>>,
    isolated: Seq<JobId>,
    job: int,
)
    requires
        0 <= job < neighbors.len() <= u32::MAX,
        surveyed(neighbors, visited, groups, isolated, job),
        visited[job],
    ensures
        surveyed(neighbors, visited, groups, isolated, job + 1),
{
    assert(visited[(job as JobId) as int]);
    assert(neighbors[job].len() > 0);
    assert forall|group: int| 0 <= group < groups.len() implies led_before(
        #[trigger] groups[group],
        job + 1,
    ) by {
        assert(led_before(groups[group], job));
        let leader = choose|leader: int|
            0 <= leader < groups[group].len() && #[trigger] groups[group][leader] < job;
        assert(groups[group][leader] < job + 1);
    }
}

proof fn lemma_survey_isolates(
    neighbors: Seq<Seq<JobId>>,
    visited: Seq<bool>,
    groups: Seq<Seq<JobId>>,
    isolated: Seq<JobId>,
    job: int,
)
    requires
        0 <= job < neighbors.len() <= u32::MAX,
        undirected(neighbors),
        surveyed(neighbors, visited, groups, isolated, job),
        neighbors[job].len() == 0,
    ensures
        surveyed(
            neighbors,
            visited.update(job, true),
            groups,
            isolated.push(job as JobId),
            job + 1,
        ),
{
    let after = visited.update(job, true);
    let longer = isolated.push(job as JobId);
    assert forall|index: int| 0 <= index < isolated.len() implies #[trigger] isolated[index]
        < job by {
        assert(isolated.contains(isolated[index]));
    }
    assert forall|at: JobId| #[trigger] longer.contains(at) == (isolated.contains(at) || at
        == job) by {
        if isolated.contains(at) {
            assert(longer[isolated.index_of(at)] == at);
        }
        if at == job {
            assert(longer[isolated.len() as int] == at);
        }
    }
    assert forall|left: JobId, right: JobId|
        left < neighbors.len() && #[trigger] neighbors[left as int].contains(right)
            && after[left as int] implies after[right as int] by {
        let at = neighbors[left as int].index_of(right);
        assert(neighbors[left as int][at] < neighbors.len());
        if left != job {
            assert(visited[left as int]);
        }
    }
    assert forall|group: int| 0 <= group < groups.len() implies led_before(
        #[trigger] groups[group],
        job + 1,
    ) by {
        assert(led_before(groups[group], job));
        let leader = choose|leader: int|
            0 <= leader < groups[group].len() && #[trigger] groups[group][leader] < job;
        assert(groups[group][leader] < job + 1);
    }
    assert forall|at: JobId|
        at < neighbors.len() && neighbors[at as int].len() > 0 implies #[trigger] after[at as int]
        == in_groups(groups, at) by {
        assert(visited[at as int] == in_groups(groups, at));
    }
    assert forall|at: JobId|
        at < neighbors.len() && neighbors[at as int].len() == 0
            && #[trigger] after[at as int] implies at < job + 1 by {
        if at != job {
            assert(visited[at as int]);
        }
    }
}

proof fn lemma_survey_groups(
    neighbors: Seq<Seq<JobId>>,
    visited: Seq<bool>,
    after: Seq<bool>,
    groups: Seq<Seq<JobId>>,
    isolated: Seq<JobId>,
    group: Seq<JobId>,
    job: int,
)
    requires
        0 <= job < neighbors.len() <= u32::MAX,
        undirected(neighbors),
        surveyed(neighbors, visited, groups, isolated, job),
        neighbors[job].len() > 0,
        component(neighbors, group),
        group.contains(job as JobId),
        closed(neighbors, after),
        after.len() == visited.len(),
        forall|at: JobId|
            at < visited.len() ==> #[trigger] after[at as int] == (visited[at as int]
                || group.contains(at)),
        forall|at: JobId| #[trigger] group.contains(at) ==> !visited[at as int],
    ensures
        surveyed(neighbors, after, groups.push(group), isolated, job + 1),
{
    let more = groups.push(group);
    let last = groups.len() as int;
    assert forall|at: JobId| #[trigger] group.contains(at) implies at >= job by {
        if at < job {
            assert(visited[at as int]);
        }
    }
    assert forall|index: int| 0 <= index < group.len() implies neighbors[(
    #[trigger] group[index]) as int].len() > 0 by {
        assert(group.contains(group[index]));
        lemma_member_has_neighbors(neighbors, group, group[index], job as JobId);
    }
    assert(components(neighbors, more)) by {
        assert forall|at: int| 0 <= at < more.len() implies component(
            neighbors,
            #[trigger] more[at],
        ) by {
            if at < last {
                assert(component(neighbors, groups[at]));
            }
        }
        assert forall|at: int, index: int|
            0 <= at < more.len() && 0 <= index < more[at].len() implies neighbors[(
        #[trigger] more[at][index]) as int].len() > 0 by {
            if at < last {
                assert(neighbors[groups[at][index] as int].len() > 0);
            }
        }
        assert forall|left: int, right: int| 0 <= left < right < more.len() implies leads(
            #[trigger] more[left],
            #[trigger] more[right],
        ) by {
            if right == last {
                assert(led_before(groups[left], job));
                let leader = choose|leader: int|
                    0 <= leader < groups[left].len() && #[trigger] groups[left][leader] < job;
                assert forall|index: int| 0 <= index < group.len() implies #[trigger]
                    more[left][leader] < #[trigger] group[index] by {
                    assert(group.contains(group[index]));
                }
            } else {
                assert(leads(groups[left], groups[right]));
            }
        }
    }
    assert forall|at: JobId|
        at < neighbors.len() && neighbors[at as int].len() > 0 implies #[trigger] after[at as int]
        == in_groups(more, at) by {
        assert(visited[at as int] == in_groups(groups, at));
        if group.contains(at) {
            assert(more[last].contains(at));
        }
        if in_groups(groups, at) {
            let place = choose|place: int|
                0 <= place < groups.len() && (#[trigger] groups[place]).contains(at);
            assert(more[place].contains(at));
        }
        if in_groups(more, at) {
            let place = choose|place: int|
                0 <= place < more.len() && (#[trigger] more[place]).contains(at);
            if place < last {
                assert(groups[place].contains(at));
            }
        }
    }
    assert forall|at: int| 0 <= at < more.len() implies led_before(
        #[trigger] more[at],
        job + 1,
    ) by {
        if at < last {
            assert(led_before(groups[at], job));
            let leader = choose|leader: int|
                0 <= leader < groups[at].len() && #[trigger] groups[at][leader] < job;
            assert(more[at][leader] < job + 1);
        } else {
            let leader = group.index_of(job as JobId);
            assert(more[at][leader] < job + 1);
        }
    }
    assert forall|at: JobId|
        at < neighbors.len() && neighbors[at as int].len() == 0
            && #[trigger] after[at as int] implies at < job + 1 by {
        if group.contains(at) {
            let index = group.index_of(at);
            assert(neighbors[group[index] as int].len() > 0);
        } else {
            assert(visited[at as int]);
        }
    }
    assert forall|at: int| 0 <= at < job + 1 implies #[trigger] after[at] by {
        let id = at as JobId;
        if at < job {
            assert(visited[at]);
        }
        assert(after[id as int] == (visited[id as int] || group.contains(id)));
    }
    assert forall|at: JobId| #[trigger]
        isolated.contains(at) == (at < job + 1 && neighbors[at as int].len() == 0) by {}
}

/// Places jobs on pages: jobs that are linked to one another together, and those without neighbors
/// after them.
pub fn lay_out(relaxed_neighbors: &[Vec<JobId>]) -> (layout: Vec<Vec<JobId>>)
    requires
        relaxed_neighbors@.len() <= u32::MAX,
        undirected(lists(relaxed_neighbors@)),
    ensures
        laid_out(lists(relaxed_neighbors@), lists(layout@)),
{
    let ghost neighbors = lists(relaxed_neighbors@);
    let len: usize = relaxed_neighbors.len();
    let mut keys: Vec<u64> = Vec::new();
    let mut visited: Vec<bool> = Vec::new();
    for job in 0..len
        invariant
            neighbors == lists(relaxed_neighbors@),
            len == neighbors.len(),
            keys.len() == job,
            visited.len() == job,
            forall|at: int|
                0 <= at < job ==> #[trigger] keys@[at] == u64::MAX - neighbors[at].len(),
            forall|at: int| 0 <= at < job ==> !#[trigger] visited@[at],
    {
        assert(neighbors[job as int] == relaxed_neighbors@[job as int]@);
        keys.push(u64::MAX - relaxed_neighbors[job].len() as u64);
        visited.push(false);
    }

    let mut isolated: Vec<JobId> = Vec::new();
    let mut layout: Vec<Vec<JobId>> = Vec::new();
    let ghost mut groups: Seq<Seq<JobId>> = Seq::empty();
    assert(lists(layout@) =~= layout_of(groups));
    assert(surveyed(neighbors, visited@, groups, isolated@, 0));
    for job in 0..len
        invariant
            neighbors == lists(relaxed_neighbors@),
            len == neighbors.len(),
            len <= u32::MAX,
            undirected(neighbors),
            degree_keys(neighbors, keys@),
            lists(layout@) == layout_of(groups),
            surveyed(neighbors, visited@, groups, isolated@, job as int),
    {
        let ghost before = visited@;
        assert(neighbors[job as int] == relaxed_neighbors@[job as int]@);
        if visited[job] {
            proof {
                lemma_survey_skips(neighbors, before, groups, isolated@, job as int);
            }
        } else if relaxed_neighbors[job].len() == 0 {
            proof {
                lemma_survey_isolates(neighbors, before, groups, isolated@, job as int);
            }
            visited.set(job, true);
            isolated.push(job as JobId);
        } else {
            let group = find_component(relaxed_neighbors, &keys, &mut visited, job as JobId);
            push_pages(&mut layout, &group);
            proof {
                assert(groups.push(group@).drop_last() =~= groups);
                lemma_survey_groups(
                    neighbors,
                    before,
                    visited@,
                    groups,
                    isolated@,
                    group@,
                    job as int,
                );
                groups = groups.push(group@);
            }
        }
    }
    push_pages(&mut layout, &isolated);
    proof {
        assert(groups.push(isolated@).drop_last() =~= groups);
        assert forall|job: JobId|
            job < neighbors.len() && #[trigger] neighbors[job as int].len() > 0 implies exists|
            group: int,
        |
            0 <= group < groups.len() && (#[trigger] groups[group]).contains(job) by {
            assert(visited@[job as int]);
            assert(in_groups(groups, job));
        }
        assert(grouped(neighbors, groups, isolated@));
    }
    layout
}

proof fn lemma_member_has_neighbors(
    neighbors: Seq<Seq<JobId>>,
    group: Seq<JobId>,
    member: JobId,
    start: JobId,
)
    requires
        undirected(neighbors),
        component(neighbors, group),
        group.contains(member),
        group.contains(start),
        start < neighbors.len(),
        neighbors[start as int].len() > 0,
    ensures
        neighbors[member as int].len() > 0,
{
    if member != start {
        let at = group.index_of(member);
        assert(linked(neighbors, group[at], start));
        let path = choose|path: Seq<JobId>| #[trigger]
            walk(neighbors, path) && path.len() > 0 && path[0] == member && path.last() == start;
        assert(path.len() > 1);
        assert(path[0] < neighbors.len() && neighbors[path[0] as int].contains(path[0int + 1]));
    }
}

/// The place of a job.
#[derive(Debug, Copy, Clone, PartialEq, Eq, Structural)]
pub struct Home {
    pub page: u32,
    pub slot: u8,
}

/// Whether `homes` holds the place of each job in a layout.
pub open spec fn homes_in(layout: Seq<Seq<JobId>>, homes: Seq<Home>) -> bool {
    forall|page: int, slot: int|
        0 <= page < layout.len() && 0 <= slot < layout[page].len() ==> homes[(
        #[trigger] layout[page][slot]) as int] == (Home { page: page as u32, slot: slot as u8 })
}

/// The place of each job in a layout.
pub fn find_homes(layout: &[Vec<JobId>], count: usize) -> (homes: Vec<Home>)
    requires
        count <= u32::MAX,
        settled(lists(layout@), count as int),
    ensures
        homes@.len() == count,
        homes_in(lists(layout@), homes@),
{
    let ghost pages = lists(layout@);
    proof {
        lemma_page_bound(pages, count as int);
    }
    let mut homes: Vec<Home> = Vec::new();
    homes.resize(count, Home { page: 0, slot: 0 });
    for page in 0..layout.len()
        invariant
            pages == lists(layout@),
            settled(pages, count as int),
            pages.len() <= count <= u32::MAX,
            homes@.len() == count,
            forall|other: int, slot: int|
                0 <= other < page && 0 <= slot < pages[other].len() ==> homes@[(
                #[trigger] pages[other][slot]) as int] == (Home {
                    page: other as u32,
                    slot: slot as u8,
                }),
    {
        assert(pages[page as int] == layout@[page as int]@);
        assert(pages[page as int].len() <= 32);
        let length: usize = layout[page].len();
        for slot in 0..length
            invariant
                pages == lists(layout@),
                settled(pages, count as int),
                page < pages.len(),
                pages.len() <= count <= u32::MAX,
                length == pages[page as int].len(),
                length <= 32,
                pages[page as int] == layout@[page as int]@,
                homes@.len() == count,
                forall|other: int, there: int|
                    0 <= other < pages.len() && 0 <= there < pages[other].len() && (other < page
                        || other == page && there < slot) ==> homes@[(
                    #[trigger] pages[other][there]) as int] == (Home {
                        page: other as u32,
                        slot: there as u8,
                    }),
        {
            let job = layout[page][slot];
            assert(pages[page as int][slot as int] == job);
            assert(within(pages[page as int], count as int));
            homes.set(job as usize, Home { page: page as u32, slot: slot as u8 });
        }
    }
    homes
}

/// Places jobs on pages: jobs that are linked to one another together, and those without neighbors
/// after them.
pub fn assign_homes(relaxed_neighbors: &[Vec<JobId>]) -> (homes: Vec<Home>)
    requires
        relaxed_neighbors@.len() <= u32::MAX,
        undirected(lists(relaxed_neighbors@)),
    ensures
        homes@.len() == relaxed_neighbors@.len(),
        exists|layout: Seq<Seq<JobId>>| #[trigger]
            laid_out(lists(relaxed_neighbors@), layout) && homes_in(layout, homes@),
{
    let layout = lay_out(relaxed_neighbors);
    proof {
        layouts_place_each_job_once(lists(relaxed_neighbors@), lists(layout@));
    }
    find_homes(&layout, relaxed_neighbors.len())
}

} // verus!

//! Which jobs share a page, and in which order jobs are laid out.

use crate::dag::{lists, JobId};
use crate::layout::{
    assign_homes, component, grouped, homes_in, laid_out, layout_of, leads, layouts_place_each_job_once,
    lemma_groups_are_laid_out, lemma_layout_places, lemma_no_job_twice, lemma_page_bound, linked,
    linked_before, pages_of, placed, undirected, walk, Home,
};
use vstd::prelude::*;

verus! {

proof fn lemma_pages_before(groups: Seq<Seq<JobId>>, group: int, other: int)
    requires
        0 <= group < other <= groups.len(),
    ensures
        layout_of(groups.take(group)).len() + pages_of(groups[group]).len() <= layout_of(
            groups.take(other),
        ).len(),
    decreases other - group,
{
    let all = groups.take(other);
    assert(all.drop_last() =~= groups.take(other - 1));
    assert(all.last() == groups[other - 1]);
    if group < other - 1 {
        lemma_pages_before(groups, group, other - 1);
    }
}

/// Where a job is in the groups tells where it is on the pages.
proof fn lemma_position(
    neighbors: Seq<Seq<JobId>>,
    groups: Seq<Seq<JobId>>,
    isolated: Seq<JobId>,
    group: int,
    index: int,
    page: int,
    slot: int,
)
    requires
        grouped(neighbors, groups, isolated),
        0 <= group < groups.push(isolated).len(),
        0 <= index < groups.push(isolated)[group].len(),
        0 <= page < layout_of(groups.push(isolated)).len(),
        0 <= slot < layout_of(groups.push(isolated))[page].len(),
        layout_of(groups.push(isolated))[page][slot] == groups.push(isolated)[group][index],
    ensures
        page == layout_of(groups.push(isolated).take(group)).len() + index / 32,
        slot == index % 32,
{
    let all = groups.push(isolated);
    let place = lemma_layout_places(all, page, slot);
    lemma_no_job_twice(neighbors, groups, isolated);
    assert(all[place.0][place.1] == all[group][index]);
}

proof fn lemma_page_is_full(
    neighbors: Seq<Seq<JobId>>,
    groups: Seq<Seq<JobId>>,
    isolated: Seq<JobId>,
    group: int,
    left: int,
    right: int,
)
    requires
        grouped(neighbors, groups, isolated),
        0 <= group < groups.push(isolated).len(),
        0 <= left < groups.push(isolated)[group].len(),
        0 <= right < groups.push(isolated)[group].len(),
        left / 32 < right / 32,
        layout_of(groups.push(isolated).take(group)).len() + left / 32 < layout_of(
            groups.push(isolated),
        ).len(),
    ensures
        layout_of(groups.push(isolated))[layout_of(groups.push(isolated).take(group)).len() + left
            / 32].len() == 32,
{
    let all = groups.push(isolated);
    let last = 32 * (left / 32) + 31;
    assert(last < right);
    let page = lemma_groups_are_laid_out(all, group, last);
    let layout = layout_of(all);
    let slot = layout[page].index_of(all[group][last]);
    lemma_position(neighbors, groups, isolated, group, last, page, slot);
    let place = lemma_layout_places(all, page, slot);
    assert(last / 32 == left / 32);
    assert(slot == 31);
    assert(layout[page].len() <= 32);
}

/// Jobs that share a page are linked, or none of them has neighbors. Linked jobs lie on different pages
/// only where the earlier page is full, and so do jobs without neighbors. Of linked jobs those with
/// more neighbors come first, and those with as many, and those with none, come as they are declared.
pub proof fn pages_hold_linked_jobs(
    neighbors: Seq<Seq<JobId>>,
    layout: Seq<Seq<JobId>>,
    page: int,
    slot: int,
    other: int,
    there: int,
)
    requires
        undirected(neighbors),
        laid_out(neighbors, layout),
        0 <= page < layout.len(),
        0 <= slot < layout[page].len(),
        0 <= other < layout.len(),
        0 <= there < layout[other].len(),
        layout[page][slot] != layout[other][there],
    ensures
        ({
            let left = layout[page][slot];
            let right = layout[other][there];
            let l = neighbors[left as int].len();
            let r = neighbors[right as int].len();
            let alike = linked(neighbors, left, right) || l == 0 && r == 0;
            &&& page == other ==> alike
            &&& alike && page < other ==> layout[page].len() == 32
            &&& alike ==> (page < other || page == other && slot < there) == (l > r || l == r && left
                < right)
        }),
{
    let (groups, isolated) = choose|groups: Seq<Seq<JobId>>, isolated: Seq<JobId>| #[trigger]
        grouped(neighbors, groups, isolated) && layout == layout_of(groups.push(isolated));
    let all = groups.push(isolated);
    let left = layout[page][slot];
    let right = layout[other][there];
    let first = lemma_layout_places(all, page, slot);
    let second = lemma_layout_places(all, other, there);
    lemma_in_group(neighbors, groups, isolated, first.0, first.1);
    lemma_in_group(neighbors, groups, isolated, second.0, second.1);
    if page == other {
        lemma_one_page(all, first, second);
    }
    if linked(neighbors, left, right) {
        lemma_one_group(neighbors, groups, isolated, first, second);
    }
    if first.0 == second.0 {
        lemma_order(neighbors, groups, isolated, first.0, first.1, second.1);
        if page < other {
            lemma_page_is_full(neighbors, groups, isolated, first.0, first.1, second.1);
        }
    }
}

proof fn lemma_one_page(all: Seq<Seq<JobId>>, first: (int, int), second: (int, int))
    requires
        0 <= first.0 < all.len(),
        0 <= first.1 < all[first.0].len(),
        0 <= second.0 < all.len(),
        0 <= second.1 < all[second.0].len(),
        layout_of(all.take(first.0)).len() + first.1 / 32 == layout_of(all.take(second.0)).len()
            + second.1 / 32,
    ensures
        first.0 == second.0,
{
    if first.0 < second.0 {
        lemma_pages_before(all, first.0, second.0);
        assert(first.1 / 32 < pages_of(all[first.0]).len());
    } else if second.0 < first.0 {
        lemma_pages_before(all, second.0, first.0);
        assert(second.1 / 32 < pages_of(all[second.0]).len());
    }
}

proof fn lemma_one_group(
    neighbors: Seq<Seq<JobId>>,
    groups: Seq<Seq<JobId>>,
    isolated: Seq<JobId>,
    first: (int, int),
    second: (int, int),
)
    requires
        grouped(neighbors, groups, isolated),
        0 <= first.0 <= groups.len(),
        0 <= first.1 < groups.push(isolated)[first.0].len(),
        0 <= second.0 <= groups.len(),
        0 <= second.1 < groups.push(isolated)[second.0].len(),
        groups.push(isolated)[first.0][first.1] != groups.push(isolated)[second.0][second.1],
        linked(
            neighbors,
            groups.push(isolated)[first.0][first.1],
            groups.push(isolated)[second.0][second.1],
        ),
    ensures
        first.0 == second.0,
{
    let all = groups.push(isolated);
    let left = all[first.0][first.1];
    let right = all[second.0][second.1];
    let path = choose|path: Seq<JobId>| #[trigger]
        walk(neighbors, path) && path.len() > 0 && path[0] == left && path.last() == right;
    if path.len() == 1 {
        assert(path.last() == path[0]);
    }
    assert(path[0] < neighbors.len() && neighbors[path[0] as int].contains(path[1]));
    lemma_in_group(neighbors, groups, isolated, first.0, first.1);
    assert(first.0 < groups.len());
    let group = groups[first.0];
    assert(component(neighbors, group));
    assert(group[first.1] == left);
    assert(group.contains(right) == linked(neighbors, group[first.1], right));
    let at = group.index_of(right);
    assert(all[first.0][at] == right);
    lemma_no_job_twice(neighbors, groups, isolated);
    assert(all[first.0][at] == all[second.0][second.1]);
}

proof fn lemma_order(
    neighbors: Seq<Seq<JobId>>,
    groups: Seq<Seq<JobId>>,
    isolated: Seq<JobId>,
    group: int,
    left: int,
    right: int,
)
    requires
        grouped(neighbors, groups, isolated),
        0 <= group <= groups.len(),
        0 <= left < groups.push(isolated)[group].len(),
        0 <= right < groups.push(isolated)[group].len(),
        groups.push(isolated)[group][left] != groups.push(isolated)[group][right],
    ensures
        ({
            let first = groups.push(isolated)[group][left];
            let second = groups.push(isolated)[group][right];
            &&& (left < right) == linked_before(neighbors, first, second)
            &&& group < groups.len() ==> linked(neighbors, first, second)
        }),
{
    let all = groups.push(isolated);
    lemma_in_group(neighbors, groups, isolated, group, left);
    lemma_in_group(neighbors, groups, isolated, group, right);
    if group < groups.len() {
        let list = groups[group];
        assert(all[group] == list);
        assert(component(neighbors, list));
        assert(list.contains(list[right]) == linked(neighbors, list[left], list[right]));
        if left < right {
            assert(linked_before(neighbors, list[left], list[right]));
        } else {
            assert(linked_before(neighbors, list[right], list[left]));
        }
    } else {
        if left < right {
            assert(isolated[left] < isolated[right]);
        } else {
            assert(isolated[right] < isolated[left]);
        }
    }
}

proof fn lemma_in_group(
    neighbors: Seq<Seq<JobId>>,
    groups: Seq<Seq<JobId>>,
    isolated: Seq<JobId>,
    group: int,
    index: int,
)
    requires
        grouped(neighbors, groups, isolated),
        0 <= group < groups.push(isolated).len(),
        0 <= index < groups.push(isolated)[group].len(),
    ensures
        (neighbors[groups.push(isolated)[group][index] as int].len() > 0) == (group
            < groups.len()),
{
    let all = groups.push(isolated);
    if group < groups.len() {
        assert(all[group] == groups[group]);
        assert(neighbors[groups[group][index] as int].len() > 0);
    } else {
        assert(isolated.contains(isolated[index]));
    }
}

/// No two jobs have the same home. Jobs that are at home on one page are linked, or none of them has
/// neighbors; where jobs that are linked, or that have none, are at home on different pages, each slot
/// of the earlier page is taken.
pub proof fn homes_are_shared_by_linked_jobs(
    relaxed_neighbors: &[Vec<JobId>],
    homes: Vec<Home>,
    left: JobId,
    right: JobId,
    slot: u8,
)
    requires
        call_ensures(assign_homes, (relaxed_neighbors,), homes),
        undirected(lists(relaxed_neighbors@)),
        relaxed_neighbors@.len() <= u32::MAX,
        left < relaxed_neighbors@.len(),
        right < relaxed_neighbors@.len(),
        left != right,
    ensures
        ({
            let neighbors = lists(relaxed_neighbors@);
            let l = neighbors[left as int].len();
            let r = neighbors[right as int].len();
            let first = homes@[left as int];
            let second = homes@[right as int];
            let alike = linked(neighbors, left, right) || l == 0 && r == 0;
            &&& homes@.len() == relaxed_neighbors@.len()
            &&& first.slot < 32
            &&& first.page != second.page || first.slot != second.slot
            &&& first.page == second.page ==> alike
            &&& alike && first.page < second.page && slot < 32 ==> exists|job: int|
                0 <= job < homes@.len() && #[trigger] homes@[job] == (Home {
                    page: first.page,
                    slot,
                })
            &&& alike ==> (first.page < second.page || first.page == second.page && first.slot
                < second.slot) == (l > r || l == r && left < right)
        }),
{
    let neighbors = lists(relaxed_neighbors@);
    let count = neighbors.len() as int;
    let layout = choose|layout: Seq<Seq<JobId>>| #[trigger]
        laid_out(neighbors, layout) && homes_in(layout, homes@);
    layouts_place_each_job_once(neighbors, layout);
    lemma_page_bound(layout, count);
    assert(placed(layout, left));
    assert(placed(layout, right));
    let page = choose|page: int| 0 <= page < layout.len() && (#[trigger] layout[page]).contains(left);
    let other = choose|page: int|
        0 <= page < layout.len() && (#[trigger] layout[page]).contains(right);
    let at = layout[page].index_of(left);
    let there = layout[other].index_of(right);
    assert(layout[page][at] == left && layout[other][there] == right);
    assert(homes@[layout[page][at] as int] == (Home { page: page as u32, slot: at as u8 }));
    assert(homes@[layout[other][there] as int] == (Home { page: other as u32, slot: there as u8 }));
    pages_hold_linked_jobs(neighbors, layout, page, at, other, there);
    assert(0 < layout[page].len() <= 32);
    assert(0 < layout[other].len() <= 32);
    if layout[page].len() == 32 && slot < 32 {
        let job = layout[page][slot as int];
        assert(homes@[layout[page][slot as int] as int] == (Home {
            page: page as u32,
            slot: slot as u8,
        }));
        assert(job < count);
        assert(homes@[job as int] == (Home { page: homes@[left as int].page, slot }));
    }
}

/// Of jobs that are not linked, those come first that are linked to the job that is declared first. Jobs
/// without neighbors come last.
pub proof fn pages_come_in_the_order_of_their_first_jobs(
    neighbors: Seq<Seq<JobId>>,
    layout: Seq<Seq<JobId>>,
    page: int,
    slot: int,
    other: int,
    there: int,
)
    requires
        undirected(neighbors),
        laid_out(neighbors, layout),
        0 <= page < other < layout.len(),
        0 <= slot < layout[page].len(),
        0 <= there < layout[other].len(),
        !linked(neighbors, layout[page][slot], layout[other][there]),
    ensures
        ({
            let left = layout[page][slot];
            let right = layout[other][there];
            &&& neighbors[left as int].len() == 0 ==> neighbors[right as int].len() == 0
            &&& neighbors[right as int].len() > 0 ==> exists|first: JobId| #[trigger]
                linked(neighbors, left, first) && forall|job: JobId| #[trigger]
                    linked(neighbors, right, job) ==> first < job
        }),
{
    let (groups, isolated) = choose|groups: Seq<Seq<JobId>>, isolated: Seq<JobId>| #[trigger]
        grouped(neighbors, groups, isolated) && layout == layout_of(groups.push(isolated));
    let all = groups.push(isolated);
    let left = layout[page][slot];
    let right = layout[other][there];
    let first = lemma_layout_places(all, page, slot);
    let second = lemma_layout_places(all, other, there);
    lemma_in_group(neighbors, groups, isolated, first.0, first.1);
    lemma_in_group(neighbors, groups, isolated, second.0, second.1);
    if second.0 < first.0 {
        lemma_pages_before(all, second.0, first.0);
        assert(second.1 / 32 < pages_of(all[second.0]).len());
    }
    if second.0 < groups.len() {
        if first.0 == second.0 {
            if left == right {
                let path = seq![left];
                assert(walk(neighbors, path));
                assert(path.last() == left);
            } else {
                lemma_order(neighbors, groups, isolated, first.0, first.1, second.1);
            }
        }
        assert(first.0 < second.0);
        let low = groups[first.0];
        let high = groups[second.0];
        assert(leads(low, high));
        let leader = choose|leader: int|
            0 <= leader < low.len() && forall|index: int|
                0 <= index < high.len() ==> #[trigger] low[leader] < #[trigger] high[index];
        assert(component(neighbors, low) && component(neighbors, high));
        assert(low[first.1] == left && high[second.1] == right);
        assert(low.contains(low[leader]) == linked(neighbors, low[first.1], low[leader]));
        assert forall|job: JobId| #[trigger] linked(neighbors, right, job) implies low[leader]
            < job by {
            assert(high.contains(job) == linked(neighbors, high[second.1], job));
            let at = high.index_of(job);
            assert(low[leader] < high[at]);
        }
        assert(linked(neighbors, left, low[leader]));
    }
}

} // verus!

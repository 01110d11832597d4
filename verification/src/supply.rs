//! Where the pages of a pool come from: how many a batch holds, and where a worker finds the next one.

use crate::memory::{
    counter_of, gathered, pushed_batches_come_back, sound_pools_have_their_stacks, stocked,
    unpack_page, Backoff, Local, Memory, Pause, BATCH, MAX_WORKERS,
};
use vstd::prelude::*;

verus! {

/// How many pages lie on the stacks from one up to another.
pub open spec fn pages_between(stacks: Seq<Seq<u64>>, from: int, to: int) -> int
    decreases to - from,
{
    if from >= to {
        0
    } else {
        pages_between(stacks, from, to - 1) + stacks[to - 1].len()
    }
}

/// How many pages lie on all stacks.
pub open spec fn pages_in_all(stacks: Seq<Seq<u64>>) -> int {
    pages_between(stacks, 0, MAX_WORKERS as int)
}

proof fn lemma_pages_from(stacks: Seq<Seq<u64>>, from: int, to: int)
    requires
        from < to,
    ensures
        pages_between(stacks, from, to) == stacks[from].len() + pages_between(stacks, from + 1, to),
    decreases to - from,
{
    if from + 1 < to {
        lemma_pages_from(stacks, from, to - 1);
    } else {
        assert(pages_between(stacks, from, to - 1) == 0);
    }
}

proof fn lemma_pages_joined(stacks: Seq<Seq<u64>>, from: int, middle: int, to: int)
    requires
        from <= middle <= to,
    ensures
        pages_between(stacks, from, to) == pages_between(stacks, from, middle) + pages_between(
            stacks,
            middle,
            to,
        ),
    decreases to - middle,
{
    if middle < to {
        lemma_pages_joined(stacks, from, middle, to - 1);
    }
}

proof fn lemma_pages_elsewhere(
    stacks: Seq<Seq<u64>>,
    changed: int,
    stack: Seq<u64>,
    from: int,
    to: int,
)
    requires
        0 <= changed < stacks.len(),
        0 <= from,
        to <= stacks.len(),
        changed < from || to <= changed,
    ensures
        pages_between(stacks.update(changed, stack), from, to) == pages_between(stacks, from, to),
    decreases to - from,
{
    if from < to {
        lemma_pages_elsewhere(stacks, changed, stack, from, to - 1);
    }
}

proof fn lemma_none_between(stacks: Seq<Seq<u64>>, from: int, to: int)
    ensures
        pages_between(stacks, from, to) >= 0,
    decreases to - from,
{
    if from < to {
        lemma_none_between(stacks, from, to - 1);
    }
}

/// How many pages lie on the stacks that a worker has not looked at, once it has looked at those
/// before `offset`.
spec fn pages_ahead(stacks: Seq<Seq<u64>>, worker: int, offset: int) -> int {
    if worker + offset < MAX_WORKERS {
        pages_between(stacks, worker + offset, MAX_WORKERS as int) + pages_between(stacks, 0, worker)
    } else {
        pages_between(stacks, worker + offset - MAX_WORKERS, worker)
    }
}

proof fn lemma_batch_size(
    stacks: Seq<Seq<u64>>,
    counters: Seq<u64>,
    worker: int,
    offset: int,
    max: int,
)
    requires
        stacks.len() == MAX_WORKERS,
        0 <= worker < MAX_WORKERS,
        0 <= offset <= MAX_WORKERS,
        max >= 0,
    ensures
        ({
            let ahead = pages_ahead(stacks, worker, offset);
            gathered(stacks, counters, worker, offset, max).pages.len() == if ahead < max {
                ahead
            } else {
                max
            }
        }),
        pages_ahead(stacks, worker, offset) >= 0,
    decreases MAX_WORKERS - offset,
{
    lemma_none_between(stacks, worker + offset, MAX_WORKERS as int);
    lemma_none_between(stacks, 0, worker);
    lemma_none_between(stacks, worker + offset - MAX_WORKERS, worker);
    if offset < MAX_WORKERS {
        let from = (worker + offset) % 64;
        let ahead = pages_ahead(stacks, worker, offset);
        let next = pages_ahead(stacks, worker, offset + 1);
        assert(ahead == stacks[from].len() + next) by {
            if worker + offset < MAX_WORKERS {
                lemma_pages_from(stacks, worker + offset, MAX_WORKERS as int);
                if worker + offset + 1 == MAX_WORKERS {
                    assert(pages_between(stacks, MAX_WORKERS as int, MAX_WORKERS as int) == 0);
                }
            } else {
                lemma_pages_from(stacks, worker + offset - MAX_WORKERS, worker);
            }
        }
        if max > 0 {
            if stacks[from].len() == 0 {
                lemma_batch_size(stacks, counters, worker, offset + 1, max);
            } else {
                let count: int = if stacks[from].len() < max {
                    stacks[from].len() as int
                } else {
                    max
                };
                let stack = stacks[from].skip(count);
                let left = stacks.update(from, stack);
                let bumped = counters.update(from, ((counters[from] + 1) % 0x1_0000) as u64);
                lemma_batch_size(left, bumped, worker, offset + 1, max - count);
                assert(pages_ahead(left, worker, offset + 1) == next) by {
                    if worker + offset + 1 < MAX_WORKERS {
                        lemma_pages_elsewhere(
                            stacks,
                            from,
                            stack,
                            worker + offset + 1,
                            MAX_WORKERS as int,
                        );
                        lemma_pages_elsewhere(stacks, from, stack, 0, worker);
                    } else {
                        lemma_pages_elsewhere(
                            stacks,
                            from,
                            stack,
                            worker + offset + 1 - MAX_WORKERS,
                            worker,
                        );
                    }
                }
                lemma_next_ahead(stacks, worker, offset + 1);
            }
        }
    } else {
        assert(pages_between(stacks, worker, worker) == 0);
    }
}

proof fn lemma_next_ahead(stacks: Seq<Seq<u64>>, worker: int, offset: int)
    ensures
        pages_ahead(stacks, worker, offset) >= 0,
{
    lemma_none_between(stacks, worker + offset, MAX_WORKERS as int);
    lemma_none_between(stacks, 0, worker);
    lemma_none_between(stacks, worker + offset - MAX_WORKERS, worker);
}

/// A batch holds as many pages as were asked for, or all that lie on the stacks where these are
/// fewer.
pub proof fn batches_take_what_there_is(
    stacks: Seq<Seq<u64>>,
    counters: Seq<u64>,
    worker: int,
    max: int,
)
    requires
        stacks.len() == MAX_WORKERS,
        0 <= worker < MAX_WORKERS,
        max >= 0,
    ensures
        gathered(stacks, counters, worker, 0, max).pages.len() == if pages_in_all(stacks) < max {
            pages_in_all(stacks)
        } else {
            max
        },
{
    lemma_batch_size(stacks, counters, worker, 0, max);
    lemma_pages_joined(stacks, 0, worker, MAX_WORKERS as int);
}

/// Two batches that were pushed one after the other come back as one, the later first, and leave the
/// stacks as they were.
pub proof fn later_batches_come_back_first(
    stacks: Seq<Seq<u64>>,
    counters: Seq<u64>,
    worker: int,
    first: Seq<u64>,
    second: Seq<u64>,
)
    requires
        stacks.len() == MAX_WORKERS,
        0 <= worker < MAX_WORKERS,
    ensures
        ({
            let once = stacks.update(worker, first + stacks[worker]);
            let twice = once.update(worker, second + once[worker]);
            let batch = gathered(twice, counters, worker, 0, (first.len() + second.len()) as int);
            &&& batch.pages == second + first
            &&& batch.stacks == stacks
        }),
{
    let once = stacks.update(worker, first + stacks[worker]);
    let twice = once.update(worker, second + once[worker]);
    let both = second + first;
    assert(second + once[worker] =~= both + stacks[worker]);
    assert(twice =~= stacks.update(worker, both + stacks[worker]));
    pushed_batches_come_back(stacks, counters, worker, both);
}

/// Whether a stack is the first that holds a page, as a worker looks from stack to stack.
pub open spec fn is_nearest(stacks: Seq<Seq<u64>>, worker: int, offset: int) -> bool {
    &&& 0 <= offset < MAX_WORKERS
    &&& stacks[(worker + offset) % 64].len() > 0
    &&& forall|earlier: int|
        0 <= earlier < offset ==> (#[trigger] stacks[(worker + earlier) % 64]).len() == 0
}

proof fn lemma_stocked(stacks: Seq<Seq<u64>>, worker: int, offset: int)
    requires
        0 <= offset <= MAX_WORKERS,
        forall|earlier: int|
            0 <= earlier < offset ==> (#[trigger] stacks[(worker + earlier) % 64]).len() == 0,
    ensures
        stocked(stacks, worker, offset) matches Some(from) ==> exists|found: int| #[trigger]
            is_nearest(stacks, worker, found) && from == (worker + found) % 64,
        stocked(stacks, worker, offset) is None ==> forall|any: int|
            0 <= any < MAX_WORKERS ==> (#[trigger] stacks[(worker + any) % 64]).len() == 0,
    decreases MAX_WORKERS - offset,
{
    if offset < MAX_WORKERS {
        if stacks[(worker + offset) % 64].len() > 0 {
            assert(is_nearest(stacks, worker, offset));
        } else {
            lemma_stocked(stacks, worker, offset + 1);
        }
    }
}

/// Where the next page of a worker comes from: from its cache, or where that is empty from its own
/// stack, or where that is empty too from the first of the other stacks in turn that holds one. Only
/// where there is none at all are fresh pages brought in: one of them is the page, and the others go
/// into the cache.
pub proof fn pages_come_from_the_nearest(
    start: (Memory, Local),
    middle: (Memory, Local),
    end: (Memory, Local),
    found: Option<u64>,
    fresh: Seq<u64>,
    page: u64,
)
    requires
        start.0.stacks().len() == MAX_WORKERS,
        start.1.worker < MAX_WORKERS,
        middle.0.popped(
            middle.1,
            start.0,
            start.1,
            stocked(start.0.stacks(), start.1.worker as int, 0),
            found,
        ),
        match found {
            Some(found) => page == found && end == middle,
            None => {
                &&& fresh.len() == BATCH
                &&& page == fresh[0]
                &&& end.0 == middle.0
                &&& end.1.worker == middle.1.worker
                &&& end.1.cache@ == middle.1.cache@ + fresh.skip(1)
            },
        },
    ensures
        ({
            let stacks = start.0.stacks();
            let own = start.1.worker as int;
            let cache = start.1.cache@;
            &&& found is None == (cache.len() == 0 && forall|other: int|
                0 <= other < MAX_WORKERS ==> (#[trigger] stacks[other]).len() == 0)
            &&& cache.len() > 0 ==> page == cache.last() && end.0 == start.0
            &&& cache.len() == 0 && stacks[own].len() > 0 ==> page == stacks[own][0] && forall|
                other: int,
            |
                0 <= other < MAX_WORKERS && other != own ==> (#[trigger] end.0.stacks()[other])
                    == stacks[other]
            &&& cache.len() == 0 && found is Some ==> exists|offset: int| #[trigger]
                is_nearest(stacks, own, offset) && page == stacks[(own + offset) % 64][0]
            &&& found is None ==> page == fresh[0] && end.0 == start.0 && end.1.cache@ == fresh.skip(
                1,
            ) && end.1.cache@.len() == BATCH - 1
        }),
{
    let stacks = start.0.stacks();
    let own = start.1.worker as int;
    let cache = start.1.cache@;
    lemma_stocked(stacks, own, 0);
    assert((own + 0) % 64 == own);
    if cache.len() == 0 {
        if stocked(stacks, own, 0) is None {
            assert forall|other: int| 0 <= other < MAX_WORKERS implies (
            #[trigger] stacks[other]).len() == 0 by {
                let offset = if other >= own {
                    other - own
                } else {
                    other + 64 - own
                };
                assert((own + offset) % 64 == other);
                assert(stacks[(own + offset) % 64].len() == 0);
            }
            assert(end.1.cache@ =~= fresh.skip(1));
        } else {
            let offset = choose|offset: int| #[trigger]
                is_nearest(stacks, own, offset) && stocked(stacks, own, 0)->Some_0 == (own + offset)
                    % 64;
            let from = (own + offset) % 64;
            assert(stacks[from].len() > 0);
            assert(0 <= from < MAX_WORKERS);
        }
    }
}

/// Where all pages that a pool and a worker keep are multiples of the size of a page, so is each that
/// the worker takes, and so are those that are left.
pub proof fn pages_stay_aligned(
    before: (Memory, Local),
    after: (Memory, Local),
    page: u64,
    size: int,
)
    requires
        size > 0,
        forall|other: u64| #[trigger]
            before.0.keeps(before.1, other) == (after.0.keeps(after.1, other) || other == page),
        forall|other: u64| #[trigger] before.0.keeps(before.1, other) ==> other as int % size == 0,
    ensures
        page as int % size == 0,
        forall|other: u64| #[trigger] after.0.keeps(after.1, other) ==> other as int % size == 0,
{
    assert(before.0.keeps(before.1, page));
    assert forall|other: u64| #[trigger] after.0.keeps(after.1, other) implies other as int % size
        == 0 by {
        assert(before.0.keeps(before.1, other));
    }
}

/// A page that is pushed goes into the cache of its worker, behind the others, while the cache holds
/// less than 64. A full cache gives up the 32 pages that it got last: they go onto the stack of its
/// worker with the page above them, and the other 32 stay. No other stack changes.
pub proof fn full_caches_give_up_half(
    memory: &mut Memory,
    local: &mut Local,
    page: u64,
    other: int,
)
    requires
        call_ensures(Memory::push, (memory, local, page), ()),
        old(memory).sound(),
        old(local).sound(),
        0 <= other < 64,
    ensures
        ({
            let own = old(local).worker as int;
            let before = old(local).cache@;
            let after = final(local).cache@;
            let stacks = old(memory).stacks();
            &&& final(local).worker == own
            &&& before.len() <= 64
            &&& before.len() < 64 ==> {
                &&& after.len() == before.len() + 1
                &&& after.last() == page
                &&& after.drop_last() == before
                &&& final(memory).stacks() == stacks
            }
            &&& before.len() == 64 ==> {
                let stack = final(memory).stacks()[own];
                &&& after.len() == 32
                &&& before == after + stack.subrange(1, 33)
                &&& stack.len() == stacks[own].len() + 33
                &&& stack[0] == page
                &&& stack.skip(33) == stacks[own]
                &&& other != own ==> final(memory).stacks()[other] == stacks[other]
            }
        }),
{
    let own = old(local).worker as int;
    let before = old(local).cache@;
    let stacks = old(memory).stacks();
    sound_pools_have_their_stacks(*old(memory));
    if before.len() < 64 {
        assert(before.push(page).drop_last() =~= before);
    } else {
        let stack = seq![page] + before.skip(32) + stacks[own];
        assert(final(memory).stacks() == stacks.update(own, stack));
        assert(stack.subrange(1, 33) =~= before.skip(32));
        assert(before =~= before.take(32) + before.skip(32));
        assert(stack.skip(33) =~= stacks[own]);
    }
}

/// A page that is popped is the last of the cache of its worker, where that holds one. Otherwise it is
/// the top of a stack that holds one, if any does, and the pages below it go into the cache, 31 of
/// them at most, so that the one that lay highest comes next.
pub proof fn empty_caches_are_filled_again(
    memory: &mut Memory,
    local: &mut Local,
    page: Option<u64>,
    at: int,
)
    requires
        call_ensures(Memory::pop, (memory, local), page),
        old(memory).sound(),
        old(local).sound(),
    ensures
        ({
            let before = old(local).cache@;
            let after = final(local).cache@;
            let stacks = old(memory).stacks();
            &&& before.len() > 0 ==> {
                &&& page == Some(before.last())
                &&& after == before.drop_last()
                &&& final(memory).stacks() == stacks
            }
            &&& before.len() == 0 && page is None ==> {
                &&& after == before
                &&& final(memory).stacks() == stacks
                &&& forall|worker: int|
                    0 <= worker < 64 ==> (#[trigger] stacks[worker]).len() == 0
            }
            &&& before.len() == 0 && page is Some ==> exists|offset: int| #[trigger]
                is_nearest(stacks, old(local).worker as int, offset) && ({
                    let from = (old(local).worker as int + offset) % 64;
                    let stack = stacks[from];
                    let count: int = if stack.len() < 32 {
                        stack.len() as int
                    } else {
                        32
                    };
                    &&& page == Some(stack[0])
                    &&& after.len() == count - 1
                    &&& 0 <= at < count - 1 ==> after[count - 2 - at] == stack[at + 1]
                    &&& final(memory).stacks() == stacks.update(from, stack.skip(count))
                })
        }),
{
    let own = old(local).worker as int;
    let before = old(local).cache@;
    let stacks = old(memory).stacks();
    sound_pools_have_their_stacks(*old(memory));
    if before.len() == 0 {
        lemma_stocked(stacks, own, 0);
        if page is Some {
            let from = stocked(stacks, own, 0)->Some_0;
            let offset = choose|found: int| #[trigger]
                is_nearest(stacks, own, found) && from == (own + found) % 64;
            assert(is_nearest(stacks, own, offset));
            let stack = stacks[from];
            let count: int = if stack.len() < 32 {
                stack.len() as int
            } else {
                32
            };
            assert(final(local).cache@ == stack.subrange(1, count).reverse());
        } else {
            assert forall|worker: int| 0 <= worker < 64 implies (#[trigger] stacks[worker]).len()
                == 0 by {
                if stocked(stacks, own, 0) is None {
                    let any = (worker - own + 64) % 64;
                    assert((own + any) % 64 == worker);
                    assert(stacks[(own + any) % 64].len() == 0);
                }
            }
        }
    }
}

/// Trying to pop looks at no stack but that of the worker.
pub proof fn tries_stay_at_home(memory: &mut Memory, local: &mut Local, page: Option<u64>, other: int)
    requires
        call_ensures(Memory::try_pop, (memory, local), page),
        old(memory).sound(),
        old(local).sound(),
        0 <= other < 64,
    ensures
        ({
            let own = old(local).worker as int;
            let before = old(local).cache@;
            let stacks = old(memory).stacks();
            &&& page is None == (before.len() == 0 && stacks[own].len() == 0)
            &&& before.len() > 0 ==> page == Some(before.last()) && final(memory).stacks() == stacks
            &&& before.len() == 0 && stacks[own].len() > 0 ==> page == Some(stacks[own][0])
            &&& other != own ==> final(memory).stacks()[other] == stacks[other]
        }),
{
    sound_pools_have_their_stacks(*old(memory));
}

/// A batch begins with the pages of the worker's own stack, from its top. Where these are enough no
/// other stack is touched; where they are not, that stack is left empty.
pub proof fn batches_begin_at_home(
    stacks: Seq<Seq<u64>>,
    counters: Seq<u64>,
    worker: int,
    max: int,
)
    requires
        stacks.len() == MAX_WORKERS,
        0 <= worker < MAX_WORKERS,
        max >= 0,
    ensures
        ({
            let batch = gathered(stacks, counters, worker, 0, max);
            let own = stacks[worker];
            &&& own.len() >= max ==> batch.pages == own.take(max) && batch.stacks == stacks.update(
                worker,
                own.skip(max),
            )
            &&& own.len() < max ==> own.len() <= batch.pages.len() && batch.pages.take(
                own.len() as int,
            ) == own
        }),
{
    let own = stacks[worker];
    let batch = gathered(stacks, counters, worker, 0, max);
    assert((worker + 0) % 64 == worker);
    if max == 0 {
        assert(own.take(0) =~= Seq::<u64>::empty());
        assert(own.skip(0) =~= own);
        assert(stacks.update(worker, own) =~= stacks);
    } else if own.len() == 0 {
        assert(batch.pages.take(0) =~= own);
    } else {
        let count: int = if own.len() < max {
            own.len() as int
        } else {
            max
        };
        let rest = gathered(
            stacks.update(worker, own.skip(count)),
            counters.update(worker, ((counters[worker] + 1) % 0x1_0000) as u64),
            worker,
            1,
            max - count,
        );
        assert(batch.pages == own.take(count) + rest.pages);
        if count == max {
            assert(rest.pages =~= Seq::<u64>::empty());
            assert(batch.pages =~= own.take(max));
        } else {
            assert(own.take(count) =~= own);
            assert(batch.pages.take(count) =~= own);
        }
    }
}

/// A head word holds an address in multiples of 4096 below its upper sixteen bits, which count.
pub proof fn head_words_hold_addresses(word: u64, page: u64)
    requires
        call_ensures(unpack_page, (word,), page),
    ensures
        page == (word % 0x1_0000_0000_0000) * 4096,
        counter_of(word) == word / 0x1_0000_0000_0000,
{
    assert(((word & 0xffff_ffff_ffff) << 12) == (word % 0x1_0000_0000_0000u64) * 4096u64 && (word
        >> 48) == word / 0x1_0000_0000_0000u64) by (bit_vector);
}

/// A worker that waits spins first, twice as long each time, for nine times, and gives way from then
/// on.
pub proof fn waiting_spins_before_it_yields(backoff: &mut Backoff, pause: Pause)
    requires
        call_ensures(Backoff::snooze, (backoff,), pause),
    ensures
        match old(backoff).step {
            0 => pause == (Pause::Spin { rounds: 1 }),
            1 => pause == (Pause::Spin { rounds: 2 }),
            2 => pause == (Pause::Spin { rounds: 4 }),
            3 => pause == (Pause::Spin { rounds: 8 }),
            4 => pause == (Pause::Spin { rounds: 16 }),
            5 => pause == (Pause::Spin { rounds: 32 }),
            6 => pause == (Pause::Spin { rounds: 64 }),
            7 => pause == (Pause::Spin { rounds: 128 }),
            8 => pause == (Pause::Spin { rounds: 256 }),
            _ => pause == Pause::Yield,
        },
        old(backoff).step <= 8 ==> final(backoff).step == old(backoff).step + 1,
        old(backoff).step > 8 ==> final(backoff).step == old(backoff).step,
{
    assert(1u32 << 0u32 == 1 && 1u32 << 1u32 == 2 && 1u32 << 2u32 == 4 && 1u32 << 3u32 == 8 && 1u32
        << 4u32 == 16 && 1u32 << 5u32 == 32 && 1u32 << 6u32 == 64 && 1u32 << 7u32 == 128 && 1u32
        << 8u32 == 256) by (bit_vector);
}

} // verus!

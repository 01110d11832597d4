//! A pool of memory pages: a stack of pages for each worker, and a cache in front of each stack.
//!
//! A page is known by its address. The pool never looks inside a page, other than to keep, for a
//! page that lies on a stack, the address of the page below it.

use std::collections::HashMap;
use vstd::prelude::*;

verus! {

broadcast use vstd::std_specs::hash::group_hash_axioms;

/// How many stacks a pool has.
pub const MAX_WORKERS: usize = 64;

/// How many pages a cache holds at most.
pub const CACHE_CAPACITY: usize = 64;

/// How many pages move between a cache and a stack at once.
pub const BATCH: usize = 32;

const PAGE_SHIFT: u64 = 12;

const COUNTER_SHIFT: u64 = 48;

const POINTER_MASK: u64 = 0xffff_ffff_ffff;

const COUNTER_MASK: u64 = 0xffff_0000_0000_0000;

const COUNTER_INCREMENT: u64 = 0x1_0000_0000_0000;

/// [`page_size::get`] returns the size of a memory page of the machine. Nothing more is said of
/// it: the size is the machine's own.
pub assume_specification[ page_size::get ]() -> (size: usize)
;

/// Whether an address is one that a page can have: it is not zero, it is aligned to the smallest
/// page, and the part of it that is not zero fits beside a counter in a word.
pub open spec fn is_page(page: u64) -> bool {
    &&& page != 0
    &&& page % 4096 == 0
    &&& page < 0x1000_0000_0000_0000
}

/// The address that a head word holds. Zero stands for an empty stack.
pub open spec fn page_of(word: u64) -> u64 {
    ((word & 0xffff_ffff_ffff) << 12)
}

/// The counter that a head word holds.
pub open spec fn counter_of(word: u64) -> u64 {
    (word >> 48)
}

/// The head word that holds a counter and an address.
pub open spec fn head_word(counter: u64, page: u64) -> u64 {
    (counter << 48) | (page >> 12)
}

/// A head word gives back the counter and the address that it was made of, and is made of nothing
/// else.
pub proof fn head_words_unpack(counter: u64, page: u64, word: u64)
    requires
        counter < 0x1_0000,
        page == 0 || is_page(page),
    ensures
        page_of(head_word(counter, page)) == page,
        counter_of(head_word(counter, page)) == counter,
        page_of(word) == page && counter_of(word) == counter ==> word == head_word(counter, page),
{
    assert((((counter << 48) | (page >> 12)) & 0xffff_ffff_ffff) << 12 == page && ((counter << 48)
        | (page >> 12)) >> 48 == counter) by (bit_vector)
        requires
            counter < 0x1_0000,
            page % 4096 == 0,
            page < 0x1000_0000_0000_0000,
    ;
    assert(word == ((word >> 48) << 48) | (((word & 0xffff_ffff_ffff) << 12) >> 12))
        by (bit_vector);
}

/// The address that a head word holds.
pub fn unpack_page(word: u64) -> (page: u64)
    ensures
        page == page_of(word),
{
    (word & POINTER_MASK) << PAGE_SHIFT
}

/// The head word that follows another: it holds the given address, and the next counter. The address
/// that the other held has no part in it.
pub fn pack_next(word: u64, page: u64) -> (packed: u64)
    requires
        page == 0 || is_page(page),
    ensures
        packed == head_word(((counter_of(word) + 1) % 0x1_0000) as u64, page),
        page_of(packed) == page,
        counter_of(packed) == (counter_of(word) + 1) % 0x1_0000,
{
    let sum: u64 = word.wrapping_add(COUNTER_INCREMENT);
    let packed: u64 = (sum & COUNTER_MASK) | (page >> PAGE_SHIFT);
    assert(packed == (sum & 0xffff_0000_0000_0000) | (page >> 12));
    assert(((((sum & 0xffff_0000_0000_0000) | (page >> 12)) & 0xffff_ffff_ffff) << 12) == page)
        by (bit_vector)
        requires
            page % 4096 == 0,
            page < 0x1000_0000_0000_0000,
    ;
    proof {
        if word + 0x1_0000_0000_0000 <= u64::MAX {
            assert((((sum & 0xffff_0000_0000_0000) | (page >> 12)) >> 48) == ((word >> 48) + 1)
                % 0x1_0000) by (bit_vector)
                requires
                    page < 0x1000_0000_0000_0000,
                    sum == word + 0x1_0000_0000_0000,
            ;
        } else {
            assert((((sum & 0xffff_0000_0000_0000) | (page >> 12)) >> 48) == ((word >> 48) + 1)
                % 0x1_0000) by (bit_vector)
                requires
                    page < 0x1000_0000_0000_0000,
                    word + 0x1_0000_0000_0000 > 0xffff_ffff_ffff_ffff,
                    sum + 0xffff_ffff_ffff_ffff + 1 == word + 0x1_0000_0000_0000,
            ;
        }
        head_words_unpack(counter_of(packed), page, packed);
    }
    packed
}

/// The pages that one worker keeps at hand.
pub struct LocalCache {
    pages: Vec<u64>,
}

impl View for LocalCache {
    type V = Seq<u64>;

    closed spec fn view(&self) -> Seq<u64> {
        self.pages@
    }
}

impl LocalCache {
    /// An empty cache.
    pub fn new() -> (cache: Self)
        ensures
            cache@ == Seq::<u64>::empty(),
    {
        LocalCache { pages: Vec::new() }
    }

    /// Takes out the page that was put in last.
    pub fn pop(&mut self) -> (page: Option<u64>)
        ensures
            old(self)@.len() == 0 ==> page is None && final(self)@ == old(self)@,
            old(self)@.len() > 0 ==> page == Some(old(self)@.last()) && final(self)@ == old(
                self,
            )@.drop_last(),
    {
        self.pages.pop()
    }

    /// Puts in a page, and tells whether there was room for it.
    pub fn push(&mut self, page: u64) -> (room: bool)
        ensures
            room == (old(self)@.len() < CACHE_CAPACITY),
            final(self)@ == if room {
                old(self)@.push(page)
            } else {
                old(self)@
            },
    {
        if self.pages.len() < CACHE_CAPACITY {
            self.pages.push(page);
            true
        } else {
            false
        }
    }

    /// Takes out the pages that were put in last, at most `max` of them, in the order in which
    /// they were put in.
    pub fn drain(&mut self, max: usize) -> (pages: Vec<u64>)
        ensures
            pages@.len() == if old(self)@.len() < max {
                old(self)@.len()
            } else {
                max as nat
            },
            old(self)@ == final(self)@ + pages@,
    {
        let length: usize = self.pages.len();
        let count: usize = if length < max {
            length
        } else {
            max
        };
        self.pages.split_off(length - count)
    }
}

/// What a worker holds beside the pool that it shares: its cache, and which stack is its own.
pub struct Local {
    pub cache: LocalCache,
    pub worker: usize,
}

impl Local {
    /// Whether the worker has a stack.
    pub open spec fn sound(self) -> bool {
        &&& self.worker < MAX_WORKERS
        &&& self.cache@.len() <= CACHE_CAPACITY
    }

    /// A worker with an empty cache. Workers take the stacks in turn, as `next` counts them.
    pub fn new(next: &mut u16) -> (local: Self)
        ensures
            local.sound(),
            local.cache@ == Seq::<u64>::empty(),
            local.worker == *old(next) % 64,
            *final(next) == if *old(next) == u16::MAX {
                0
            } else {
                (*old(next) + 1) as u16
            },
    {
        let worker: usize = *next as usize % MAX_WORKERS;
        *next = next.wrapping_add(1);
        Local { cache: LocalCache::new(), worker }
    }
}

/// A pool of pages.
pub struct Memory {
    pool_heads: Vec<u64>,
    links: HashMap<u64, u64>,
    page_bytes: usize,
    stacks: Ghost<Seq<Seq<u64>>>,
}

/// The top of a stack, or zero where it is empty.
pub open spec fn top(stack: Seq<u64>) -> u64 {
    if stack.len() == 0 {
        0
    } else {
        stack[0]
    }
}

/// Whether no page lies in two places.
pub open spec fn distinct(stacks: Seq<Seq<u64>>) -> bool {
    forall|left: int, high: int, right: int, low: int|
        0 <= left < stacks.len() && 0 <= high < stacks[left].len() && 0 <= right < stacks.len()
            && 0 <= low < stacks[right].len() && #[trigger] stacks[left][high]
            == #[trigger] stacks[right][low] ==> left == right && high == low
}

/// Whether a page lies on one of the stacks.
pub open spec fn stacked(stacks: Seq<Seq<u64>>, page: u64) -> bool {
    exists|worker: int, depth: int|
        0 <= worker < stacks.len() && 0 <= depth < stacks[worker].len()
            && #[trigger] stacks[worker][depth] == page
}

/// Whether pages that lie on no stack may be put there: each has the address of a page, none
/// comes twice, and none lies on a stack already.
pub open spec fn loose(stacks: Seq<Seq<u64>>, pages: Seq<u64>) -> bool {
    &&& forall|index: int| 0 <= index < pages.len() ==> is_page(#[trigger] pages[index])
    &&& forall|index: int| 0 <= index < pages.len() ==> !stacked(stacks, #[trigger] pages[index])
    &&& pages.no_duplicates()
}

spec fn page_below(stack: Seq<u64>, depth: int) -> u64 {
    if depth + 1 < stack.len() {
        stack[depth + 1]
    } else {
        0
    }
}

spec fn linked(links: Map<u64, u64>, stack: Seq<u64>) -> bool {
    &&& forall|depth: int|
        0 <= depth < stack.len() ==> is_page(#[trigger] stack[depth]) && links.contains_key(
            stack[depth],
        )
    &&& forall|depth: int|
        0 <= depth < stack.len() ==> #[trigger] links[stack[depth]] == page_below(stack, depth)
}

spec fn shift(stack: int, worker: int, count: int) -> int {
    if stack == worker {
        count
    } else {
        0
    }
}

proof fn lemma_put_stack(stacks: Seq<Seq<u64>>, worker: int, pages: Seq<u64>)
    requires
        distinct(stacks),
        loose(stacks, pages),
        0 <= worker < stacks.len(),
    ensures
        distinct(stacks.update(worker, pages + stacks[worker])),
        forall|page: u64|
            stacked(stacks.update(worker, pages + stacks[worker]), page) == (stacked(stacks, page)
                || pages.contains(page)),
{
    let joined = pages + stacks[worker];
    let after = stacks.update(worker, joined);
    let moved = |stack: int, depth: int| depth - shift(stack, worker, pages.len() as int);
    assert forall|left: int, high: int, right: int, low: int|
        0 <= left < after.len() && 0 <= high < after[left].len() && 0 <= right < after.len() && 0
            <= low < after[right].len() && #[trigger] after[left][high]
            == #[trigger] after[right][low] implies left == right && high == low by {
        if moved(left, high) >= 0 {
            assert(after[left][high] == stacks[left][moved(left, high)]);
        } else {
            assert(after[left][high] == pages[high]);
        }
        if moved(right, low) >= 0 {
            assert(after[right][low] == stacks[right][moved(right, low)]);
        } else {
            assert(after[right][low] == pages[low]);
        }
    }
    assert forall|page: u64|
        stacked(after, page) == (stacked(stacks, page) || pages.contains(page)) by {
        if stacked(after, page) {
            let (stack, depth) = choose|stack: int, depth: int|
                0 <= stack < after.len() && 0 <= depth < after[stack].len()
                    && #[trigger] after[stack][depth] == page;
            if moved(stack, depth) >= 0 {
                assert(stacks[stack][moved(stack, depth)] == page);
            } else {
                assert(pages[depth] == page);
            }
        }
        if stacked(stacks, page) {
            let (stack, depth) = choose|stack: int, depth: int|
                0 <= stack < stacks.len() && 0 <= depth < stacks[stack].len()
                    && #[trigger] stacks[stack][depth] == page;
            if stack == worker {
                assert(after[stack][depth + pages.len()] == page);
            } else {
                assert(after[stack][depth] == page);
            }
        }
        if pages.contains(page) {
            let depth = choose|depth: int| 0 <= depth < pages.len() && pages[depth] == page;
            assert(after[worker][depth] == page);
        }
    }
}

proof fn lemma_cut_stack(stacks: Seq<Seq<u64>>, worker: int, count: int)
    requires
        distinct(stacks),
        0 <= worker < stacks.len(),
        0 <= count <= stacks[worker].len(),
    ensures
        distinct(stacks.update(worker, stacks[worker].skip(count))),
        stacks[worker].take(count).no_duplicates(),
        forall|page: u64|
            stacked(stacks, page) == (stacked(
                stacks.update(worker, stacks[worker].skip(count)),
                page,
            ) || stacks[worker].take(count).contains(page)),
        forall|page: u64| #[trigger]
            stacks[worker].take(count).contains(page) ==> !stacked(
                stacks.update(worker, stacks[worker].skip(count)),
                page,
            ),
{
    let cut = stacks[worker].take(count);
    let after = stacks.update(worker, stacks[worker].skip(count));
    let placed = |stack: int, depth: int| depth + shift(stack, worker, count);
    assert forall|left: int, high: int, right: int, low: int|
        0 <= left < after.len() && 0 <= high < after[left].len() && 0 <= right < after.len() && 0
            <= low < after[right].len() && #[trigger] after[left][high]
            == #[trigger] after[right][low] implies left == right && high == low by {
        assert(after[left][high] == stacks[left][placed(left, high)]);
        assert(after[right][low] == stacks[right][placed(right, low)]);
    }
    assert forall|high: int, low: int|
        0 <= high < cut.len() && 0 <= low < cut.len() && high != low implies cut[high]
        != cut[low] by {
        assert(cut[high] == stacks[worker][high] && cut[low] == stacks[worker][low]);
    }
    assert forall|page: u64| stacked(stacks, page) == (stacked(after, page) || cut.contains(page)) by {
        if stacked(stacks, page) {
            let (stack, depth) = choose|stack: int, depth: int|
                0 <= stack < stacks.len() && 0 <= depth < stacks[stack].len()
                    && #[trigger] stacks[stack][depth] == page;
            if stack == worker && depth < count {
                assert(cut[depth] == page);
            } else if stack == worker {
                assert(after[stack][depth - count] == page);
            } else {
                assert(after[stack][depth] == page);
            }
        }
        if stacked(after, page) {
            let (stack, depth) = choose|stack: int, depth: int|
                0 <= stack < after.len() && 0 <= depth < after[stack].len()
                    && #[trigger] after[stack][depth] == page;
            assert(stacks[stack][placed(stack, depth)] == page);
        }
        if cut.contains(page) {
            let depth = choose|depth: int| 0 <= depth < cut.len() && cut[depth] == page;
            assert(stacks[worker][depth] == page);
        }
    }
    assert forall|page: u64| #[trigger] cut.contains(page) implies !stacked(after, page) by {
        let depth = choose|depth: int| 0 <= depth < cut.len() && cut[depth] == page;
        assert(stacks[worker][depth] == page);
        if stacked(after, page) {
            let (stack, low) = choose|stack: int, low: int|
                0 <= stack < after.len() && 0 <= low < after[stack].len()
                    && #[trigger] after[stack][low] == page;
            assert(stacks[stack][placed(stack, low)] == page);
        }
    }
}

impl Memory {
    /// The stacks of the pool, each from its top.
    pub closed spec fn stacks(self) -> Seq<Seq<u64>> {
        self.stacks@
    }

    /// How often the stack of each worker was changed, up to the width of the counter.
    pub closed spec fn counters(self) -> Seq<u64> {
        Seq::new(self.pool_heads@.len(), |worker: int| counter_of(self.pool_heads@[worker]))
    }

    /// The size of a page.
    pub closed spec fn page_bytes(self) -> usize {
        self.page_bytes
    }

    /// Whether each head leads through its stack, and no page lies on two stacks.
    pub closed spec fn sound(self) -> bool {
        &&& self.pool_heads@.len() == MAX_WORKERS
        &&& self.stacks@.len() == MAX_WORKERS
        &&& distinct(self.stacks@)
        &&& forall|worker: int|
            0 <= worker < MAX_WORKERS ==> page_of(#[trigger] self.pool_heads@[worker]) == top(
                self.stacks@[worker],
            )
        &&& forall|worker: int|
            0 <= worker < MAX_WORKERS ==> linked(self.links@, #[trigger] self.stacks@[worker])
    }

    /// An empty pool of pages of the given size.
    pub fn with_page_size(bytes: usize) -> (memory: Self)
        ensures
            memory.sound(),
            memory.page_bytes() == bytes,
            memory.stacks() == Seq::new(MAX_WORKERS as nat, |worker: int| Seq::<u64>::empty()),
            memory.counters() == Seq::new(MAX_WORKERS as nat, |worker: int| 0u64),
    {
        let mut pool_heads: Vec<u64> = Vec::new();
        pool_heads.resize(MAX_WORKERS, 0);
        let memory = Memory {
            pool_heads,
            links: HashMap::new(),
            page_bytes: bytes,
            stacks: Ghost(Seq::new(MAX_WORKERS as nat, |worker: int| Seq::<u64>::empty())),
        };
        assert(((0u64 & 0xffff_ffff_ffff) << 12) == 0 && (0u64 >> 48) == 0) by (bit_vector);
        memory
    }

    /// An empty pool of pages of the machine's own size, which is what [`page_size::get`] returns.
    pub fn new() -> (memory: Self)
        ensures
            memory.sound(),
            memory.stacks() == Seq::new(MAX_WORKERS as nat, |worker: int| Seq::<u64>::empty()),
            memory.counters() == Seq::new(MAX_WORKERS as nat, |worker: int| 0u64),
            call_ensures(page_size::get, (), memory.page_bytes()),
    {
        Memory::with_page_size(page_size::get())
    }

    /// The size of a page.
    pub fn size(&self) -> (size: usize)
        ensures
            size == self.page_bytes(),
    {
        self.page_bytes
    }

    /// Whether the pool is as another was, but for the stack of one worker, which was changed
    /// once.
    pub open spec fn restacked(self, before: Memory, worker: int, stack: Seq<u64>) -> bool {
        &&& self.page_bytes() == before.page_bytes()
        &&& self.stacks() == before.stacks().update(worker, stack)
        &&& self.counters() == before.counters().update(
            worker,
            ((before.counters()[worker] + 1) % 0x1_0000) as u64,
        )
    }

    fn push_chain(&mut self, worker: usize, pages: &Vec<u64>)
        requires
            old(self).sound(),
            worker < MAX_WORKERS,
            pages@.len() > 0,
            loose(old(self).stacks(), pages@),
        ensures
            final(self).sound(),
            final(self).restacked(
                *old(self),
                worker as int,
                pages@ + old(self).stacks()[worker as int],
            ),
    {
        let ghost before = self.stacks@;
        let ghost stack = before[worker as int];
        let head_word: u64 = self.pool_heads[worker];
        let mut below: u64 = unpack_page(head_word);
        let mut index: usize = pages.len();
        while index > 0
            invariant
                index <= pages@.len(),
                loose(before, pages@),
                distinct(before),
                before.len() == MAX_WORKERS,
                worker < MAX_WORKERS,
                stack == before[worker as int],
                self.stacks@ == before,
                self.pool_heads@ == old(self).pool_heads@,
                self.page_bytes == old(self).page_bytes,
                below == top(pages@.skip(index as int) + stack),
                linked(self.links@, pages@.skip(index as int) + stack),
                forall|other: int|
                    0 <= other < MAX_WORKERS ==> linked(self.links@, #[trigger] before[other]),
            decreases index,
        {
            let ghost links = self.links@;
            let ghost upper = pages@.skip(index as int) + stack;
            index = index - 1;
            let page: u64 = pages[index];
            self.links.insert(page, below);
            below = page;
            proof {
                let joined = pages@.skip(index as int) + stack;
                assert(joined =~= seq![page] + upper);
                assert forall|depth: int| 0 <= depth < joined.len() implies is_page(
                    #[trigger] joined[depth],
                ) && self.links@.contains_key(joined[depth]) by {
                    if depth > 0 {
                        assert(joined[depth] == upper[depth - 1]);
                    }
                }
                assert forall|depth: int| 0 <= depth < joined.len() implies #[trigger]
                self.links@[joined[depth]] == page_below(joined, depth) by {
                    if depth > 0 {
                        assert(joined[depth] == upper[depth - 1]);
                        assert(links[upper[depth - 1]] == page_below(upper, depth - 1));
                        let ahead = index + depth;
                        if ahead < pages@.len() {
                            assert(joined[depth] == pages@[ahead]);
                        } else {
                            assert(joined[depth] == before[worker as int][ahead - pages@.len()]);
                        }
                        assert(joined[depth] != page);
                    }
                }
                assert forall|other: int| 0 <= other < MAX_WORKERS implies linked(
                    self.links@,
                    #[trigger] before[other],
                ) by {
                    let list = before[other];
                    assert(linked(links, list));
                    assert forall|depth: int| 0 <= depth < list.len() implies #[trigger]
                    self.links@[list[depth]] == page_below(list, depth) && list[depth] != page by {
                        assert(before[other][depth] != page);
                        assert(links[list[depth]] == page_below(list, depth));
                    }
                }
            }
        }
        let first: u64 = pages[0];
        let packed: u64 = pack_next(head_word, first);
        self.pool_heads.set(worker, packed);
        proof {
            assert(pages@.skip(0) =~= pages@);
            lemma_put_stack(before, worker as int, pages@);
            self.stacks = Ghost(before.update(worker as int, pages@ + stack));
            assert(self.counters() =~= old(self).counters().update(
                worker as int,
                ((old(self).counters()[worker as int] + 1) % 0x1_0000) as u64,
            ));
        }
    }

    fn take_chain(&mut self, worker: usize, max: usize) -> (pages: Vec<u64>)
        requires
            old(self).sound(),
            worker < MAX_WORKERS,
            max > 0,
        ensures
            final(self).sound(),
            ({
                let stack = old(self).stacks()[worker as int];
                let count: int = if stack.len() < max {
                    stack.len() as int
                } else {
                    max as int
                };
                &&& pages@ == stack.take(count)
                &&& if stack.len() == 0 {
                    *final(self) == *old(self)
                } else {
                    final(self).restacked(*old(self), worker as int, stack.skip(count))
                }
            }),
            forall|index: int| 0 <= index < pages@.len() ==> is_page(#[trigger] pages@[index]),
    {
        let ghost before = self.stacks@;
        let ghost stack = before[worker as int];
        let mut pages: Vec<u64> = Vec::new();
        let head_word: u64 = self.pool_heads[worker];
        let head: u64 = unpack_page(head_word);
        assert(linked(self.links@, stack));
        if head == 0 {
            proof {
                if stack.len() > 0 {
                    assert(is_page(stack[0]));
                }
                assert(stack.take(0) =~= Seq::<u64>::empty());
            }
            return pages;
        }
        let mut current: u64 = head;
        while current != 0 && pages.len() < max
            invariant
                *self == *old(self),
                linked(self.links@, stack),
                stack.len() > 0,
                pages@.len() <= max,
                pages@.len() <= stack.len(),
                pages@ == stack.take(pages@.len() as int),
                current == top(stack.skip(pages@.len() as int)),
            decreases max - pages@.len(),
        {
            let ghost count = pages@.len() as int;
            assert(count < stack.len());
            assert(current == stack[count]);
            pages.push(current);
            assert(self.links@[stack[count]] == page_below(stack, count));
            current = *self.links.get(&current).unwrap();
            assert(stack.take(count + 1) =~= stack.take(count).push(stack[count]));
        }
        let ghost count = pages@.len() as int;
        proof {
            if count < stack.len() {
                assert(is_page(stack[count]));
            }
        }
        let packed: u64 = pack_next(head_word, current);
        self.pool_heads.set(worker, packed);
        proof {
            let left = stack.skip(count);
            lemma_cut_stack(before, worker as int, count);
            self.stacks = Ghost(before.update(worker as int, left));
            assert forall|depth: int| 0 <= depth < left.len() implies is_page(
                #[trigger] left[depth],
            ) && self.links@.contains_key(left[depth]) && self.links@[left[depth]] == page_below(
                left,
                depth,
            ) by {
                assert(left[depth] == stack[depth + count]);
                assert(self.links@[stack[depth + count]] == page_below(stack, depth + count));
            }
            assert(linked(self.links@, left));
            assert(self.counters() =~= old(self).counters().update(
                worker as int,
                ((old(self).counters()[worker as int] + 1) % 0x1_0000) as u64,
            ));
        }
        pages
    }

    /// Whether a page lies in the cache of a worker or on a stack.
    pub open spec fn keeps(self, local: Local, page: u64) -> bool {
        stacked(self.stacks(), page) || local.cache@.contains(page)
    }

    /// Whether a page was put into the cache of a worker or, where that was full, onto the stack
    /// of the worker, above the half of the cache that was put in last.
    pub open spec fn pushed(
        self,
        local: Local,
        before: Memory,
        local_before: Local,
        page: u64,
    ) -> bool {
        let cache = local_before.cache@;
        &&& local.worker == local_before.worker
        &&& if cache.len() < CACHE_CAPACITY {
            &&& self == before
            &&& local.cache@ == cache.push(page)
        } else {
            &&& self.restacked(
                before,
                local.worker as int,
                seq![page] + cache.skip(cache.len() - BATCH) + before.stacks()[local.worker as int],
            )
            &&& local.cache@ == cache.take(cache.len() - BATCH)
        }
    }

    /// Whether a page was taken from the cache of a worker or, where that was empty, from the
    /// given stack, with the pages below it moved into the cache.
    pub open spec fn popped(
        self,
        local: Local,
        before: Memory,
        local_before: Local,
        from: Option<int>,
        page: Option<u64>,
    ) -> bool {
        &&& local.worker == local_before.worker
        &&& if local_before.cache@.len() > 0 {
            &&& self == before
            &&& page == Some(local_before.cache@.last())
            &&& local.cache@ == local_before.cache@.drop_last()
        } else {
            match from {
                None => {
                    &&& self == before
                    &&& page is None
                    &&& local.cache@ == local_before.cache@
                },
                Some(worker) => {
                    let stack = before.stacks()[worker];
                    let count: int = if stack.len() < BATCH {
                        stack.len() as int
                    } else {
                        BATCH as int
                    };
                    &&& self.restacked(before, worker, stack.skip(count))
                    &&& page == Some(stack[0])
                    &&& local.cache@ == stack.subrange(1, count).reverse()
                },
            }
        }
    }

    fn flush(&mut self, local: &mut Local, extra: u64)
        requires
            old(self).sound(),
            old(local).sound(),
            old(local).cache@.len() == CACHE_CAPACITY,
            loose(old(self).stacks(), old(local).cache@.push(extra)),
        ensures
            final(self).sound(),
            final(local).sound(),
            final(self).pushed(*final(local), *old(self), *old(local), extra),
            loose(final(self).stacks(), final(local).cache@),
            forall|page: u64| #[trigger]
                final(self).keeps(*final(local), page) == (old(self).keeps(*old(local), page)
                    || page == extra),
    {
        let ghost cache = local.cache@;
        let ghost joined = cache.push(extra);
        let ghost before = *self;
        let mut batch: Vec<u64> = local.cache.drain(BATCH);
        let ghost drained = batch@;
        batch.insert(0, extra);
        proof {
            assert(batch@ =~= seq![extra] + drained);
            assert(drained =~= cache.skip(cache.len() - BATCH));
            assert(local.cache@ =~= cache.take(cache.len() - BATCH));
            assert forall|index: int| 0 <= index < batch@.len() implies is_page(
                #[trigger] batch@[index],
            ) && !stacked(self.stacks(), batch@[index]) by {
                if index == 0 {
                    assert(joined[cache.len() as int] == extra);
                } else {
                    assert(batch@[index] == joined[cache.len() - BATCH + index - 1]);
                }
            }
            assert forall|left: int, right: int|
                0 <= left < batch@.len() && 0 <= right < batch@.len() && left != right implies batch@[left]
                != batch@[right] by {
                let first = if left == 0 {
                    cache.len() as int
                } else {
                    cache.len() - BATCH + left - 1
                };
                let second = if right == 0 {
                    cache.len() as int
                } else {
                    cache.len() - BATCH + right - 1
                };
                assert(batch@[left] == joined[first] && batch@[right] == joined[second]);
            }
        }
        self.push_chain(local.worker, &batch);
        proof {
            let worker = local.worker as int;
            let stack = before.stacks()[worker];
            assert(batch@ + stack =~= seq![extra] + drained + stack);
            lemma_put_stack(before.stacks(), worker, batch@);
            assert forall|index: int| 0 <= index < local.cache@.len() implies is_page(
                #[trigger] local.cache@[index],
            ) && !stacked(self.stacks(), local.cache@[index]) by {
                let page = local.cache@[index];
                assert(page == joined[index]);
                if batch@.contains(page) {
                    let place = choose|place: int| 0 <= place < batch@.len() && batch@[place] == page;
                    let other = if place == 0 {
                        cache.len() as int
                    } else {
                        cache.len() - BATCH + place - 1
                    };
                    assert(batch@[place] == joined[other]);
                }
            }
            assert forall|left: int, right: int|
                0 <= left < local.cache@.len() && 0 <= right < local.cache@.len() && left
                    != right implies local.cache@[left] != local.cache@[right] by {
                assert(local.cache@[left] == joined[left] && local.cache@[right] == joined[right]);
            }
            assert forall|page: u64| #[trigger]
                self.keeps(*local, page) == (before.keeps(*old(local), page) || page == extra) by {
                assert(batch@.contains(page) == (page == extra || drained.contains(page))) by {
                    if batch@.contains(page) {
                        let place = choose|place: int|
                            0 <= place < batch@.len() && batch@[place] == page;
                        if place > 0 {
                            assert(drained[place - 1] == page);
                        }
                    }
                    if drained.contains(page) {
                        let place = choose|place: int|
                            0 <= place < drained.len() && drained[place] == page;
                        assert(batch@[place + 1] == page);
                    }
                    assert(batch@[0] == extra);
                }
                lemma_split_contains(local.cache@, drained, page);
            }
        }
    }

    /// Gives a page to the pool.
    pub fn push(&mut self, local: &mut Local, page: u64)
        requires
            old(self).sound(),
            old(local).sound(),
            loose(old(self).stacks(), old(local).cache@.push(page)),
        ensures
            final(self).sound(),
            final(local).sound(),
            final(self).pushed(*final(local), *old(self), *old(local), page),
            loose(final(self).stacks(), final(local).cache@),
            forall|other: u64| #[trigger]
                final(self).keeps(*final(local), other) == (old(self).keeps(*old(local), other)
                    || other == page),
    {
        let ghost cache = local.cache@;
        if local.cache.push(page) {
            proof {
                assert forall|other: u64| #[trigger]
                    self.keeps(*local, other) == (old(self).keeps(*old(local), other) || other
                        == page) by {
                    assert(cache.push(page) =~= cache + seq![page]);
                    lemma_split_contains(cache, seq![page], other);
                    assert(seq![page][0] == page);
                }
            }
            return;
        }
        self.flush(local, page);
    }

    /// Gives pages to the pool at once, on the stack of a worker.
    pub fn push_batch(&mut self, local: &Local, pages: &Vec<u64>)
        requires
            old(self).sound(),
            local.sound(),
            loose(old(self).stacks(), pages@),
        ensures
            final(self).sound(),
            if pages@.len() == 0 {
                *final(self) == *old(self)
            } else {
                final(self).restacked(
                    *old(self),
                    local.worker as int,
                    pages@ + old(self).stacks()[local.worker as int],
                )
            },
            forall|page: u64| #[trigger]
                stacked(final(self).stacks(), page) == (stacked(old(self).stacks(), page)
                    || pages@.contains(page)),
    {
        if pages.len() == 0 {
            return;
        }
        self.push_chain(local.worker, pages);
        proof {
            lemma_put_stack(old(self).stacks(), local.worker as int, pages@);
        }
    }

    /// Moves the whole cache of a worker onto its stack, what was put in last uppermost.
    pub fn flush_all(&mut self, local: &mut Local)
        requires
            old(self).sound(),
            old(local).sound(),
            loose(old(self).stacks(), old(local).cache@),
        ensures
            final(self).sound(),
            final(local).sound(),
            final(local).worker == old(local).worker,
            final(local).cache@ == Seq::<u64>::empty(),
            if old(local).cache@.len() == 0 {
                *final(self) == *old(self)
            } else {
                final(self).restacked(
                    *old(self),
                    old(local).worker as int,
                    old(local).cache@.reverse() + old(self).stacks()[old(local).worker as int],
                )
            },
            forall|page: u64| #[trigger]
                final(self).keeps(*final(local), page) == old(self).keeps(*old(local), page),
    {
        let ghost cache = local.cache@;
        let pages = local.cache.empty();
        proof {
            assert forall|index: int| 0 <= index < pages@.len() implies is_page(
                #[trigger] pages@[index],
            ) && !stacked(self.stacks(), pages@[index]) by {
                assert(pages@[index] == cache[cache.len() - 1 - index]);
            }
            assert forall|left: int, right: int|
                0 <= left < pages@.len() && 0 <= right < pages@.len() && left != right implies pages@[left]
                != pages@[right] by {
                assert(pages@[left] == cache[cache.len() - 1 - left]);
                assert(pages@[right] == cache[cache.len() - 1 - right]);
            }
        }
        self.push_batch(local, &pages);
        proof {
            assert forall|page: u64| #[trigger]
                self.keeps(*local, page) == old(self).keeps(*old(local), page) by {
                assert(stacked(self.stacks(), page) == (stacked(old(self).stacks(), page)
                    || pages@.contains(page)));
                lemma_reverse_contains(cache, page);
            }
        }
    }

    fn refill_from_head(&mut self, local: &mut Local, worker: usize) -> (page: Option<u64>)
        requires
            old(self).sound(),
            old(local).sound(),
            old(local).cache@.len() == 0,
            worker < MAX_WORKERS,
        ensures
            final(self).sound(),
            final(local).sound(),
            final(self).popped(
                *final(local),
                *old(self),
                *old(local),
                if old(self).stacks()[worker as int].len() == 0 {
                    None
                } else {
                    Some(worker as int)
                },
                page,
            ),
            match page {
                Some(page) => {
                    &&& loose(final(self).stacks(), final(local).cache@.push(page))
                    &&& forall|other: u64| #[trigger]
                        old(self).keeps(*old(local), other) == (final(self).keeps(
                            *final(local),
                            other,
                        ) || other == page)
                },
                None => true,
            },
    {
        let ghost before = *self;
        let ghost stack = self.stacks()[worker as int];
        let nodes: Vec<u64> = self.take_chain(worker, BATCH);
        if nodes.len() == 0 {
            proof {
                assert(stack.len() == 0);
            }
            return None;
        }
        let mut index: usize = nodes.len();
        while index > 1
            invariant
                1 <= index <= nodes@.len() <= BATCH,
                local.worker == old(local).worker,
                local.cache@ == nodes@.skip(index as int).reverse(),
            decreases index,
        {
            index = index - 1;
            let node: u64 = nodes[index];
            let _ = local.cache.push(node);
            assert(nodes@.skip(index as int).reverse() =~= nodes@.skip(index + 1).reverse().push(
                node,
            ));
        }
        let page: u64 = nodes[0];
        proof {
            let count = nodes@.len() as int;
            lemma_cut_stack(before.stacks(), worker as int, count);
            assert(nodes@ =~= stack.take(count));
            assert(local.cache@ =~= stack.subrange(1, count).reverse());
            let out = local.cache@.push(page);
            assert forall|place: int| 0 <= place < out.len() implies #[trigger] out[place]
                == nodes@[count - 1 - place] by {}
            assert forall|place: int| 0 <= place < out.len() implies is_page(#[trigger] out[place])
                && !stacked(self.stacks(), out[place]) by {
                assert(nodes@.contains(out[place]));
            }
            assert forall|left: int, right: int|
                0 <= left < out.len() && 0 <= right < out.len() && left != right implies out[left]
                != out[right] by {
                assert(nodes@[count - 1 - left] != nodes@[count - 1 - right]);
            }
            assert forall|other: u64| #[trigger]
                before.keeps(*old(local), other) == (self.keeps(*local, other) || other == page) by {
                assert(nodes@.contains(other) == (local.cache@.contains(other) || other == page)) by {
                    assert(out =~= nodes@.reverse());
                    lemma_reverse_contains(nodes@, other);
                    assert(out =~= local.cache@ + seq![page]);
                    lemma_split_contains(local.cache@, seq![page], other);
                    assert(seq![page][0] == page);
                }
            }
        }
        Some(page)
    }
}

impl LocalCache {
    /// Takes out all pages, what was put in last first.
    pub fn empty(&mut self) -> (pages: Vec<u64>)
        ensures
            final(self)@ == Seq::<u64>::empty(),
            pages@ == old(self)@.reverse(),
    {
        let ghost cache = self@;
        let mut pages: Vec<u64> = Vec::new();
        assert(cache.take(cache.len() as int) =~= cache);
        while self.pages.len() > 0
            invariant
                self@.len() <= cache.len(),
                self@ == cache.take(self@.len() as int),
                pages@ == cache.skip(self@.len() as int).reverse(),
            decreases self@.len(),
        {
            let ghost length = self@.len() as int;
            if let Some(page) = self.pop() {
                pages.push(page);
                assert(cache.skip(length - 1).reverse() =~= cache.skip(length).reverse().push(
                    cache[length - 1],
                ));
                assert(cache.take(length).drop_last() =~= cache.take(length - 1));
            }
        }
        assert(cache.skip(0) =~= cache);
        pages
    }
}

proof fn lemma_split_contains(left: Seq<u64>, right: Seq<u64>, page: u64)
    ensures
        (left + right).contains(page) == (left.contains(page) || right.contains(page)),
{
    let joined = left + right;
    if joined.contains(page) {
        let place = choose|place: int| 0 <= place < joined.len() && joined[place] == page;
        if place < left.len() {
            assert(left[place] == page);
        } else {
            assert(right[place - left.len()] == page);
        }
    }
    if left.contains(page) {
        let place = choose|place: int| 0 <= place < left.len() && left[place] == page;
        assert(joined[place] == page);
    }
    if right.contains(page) {
        let place = choose|place: int| 0 <= place < right.len() && right[place] == page;
        assert(joined[left.len() + place] == page);
    }
}

proof fn lemma_reverse_contains(pages: Seq<u64>, page: u64)
    ensures
        pages.reverse().contains(page) == pages.contains(page),
{
    if pages.contains(page) {
        let place = choose|place: int| 0 <= place < pages.len() && pages[place] == page;
        assert(pages.reverse()[pages.len() - 1 - place] == page);
    }
    if pages.reverse().contains(page) {
        let place = choose|place: int|
            0 <= place < pages.reverse().len() && pages.reverse()[place] == page;
        assert(pages[pages.len() - 1 - place] == page);
    }
}

/// The first stack that holds a page, as a worker looks for one: at its own stack first, and on
/// through the others in turn.
pub open spec fn stocked(stacks: Seq<Seq<u64>>, worker: int, offset: int) -> Option<int>
    decreases MAX_WORKERS - offset,
{
    if offset >= MAX_WORKERS {
        None
    } else if stacks[(worker + offset) % 64].len() > 0 {
        Some((worker + offset) % 64)
    } else {
        stocked(stacks, worker, offset + 1)
    }
}

/// What a batch takes from the stacks: its pages, what is left, and how often each stack was
/// changed.
pub struct Gathered {
    pub pages: Seq<u64>,
    pub stacks: Seq<Seq<u64>>,
    pub counters: Seq<u64>,
}

/// The batch of at most `max` pages that a worker takes, from the stack at `offset` from its own
/// and on through the others in turn.
pub open spec fn gathered(
    stacks: Seq<Seq<u64>>,
    counters: Seq<u64>,
    worker: int,
    offset: int,
    max: int,
) -> Gathered
    decreases MAX_WORKERS - offset,
{
    let from = (worker + offset) % 64;
    if offset >= MAX_WORKERS || max <= 0 {
        Gathered { pages: Seq::empty(), stacks, counters }
    } else if stacks[from].len() == 0 {
        gathered(stacks, counters, worker, offset + 1, max)
    } else {
        let count: int = if stacks[from].len() < max {
            stacks[from].len() as int
        } else {
            max
        };
        let rest = gathered(
            stacks.update(from, stacks[from].skip(count)),
            counters.update(from, ((counters[from] + 1) % 0x1_0000) as u64),
            worker,
            offset + 1,
            max - count,
        );
        Gathered { pages: stacks[from].take(count) + rest.pages, ..rest }
    }
}

/// A batch is no larger than what was asked for.
pub proof fn batches_are_bounded(
    stacks: Seq<Seq<u64>>,
    counters: Seq<u64>,
    worker: int,
    offset: int,
    max: int,
)
    requires
        max >= 0,
    ensures
        gathered(stacks, counters, worker, offset, max).pages.len() <= max,
    decreases MAX_WORKERS - offset,
{
    let from = (worker + offset) % 64;
    if offset < MAX_WORKERS && max > 0 {
        if stacks[from].len() == 0 {
            batches_are_bounded(stacks, counters, worker, offset + 1, max);
        } else {
            let count: int = if stacks[from].len() < max {
                stacks[from].len() as int
            } else {
                max
            };
            batches_are_bounded(
                stacks.update(from, stacks[from].skip(count)),
                counters.update(from, ((counters[from] + 1) % 0x1_0000) as u64),
                worker,
                offset + 1,
                max - count,
            );
        }
    }
}

impl Memory {
    /// Takes a page from the cache of a worker or, where that is empty, from the stack of the
    /// worker.
    pub fn try_pop(&mut self, local: &mut Local) -> (page: Option<u64>)
        requires
            old(self).sound(),
            old(local).sound(),
            loose(old(self).stacks(), old(local).cache@),
        ensures
            final(self).sound(),
            final(local).sound(),
            final(self).popped(
                *final(local),
                *old(self),
                *old(local),
                if old(self).stacks()[old(local).worker as int].len() == 0 {
                    None
                } else {
                    Some(old(local).worker as int)
                },
                page,
            ),
            match page {
                Some(page) => {
                    &&& loose(final(self).stacks(), final(local).cache@.push(page))
                    &&& forall|other: u64| #[trigger]
                        old(self).keeps(*old(local), other) == (final(self).keeps(
                            *final(local),
                            other,
                        ) || other == page)
                },
                None => true,
            },
    {
        let ghost cache = local.cache@;
        if let Some(page) = local.cache.pop() {
            proof {
                assert(local.cache@.push(page) =~= cache);
                assert forall|other: u64| #[trigger]
                    old(self).keeps(*old(local), other) == (self.keeps(*local, other) || other
                        == page) by {
                    assert(cache =~= local.cache@ + seq![page]);
                    lemma_split_contains(local.cache@, seq![page], other);
                    assert(seq![page][0] == page);
                }
            }
            return Some(page);
        }
        let worker: usize = local.worker;
        let ghost middle = *local;
        let page = self.refill_from_head(local, worker);
        proof {
            if let Some(page) = page {
                assert forall|other: u64| #[trigger]
                    old(self).keeps(*old(local), other) == (self.keeps(*local, other) || other
                        == page) by {
                    assert(old(self).keeps(middle, other) == old(self).keeps(*old(local), other));
                }
            }
        }
        page
    }

    /// Takes a page from the cache of a worker or, where that is empty, from the first stack that
    /// holds one. Where no stack does, there is no page, and fresh ones are to be brought in.
    pub fn pop(&mut self, local: &mut Local) -> (page: Option<u64>)
        requires
            old(self).sound(),
            old(local).sound(),
            loose(old(self).stacks(), old(local).cache@),
        ensures
            final(self).sound(),
            final(local).sound(),
            final(self).popped(
                *final(local),
                *old(self),
                *old(local),
                stocked(old(self).stacks(), old(local).worker as int, 0),
                page,
            ),
            match page {
                Some(page) => {
                    &&& loose(final(self).stacks(), final(local).cache@.push(page))
                    &&& forall|other: u64| #[trigger]
                        old(self).keeps(*old(local), other) == (final(self).keeps(
                            *final(local),
                            other,
                        ) || other == page)
                },
                None => forall|other: u64| !#[trigger] old(self).keeps(*old(local), other),
            },
    {
        let own: usize = local.worker;
        let ghost stacks = self.stacks();
        let ghost first = stocked(stacks, own as int, 0);
        if let Some(page) = self.try_pop(local) {
            return Some(page);
        }
        assert(first == stocked(stacks, own as int, 1));
        let mut offset: usize = 1;
        while offset < MAX_WORKERS
            invariant
                1 <= offset <= MAX_WORKERS,
                own < MAX_WORKERS,
                *self == *old(self),
                local.cache@ == old(local).cache@,
                local.worker == old(local).worker,
                local.cache@.len() == 0,
                local.sound(),
                self.sound(),
                own == local.worker,
                stacks == self.stacks(),
                first == stocked(stacks, own as int, 0),
                first == stocked(stacks, own as int, offset as int),
                forall|earlier: int|
                    0 <= earlier < offset ==> (#[trigger] stacks[(own + earlier) % 64]).len() == 0,
            decreases MAX_WORKERS - offset,
        {
            let worker: usize = (own + offset) % MAX_WORKERS;
            let ghost middle = *local;
            if let Some(page) = self.refill_from_head(local, worker) {
                proof {
                    assert forall|other: u64| #[trigger]
                        old(self).keeps(*old(local), other) == (self.keeps(*local, other) || other
                            == page) by {
                        assert(old(self).keeps(middle, other) == old(self).keeps(
                            *old(local),
                            other,
                        ));
                    }
                }
                return Some(page);
            }
            offset = offset + 1;
        }
        proof {
            assert forall|other: u64| !#[trigger] old(self).keeps(*old(local), other) by {
                if stacked(stacks, other) {
                    let (worker, depth) = choose|worker: int, depth: int|
                        0 <= worker < stacks.len() && 0 <= depth < stacks[worker].len()
                            && #[trigger] stacks[worker][depth] == other;
                    let earlier = (worker - own) % 64;
                    assert((own + earlier) % 64 == worker);
                    assert(stacks[(own + earlier) % 64].len() == 0);
                }
            }
        }
        None
    }

    /// Brings in fresh pages: the first is handed on, and the others go into the cache.
    pub fn alloc_batch(&mut self, local: &mut Local, batch: Vec<u64>) -> (page: u64)
        requires
            old(self).sound(),
            old(local).sound(),
            batch@.len() == BATCH,
            old(local).cache@.len() + batch@.len() <= CACHE_CAPACITY + 1,
            loose(old(self).stacks(), old(local).cache@ + batch@),
        ensures
            *final(self) == *old(self),
            final(local).sound(),
            final(local).worker == old(local).worker,
            page == batch@[0],
            final(local).cache@ == old(local).cache@ + batch@.skip(1),
            loose(final(self).stacks(), final(local).cache@.push(page)),
    {
        let ghost cache = local.cache@;
        let mut index: usize = 1;
        assert(batch@.subrange(1, 1) =~= Seq::empty());
        while index < batch.len()
            invariant
                1 <= index <= batch@.len(),
                batch@.len() == BATCH,
                cache.len() + batch@.len() <= CACHE_CAPACITY + 1,
                local.worker == old(local).worker,
                local.cache@ == cache + batch@.subrange(1, index as int),
            decreases batch@.len() - index,
        {
            let page: u64 = batch[index];
            let _ = local.cache.push(page);
            index = index + 1;
            assert(batch@.subrange(1, index as int) =~= batch@.subrange(1, index - 1).push(page));
        }
        proof {
            let joined = cache + batch@;
            let out = local.cache@.push(batch@[0]);
            assert(batch@.subrange(1, batch@.len() as int) =~= batch@.skip(1));
            let place = |at: int|
                if at < cache.len() {
                    at
                } else if at == out.len() - 1 {
                    cache.len() as int
                } else {
                    at + 1
                };
            assert forall|at: int| 0 <= at < out.len() implies #[trigger] out[at] == joined[place(
                at,
            )] by {}
            assert forall|at: int| 0 <= at < out.len() implies is_page(#[trigger] out[at])
                && !stacked(self.stacks(), out[at]) by {
                assert(out[at] == joined[place(at)]);
            }
            assert forall|left: int, right: int|
                0 <= left < out.len() && 0 <= right < out.len() && left != right implies out[left]
                != out[right] by {
                assert(joined[place(left)] != joined[place(right)]);
            }
        }
        batch[0]
    }

    /// Takes pages at once, at most `max` of them, from the stacks, and tells how many there were.
    pub fn pop_batch(&mut self, local: &Local, out: &mut Vec<u64>, max: usize) -> (count: usize)
        requires
            old(self).sound(),
            local.sound(),
            gathered(
                old(self).stacks(),
                old(self).counters(),
                local.worker as int,
                0,
                max as int,
            ).pages.len() <= old(out)@.len(),
        ensures
            final(self).sound(),
            final(self).page_bytes() == old(self).page_bytes(),
            ({
                let batch = gathered(
                    old(self).stacks(),
                    old(self).counters(),
                    local.worker as int,
                    0,
                    max as int,
                );
                &&& count == batch.pages.len()
                &&& final(out)@ == batch.pages + old(out)@.skip(count as int)
                &&& final(self).stacks() == batch.stacks
                &&& final(self).counters() == batch.counters
                &&& loose(batch.stacks, batch.pages)
                &&& forall|page: u64| #[trigger]
                    stacked(old(self).stacks(), page) == (stacked(batch.stacks, page)
                        || batch.pages.contains(page))
            }),
    {
        let ghost whole = gathered(
            self.stacks(),
            self.counters(),
            local.worker as int,
            0,
            max as int,
        );
        let ghost mut done: Seq<u64> = Seq::empty();
        let ghost buffer = out@;
        let mut total: usize = 0;
        let mut offset: usize = 0;
        proof {
            batches_are_bounded(self.stacks(), self.counters(), local.worker as int, 0, max as int);
            assert(buffer.skip(0) =~= buffer);
            assert(Seq::<u64>::empty() + buffer =~= buffer);
            assert(done + whole.pages =~= whole.pages);
        }
        while offset < MAX_WORKERS && total < max
            invariant
                offset <= MAX_WORKERS,
                total <= max,
                total == done.len(),
                self.sound(),
                local.sound(),
                self.page_bytes() == old(self).page_bytes(),
                whole.pages.len() <= buffer.len(),
                ({
                    let rest = gathered(
                        self.stacks(),
                        self.counters(),
                        local.worker as int,
                        offset as int,
                        max - total,
                    );
                    &&& whole.pages == done + rest.pages
                    &&& whole.stacks == rest.stacks
                    &&& whole.counters == rest.counters
                }),
                out@ == done + buffer.skip(total as int),
                loose(self.stacks(), done),
                forall|page: u64| #[trigger]
                    stacked(old(self).stacks(), page) == (stacked(self.stacks(), page)
                        || done.contains(page)),
            decreases MAX_WORKERS - offset,
        {
            let worker: usize = (local.worker + offset) % MAX_WORKERS;
            let ghost before = self.stacks();
            let ghost earlier = done;
            let ghost start = total;
            let pages: Vec<u64> = self.take_chain(worker, max - total);
            let mut index: usize = 0;
            let ghost rest = gathered(
                self.stacks(),
                self.counters(),
                local.worker as int,
                offset + 1,
                max - total - pages@.len(),
            );
            assert(whole.pages =~= earlier + (pages@ + rest.pages));
            assert(earlier + pages@.take(0) =~= earlier);
            while index < pages.len()
                invariant
                    index <= pages@.len(),
                    start + pages@.len() <= buffer.len(),
                    start + pages@.len() <= max,
                    total == start + index,
                    start == earlier.len(),
                    out@ == earlier + pages@.take(index as int) + buffer.skip(total as int),
                decreases pages@.len() - index,
            {
                let page: u64 = pages[index];
                out.set(total, page);
                index = index + 1;
                total = total + 1;
                assert(out@ =~= earlier + pages@.take(index as int) + buffer.skip(total as int));
            }
            proof {
                lemma_cut_stack(before, worker as int, pages@.len() as int);
                assert(pages@.take(pages@.len() as int) =~= pages@);
                assert(before[worker as int].skip(0) =~= before[worker as int]);
                assert(before.update(worker as int, before[worker as int]) =~= before);
                done = earlier + pages@;
                assert(self.stacks() =~= before.update(
                    worker as int,
                    before[worker as int].skip(pages@.len() as int),
                ));
                assert forall|page: u64| #[trigger]
                    stacked(old(self).stacks(), page) == (stacked(self.stacks(), page)
                        || done.contains(page)) by {
                    lemma_split_contains(earlier, pages@, page);
                    assert(stacked(before, page) == (stacked(self.stacks(), page)
                        || pages@.contains(page)));
                }
                assert forall|place: int| 0 <= place < done.len() implies is_page(
                    #[trigger] done[place],
                ) && !stacked(self.stacks(), done[place]) by {
                    if place < earlier.len() {
                        assert(done[place] == earlier[place]);
                        assert(!stacked(before, earlier[place]));
                    } else {
                        assert(done[place] == pages@[place - earlier.len()]);
                        assert(pages@.contains(done[place]));
                    }
                }
                assert forall|left: int, right: int|
                    0 <= left < done.len() && 0 <= right < done.len() && left != right implies done[left]
                    != done[right] by {
                    if left < earlier.len() && right >= earlier.len() {
                        assert(pages@.contains(pages@[right - earlier.len()]));
                        assert(!stacked(before, earlier[left]));
                    }
                    if left >= earlier.len() && right < earlier.len() {
                        assert(pages@.contains(pages@[left - earlier.len()]));
                        assert(!stacked(before, earlier[right]));
                    }
                }
            }
            offset = offset + 1;
        }
        assert(whole.pages =~= done);
        total
    }

    /// Takes the pool apart: all its pages, to be given back to the machine, those of the cache
    /// first and those of the stacks after them.
    pub fn into_pages(self, local: &mut Local) -> (pages: Vec<u64>)
        requires
            self.sound(),
        ensures
            final(local).worker == old(local).worker,
            final(local).cache@ == Seq::<u64>::empty(),
            pages@ == old(local).cache@.reverse() + self.stacks().flatten(),
    {
        let mut pages: Vec<u64> = local.cache.empty();
        let ghost cached = pages@;
        let ghost stacks = self.stacks@;
        let mut worker: usize = 0;
        assert(stacks.take(0).flatten() =~= Seq::<u64>::empty());
        while worker < MAX_WORKERS
            invariant
                worker <= MAX_WORKERS,
                self.sound(),
                stacks == self.stacks@,
                pages@ == cached + stacks.take(worker as int).flatten(),
            decreases MAX_WORKERS - worker,
        {
            let ghost stack = stacks[worker as int];
            let ghost start = pages@;
            let ghost mut count: int = 0;
            let mut page: u64 = unpack_page(self.pool_heads[worker]);
            assert(linked(self.links@, stack));
            assert(start + stack.take(0) =~= start);
            while page != 0
                invariant
                    linked(self.links@, stack),
                    0 <= count <= stack.len(),
                    page == top(stack.skip(count)),
                    pages@ == start + stack.take(count),
                decreases stack.len() - count,
            {
                assert(count < stack.len());
                assert(page == stack[count]);
                assert(self.links@[stack[count]] == page_below(stack, count));
                pages.push(page);
                page = *self.links.get(&page).unwrap();
                proof {
                    assert(stack.take(count + 1) =~= stack.take(count).push(stack[count]));
                    count = count + 1;
                }
            }
            proof {
                if count < stack.len() {
                    assert(is_page(stack[count]));
                }
                assert(stack.take(count) =~= stack);
                let upper = stacks.take(worker + 1);
                assert(upper.drop_last() =~= stacks.take(worker as int));
                upper.lemma_flatten_and_flatten_alt_are_equivalent();
                upper.drop_last().lemma_flatten_and_flatten_alt_are_equivalent();
                assert(upper.flatten_alt() == upper.drop_last().flatten_alt() + upper.last());
            }
            worker = worker + 1;
        }
        assert(stacks.take(MAX_WORKERS as int) =~= stacks);
        pages
    }
}

/// A sound pool has a stack for each worker, each page on a stack has the address of a page, and none
/// lies there twice.
pub proof fn sound_pools_have_their_stacks(memory: Memory)
    requires
        memory.sound(),
    ensures
        memory.stacks().len() == MAX_WORKERS,
        memory.counters().len() == MAX_WORKERS,
        forall|worker: int, depth: int|
            0 <= worker < MAX_WORKERS && 0 <= depth < memory.stacks()[worker].len() ==> is_page(
                #[trigger] memory.stacks()[worker][depth],
            ),
        distinct(memory.stacks()),
{
}

/// A page that was put into a cache with room for it is the next that is taken out, and taking it
/// out leaves all as it was.
pub proof fn pushed_pages_come_back(
    start: (Memory, Local),
    middle: (Memory, Local),
    end: (Memory, Local),
    page: u64,
    from: Option<int>,
    found: Option<u64>,
)
    requires
        start.1.cache@.len() < CACHE_CAPACITY,
        middle.0.pushed(middle.1, start.0, start.1, page),
        end.0.popped(end.1, middle.0, middle.1, from, found),
    ensures
        found == Some(page),
        end.0 == start.0,
        end.1.worker == start.1.worker,
        end.1.cache@ == start.1.cache@,
{
    assert(start.1.cache@.push(page).drop_last() =~= start.1.cache@);
}

/// Pages that were pushed at once come back at once, in the same order, and leave the stacks as
/// they were.
pub proof fn pushed_batches_come_back(
    stacks: Seq<Seq<u64>>,
    counters: Seq<u64>,
    worker: int,
    pages: Seq<u64>,
)
    requires
        stacks.len() == MAX_WORKERS,
        0 <= worker < MAX_WORKERS,
    ensures
        ({
            let batch = gathered(
                stacks.update(worker, pages + stacks[worker]),
                counters,
                worker,
                0,
                pages.len() as int,
            );
            &&& batch.pages == pages
            &&& batch.stacks == stacks
        }),
{
    let stack = pages + stacks[worker];
    let after = stacks.update(worker, stack);
    if pages.len() == 0 {
        assert(stack =~= stacks[worker]);
        assert(after =~= stacks);
    } else {
        let count = pages.len() as int;
        assert(stack.take(count) =~= pages);
        assert(stack.skip(count) =~= stacks[worker]);
        assert(after.update(worker, stacks[worker]) =~= stacks);
        assert(pages + Seq::<u64>::empty() =~= pages);
        assert((worker + 0) % 64 == worker);
        let bumped = counters.update(worker, ((counters[worker] + 1) % 0x1_0000) as u64);
        assert(gathered(after.update(worker, stacks[worker]), bumped, worker, 1, 0) == (Gathered {
            pages: Seq::empty(),
            stacks,
            counters: bumped,
        }));
    }
}

/// Where a stack was changed its head is another than before, so that who still knows the old head
/// finds out.
pub proof fn changed_stacks_show(memory: Memory, before: Memory, worker: int, stack: Seq<u64>)
    requires
        before.sound(),
        0 <= worker < MAX_WORKERS,
        memory.restacked(before, worker, stack),
    ensures
        memory.counters()[worker] != before.counters()[worker],
{
    let word = before.pool_heads@[worker];
    assert((word >> 48) < 0x1_0000) by (bit_vector);
    assert(before.counters()[worker] == counter_of(word));
}

/// How long to wait before the next try.
#[derive(Clone, Copy, PartialEq, Eq, Structural, Debug)]
pub enum Pause {
    /// To spin for so many rounds.
    Spin { rounds: u32 },
    /// To let another thread run.
    Yield,
}

/// After how many tries spinning gives way to letting another thread run.
pub const SPIN_LIMIT: u32 = 8;

/// A wait that grows from try to try.
pub struct Backoff {
    pub step: u32,
}

impl Backoff {
    /// A wait that was not yet needed.
    pub fn new() -> (backoff: Self)
        ensures
            backoff.step == 0,
    {
        Backoff { step: 0 }
    }

    /// How to wait this time. Each wait is twice as long as the one before, up to a limit.
    pub fn snooze(&mut self) -> (pause: Pause)
        ensures
            if old(self).step <= SPIN_LIMIT {
                &&& pause == (Pause::Spin { rounds: 1u32 << old(self).step })
                &&& final(self).step == old(self).step + 1
            } else {
                &&& pause == Pause::Yield
                &&& final(self).step == old(self).step
            },
    {
        if self.step <= SPIN_LIMIT {
            let rounds: u32 = 1u32 << self.step;
            self.step = self.step + 1;
            Pause::Spin { rounds }
        } else {
            Pause::Yield
        }
    }
}

} // verus!

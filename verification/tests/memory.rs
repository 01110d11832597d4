use elude::memory::{
    pack_next, unpack_page, Backoff, Local, LocalCache, Memory, Pause, BATCH, CACHE_CAPACITY, MAX_WORKERS,
};
use elude::simple_memory::SimpleMemory;
use std::collections::HashMap;
use std::collections::HashSet;

/// A pool that one worker uses, and a machine that brings in fresh pages.
struct Pool {
    memory: Memory,
    local: Local,
    fresh: u64,
}

impl Pool {
    fn new() -> Self {
        let mut next = 0;
        Pool { memory: Memory::new(), local: Local::new(&mut next), fresh: 1 << 20 }
    }

    fn batch(&mut self) -> Vec<u64> {
        let mut pages = Vec::new();
        for _ in 0..BATCH {
            self.fresh += self.memory.size() as u64;
            pages.push(self.fresh);
        }
        pages
    }

    fn pop(&mut self) -> u64 {
        match self.memory.pop(&mut self.local) {
            Some(page) => page,
            None => {
                let batch = self.batch();
                self.memory.alloc_batch(&mut self.local, batch)
            }
        }
    }

    fn try_pop(&mut self) -> Option<u64> {
        self.memory.try_pop(&mut self.local)
    }

    fn push(&mut self, page: u64) {
        self.memory.push(&mut self.local, page);
    }

    fn push_batch(&mut self, pages: &[u64]) {
        self.memory.push_batch(&self.local, &pages.to_vec());
    }

    fn pop_batch(&mut self, out: &mut Vec<u64>, max: usize) -> usize {
        self.memory.pop_batch(&self.local, out, max)
    }

    fn take(&mut self, count: usize) -> Vec<u64> {
        (0..count).map(|_| self.pop()).collect()
    }

    fn recover(&mut self, step: usize) -> Vec<u64> {
        let mut recovered = Vec::new();
        loop {
            let mut out = vec![0; step];
            let count = self.pop_batch(&mut out, step);
            if count == 0 {
                return recovered;
            }
            recovered.extend_from_slice(&out[..count]);
        }
    }
}

fn sorted(pages: &[u64]) -> Vec<u64> {
    let mut pages = pages.to_vec();
    pages.sort();
    pages
}

#[test]
fn push_try_pop_roundtrip() {
    let mut pool = Pool::new();
    let page = pool.pop();
    pool.push(page);
    let popped = pool.try_pop().expect("expected a page");
    assert_eq!(page, popped);
}

#[test]
fn pop_allocates_when_empty() {
    let mut pool = Pool::new();
    let page = pool.pop();
    pool.push(page);
}

#[test]
fn try_pop_returns_none_when_truly_empty() {
    let mut pool = Pool::new();
    assert!(pool.try_pop().is_none());
}

#[test]
fn try_pop_finds_pages_in_head_after_push_batch() {
    let mut pool = Pool::new();
    let p = pool.pop();
    let mut cached = Vec::new();
    while let Some(c) = pool.try_pop() {
        cached.push(c);
    }
    for c in &cached {
        pool.push_batch(&[*c]);
    }
    pool.push_batch(&[p]);
    let p2 = pool.try_pop().expect("should find page in own head");
    assert_eq!(p, p2);
}

#[test]
fn pop_allocates_batch_on_empty_pool() {
    let mut pool = Pool::new();
    let mut pages = Vec::new();
    for _ in 0..BATCH {
        pages.push(pool.pop());
    }
    assert_eq!(pages.len(), BATCH);
    for p in pages {
        pool.push(p);
    }
}

#[test]
fn cache_hit_after_partial_drain() {
    let mut pool = Pool::new();
    let mut pages = pool.take(BATCH);
    let p = pages.pop().unwrap();
    pool.push(p);
    let p2 = pool.try_pop().expect("should hit cache");
    assert_eq!(p, p2);
    for p in pages {
        pool.push(p);
    }
}

#[test]
fn push_flushes_on_overflow() {
    let mut pool = Pool::new();
    let pages = pool.take(BATCH);
    let mut extra = Vec::new();
    for _ in 0..CACHE_CAPACITY {
        let p = pool.pop();
        extra.push(p);
        pool.push(p);
    }
    let found = pool.try_pop();
    assert!(found.is_some());
    for p in pages {
        pool.push(p);
    }
}

#[test]
fn push_many_triggers_multiple_flushes() {
    let mut pool = Pool::new();
    let pages = pool.take(3 * CACHE_CAPACITY);
    for p in &pages {
        pool.push(*p);
    }
    for _ in pages {
        let popped = pool.try_pop().expect("should recover page");
        pool.push(popped);
    }
}

#[test]
fn multiple_push_batch_before_pop() {
    let mut pool = Pool::new();
    let batch1 = pool.take(4);
    let batch2 = pool.take(4);
    pool.push_batch(&batch1);
    pool.push_batch(&batch2);

    let mut out = vec![0; 8];
    let n = pool.pop_batch(&mut out, 8);
    assert_eq!(n, 8);
    let mut expected = batch1;
    expected.extend(batch2);
    assert_eq!(sorted(&out), sorted(&expected));
}

#[test]
fn push_batch_empty_nop() {
    let mut pool = Pool::new();
    pool.push_batch(&[]);
    assert!(pool.try_pop().is_none());
}

#[test]
fn pop_batch_empty_returns_zero() {
    let mut pool = Pool::new();
    let mut out = vec![0; 4];
    assert_eq!(pool.pop_batch(&mut out, 4), 0);
}

#[test]
fn pop_batch_max_zero_returns_zero() {
    let mut pool = Pool::new();
    let mut out = vec![0; 1];
    assert_eq!(pool.pop_batch(&mut out, 0), 0);
}

#[test]
fn push_batch_single_page() {
    let mut pool = Pool::new();
    let p = pool.pop();
    pool.push_batch(&[p]);

    let mut out = vec![0; 1];
    let n = pool.pop_batch(&mut out, 1);
    assert_eq!(n, 1);
    assert_eq!(out[0], p);
}

#[test]
fn push_batch_then_pop_batch_all() {
    let mut pool = Pool::new();
    let n_pages = 10;
    let pages = pool.take(n_pages);
    pool.push_batch(&pages);

    let mut out = vec![0; n_pages];
    let n = pool.pop_batch(&mut out, n_pages);
    assert_eq!(n, n_pages);
    assert_eq!(sorted(&out), sorted(&pages));
    assert_eq!(out, pages);
}

#[test]
fn pop_batch_small_buffer() {
    let mut pool = Pool::new();
    let pages = pool.take(6);
    pool.push_batch(&pages);

    let mut out = vec![0; 3];
    let n = pool.pop_batch(&mut out, 3);
    assert_eq!(n, 3);
    let mut recovered = out[..n].to_vec();

    let mut out2 = vec![0; 3];
    let n2 = pool.pop_batch(&mut out2, 3);
    assert_eq!(n2, 3);
    recovered.extend_from_slice(&out2[..n2]);
    assert_eq!(sorted(&recovered), sorted(&pages));
}

#[test]
fn pop_batch_exceeds_available() {
    let mut pool = Pool::new();
    let pages = pool.take(3);
    pool.push_batch(&pages);

    let mut out = vec![0; 5];
    let n = pool.pop_batch(&mut out, 5);
    assert_eq!(n, 3);

    let n2 = pool.pop_batch(&mut vec![0; 1], 1);
    assert_eq!(n2, 0);

    for &p in &out[..n] {
        pool.push(p);
    }
}

#[test]
fn push_batch_large() {
    let mut pool = Pool::new();
    let count = BATCH + 5;
    let pages = pool.take(count);
    pool.push_batch(&pages);

    let mut out = vec![0; count];
    let n = pool.pop_batch(&mut out, count);
    assert_eq!(n, count);
    assert_eq!(sorted(&out), sorted(&pages));
}

#[test]
fn no_duplicate_pages_single_thread() {
    let mut pool = Pool::new();
    let count = 50;
    let pages = pool.take(count);
    assert_eq!(pages.len(), count);

    pool.push_batch(&pages);

    let mut out = vec![0; count];
    let n = pool.pop_batch(&mut out, count);
    assert_eq!(n, count);

    let unique: HashSet<u64> = out[..n].iter().copied().collect();
    assert_eq!(unique.len(), count);

    for &p in &out[..n] {
        pool.push(p);
    }
}

#[test]
fn all_pages_accounted_for_invariants() {
    let mut pool = Pool::new();
    let n = 73;
    let pages = pool.take(n);
    assert_eq!(pages.len(), n);

    let mid = n / 3;
    pool.push_batch(&pages[..mid]);
    for &p in &pages[mid..] {
        pool.push(p);
    }

    let mut recovered = pool.recover(16);
    while let Some(p) = pool.try_pop() {
        recovered.push(p);
    }

    let recovered_set: HashSet<u64> = recovered.iter().copied().collect();
    for p in &pages {
        assert!(recovered_set.contains(p), "lost page {p}");
    }

    for p in recovered {
        pool.push(p);
    }
}

#[test]
fn drop_does_not_panic() {
    let mut pool = Pool::new();
    let pages = pool.take(30);
    for p in &pages[..10] {
        pool.push(*p);
    }
    pool.push_batch(&pages[10..]);
    let freed = pool.memory.into_pages(&mut pool.local);
    assert_eq!(freed.len(), BATCH);
    let freed: HashSet<u64> = freed.into_iter().collect();
    assert!(pages.iter().all(|page| freed.contains(page)));
}

#[test]
fn all_ptr_non_null_aligned() {
    let mut pool = Pool::new();
    let page_size = page_size::get();
    assert_eq!(pool.memory.size(), page_size);
    let pages = pool.take(20);
    for &p in &pages {
        assert!(p != 0, "popped null page");
        assert_eq!(p % page_size as u64, 0, "page not aligned to page size");
    }
    for p in pages {
        pool.push(p);
    }
}

#[test]
fn ptr_value_integrity_after_roundtrip() {
    let mut pool = Pool::new();
    let mut contents: HashMap<u64, u64> = HashMap::new();
    let p = pool.pop();
    contents.insert(p, 0xDEAD_BEEF_CAFE_F00D);
    pool.push(p);
    let p2 = pool.pop();
    assert_eq!(p2, p);
    assert_eq!(contents[&p2], 0xDEAD_BEEF_CAFE_F00D, "data lost through pool roundtrip");
    pool.push(p2);
}

#[test]
fn batch_push_then_pop_all_workers() {
    let mut pool = Pool::new();
    let pages_per_call = 4;
    let calls = 8;
    let all_pages = pool.take(pages_per_call * calls);

    let mut offset = 0;
    for _ in 0..calls {
        let batch = all_pages[offset..offset + pages_per_call].to_vec();
        pool.push_batch(&batch);
        offset += pages_per_call;
    }

    let recovered = pool.recover(16);
    assert_eq!(recovered.len(), all_pages.len());
    let unique: HashSet<u64> = recovered.iter().copied().collect();
    assert_eq!(unique.len(), all_pages.len());

    for p in recovered {
        pool.push(p);
    }
}

#[test]
fn batch_pop_between_workers_no_loss() {
    let mut pool = Pool::new();
    let n_pages = 23;
    let pages: Vec<u64> = (1..=n_pages as u64).map(|index| index << 30).collect();
    pool.push_batch(&pages);
    let total = pool.recover(5).len();
    assert_eq!(total, n_pages);
}

#[test]
fn stress_massive_alloc_free() {
    let mut pool = Pool::new();
    let n_pages = 500;
    for _ in 0..5 {
        let pages = pool.take(n_pages);
        let unique: HashSet<u64> = pages.iter().copied().collect();
        assert_eq!(unique.len(), n_pages);
        for p in &pages {
            pool.push(*p);
        }
    }
}

#[test]
fn stress_alternating_push_pop() {
    let mut pool = Pool::new();
    let mut held: Vec<u64> = Vec::new();
    for i in 0..200 {
        if i % 3 == 0 && !held.is_empty() {
            let n = held.len().min(4);
            let batch: Vec<u64> = held.drain(..n).collect();
            pool.push_batch(&batch);
        } else {
            let p = pool.pop();
            assert!(!held.contains(&p));
            held.push(p);
        }
    }
    for p in held {
        pool.push(p);
    }
}

#[test]
fn stress_cache_boundary_ping_pong() {
    let mut pool = Pool::new();
    let seeds = pool.take(CACHE_CAPACITY);
    for p in &seeds {
        pool.push(*p);
    }

    for _ in 0..10 {
        let pages = pool.take(CACHE_CAPACITY);
        assert_eq!(pages.len(), CACHE_CAPACITY);
        for p in &pages {
            pool.push(*p);
        }
    }
}

#[test]
fn workers_steal_from_one_another() {
    let mut next = 0;
    let mut memory = Memory::with_page_size(4096);
    let mut first = Local::new(&mut next);
    let mut second = Local::new(&mut next);
    assert_eq!((first.worker, second.worker), (0, 1));
    let pages: Vec<u64> = (1..=40).map(|index| index << 12).collect();
    memory.push_batch(&first, &pages);
    assert_eq!(memory.try_pop(&mut second), None);
    assert_eq!(memory.pop(&mut second), Some(pages[0]));
    assert_eq!(memory.try_pop(&mut second), Some(pages[1]));
    assert_eq!(memory.pop(&mut first), Some(pages[BATCH]));
    memory.flush_all(&mut second);
    assert_eq!(memory.pop(&mut first), Some(pages[BATCH + 1]));
}

#[test]
fn overflowing_caches_keep_their_older_half() {
    let mut next = 63;
    let mut memory = Memory::with_page_size(4096);
    let mut local = Local::new(&mut next);
    assert_eq!(local.worker, 63);
    assert_eq!(Local::new(&mut next).worker, 0);
    let pages: Vec<u64> = (1..=CACHE_CAPACITY as u64 + 1).map(|index| index << 12).collect();
    for &page in &pages {
        memory.push(&mut local, page);
    }
    let mut out = vec![0; 40];
    assert_eq!(memory.pop_batch(&local, &mut out, 40), BATCH + 1);
    assert_eq!(out[0], pages[CACHE_CAPACITY]);
    assert_eq!(out[1], pages[BATCH]);
    assert_eq!(out[BATCH], pages[CACHE_CAPACITY - 1]);
    assert_eq!(memory.try_pop(&mut local), Some(pages[BATCH - 1]));
}

#[test]
fn counters_go_round() {
    let mut next = u16::MAX;
    assert_eq!(Local::new(&mut next).worker, u16::MAX as usize % MAX_WORKERS);
    assert_eq!(next, 0);
    let mut memory = Memory::with_page_size(4096);
    let mut next = 0;
    let local = Local::new(&mut next);
    for _ in 0..70_000 {
        memory.push_batch(&local, &vec![4096]);
        let mut out = vec![0];
        assert_eq!(memory.pop_batch(&local, &mut out, 1), 1);
        assert_eq!(out, vec![4096]);
    }
}

#[test]
fn caches_hold_only_so_many_pages() {
    let mut cache = LocalCache::new();
    for page in 0..CACHE_CAPACITY as u64 {
        assert!(cache.push(page));
    }
    assert!(!cache.push(0));
    assert_eq!(cache.drain(3), vec![61, 62, 63]);
    assert_eq!(cache.pop(), Some(60));
    assert_eq!(cache.empty().len(), 60);
    assert_eq!(cache.pop(), None);
}

#[test]
fn waits_grow_until_they_give_way() {
    let mut backoff = Backoff::new();
    for step in 0..=8 {
        assert_eq!(backoff.snooze(), Pause::Spin { rounds: 1 << step });
    }
    assert_eq!(backoff.snooze(), Pause::Yield);
    assert_eq!(backoff.snooze(), Pause::Yield);
}

#[test]
fn simple_pools_give_back_what_came_last() {
    let mut memory = SimpleMemory::new();
    assert_eq!(memory.size(), page_size::get());
    assert_eq!(memory.try_pop(), None);
    memory.push(4096);
    memory.push_batch(&vec![8192, 12288]);
    let mut out = vec![0; 3];
    assert_eq!(memory.pop_batch(&mut out, 2), 2);
    assert_eq!(out, vec![12288, 8192, 0]);
    memory.push(16384);
    assert_eq!(memory.try_pop(), Some(16384));
    assert_eq!(memory.into_pages(), vec![4096]);
}

#[test]
fn head_words_hold_a_page_and_a_counter() {
    assert_eq!(pack_next(0xFFFF_0000_0000_0001, 0x2000), 0x2);
    assert_eq!(pack_next(0, 0x2000), 0x0001_0000_0000_0002);
    assert_eq!(pack_next(0x0001_0000_0000_0002, 0), 0x0002_0000_0000_0000);
    assert_eq!(pack_next(0xFFFF_FFFF_FFFF_FFFF, 0x2000), pack_next(0xFFFF_0000_0000_0000, 0x2000));
    for page in [0, 0x1000, 0x2000, 0x0FFF_FFFF_FFFF_F000] {
        assert_eq!(unpack_page(pack_next(0x1234_5678_9ABC_DEF0, page)), page);
    }
}

#[test]
fn later_batches_come_back_first_and_whole() {
    let mut next = 0;
    let mut memory = Memory::with_page_size(4096);
    let local = Local::new(&mut next);
    let other = Local::new(&mut next);
    let first: Vec<u64> = (1..=5).map(|index| index << 12).collect();
    let second: Vec<u64> = (6..=8).map(|index| index << 12).collect();
    memory.push_batch(&local, &first);
    memory.push_batch(&local, &second);
    let mut out = vec![7; 10];
    assert_eq!(memory.pop_batch(&local, &mut out, 8), 8);
    assert_eq!(out[..3], second[..]);
    assert_eq!(out[3..8], first[..]);
    assert_eq!(out[8..], [7, 7]);

    memory.push_batch(&local, &first);
    memory.push_batch(&other, &second);
    let mut out = vec![0; 10];
    assert_eq!(memory.pop_batch(&other, &mut out, 4), 4);
    assert_eq!(out[..4], [second[0], second[1], second[2], first[0]]);
    assert_eq!(memory.pop_batch(&other, &mut out, 10), 4);
    assert_eq!(memory.pop_batch(&other, &mut out, 10), 0);
}

#[test]
fn pages_are_looked_for_nearby_first() {
    let mut next = 0;
    let mut memory = Memory::with_page_size(4096);
    let mut local = Local::new(&mut next);
    let other = Local::new(&mut next);
    let page = |index: u64| index << 12;
    memory.push_batch(&other, &vec![page(3)]);
    memory.push_batch(&local, &vec![page(2)]);
    memory.push(&mut local, page(1));
    assert_eq!(memory.pop(&mut local), Some(page(1)));
    assert_eq!(memory.pop(&mut local), Some(page(2)));
    assert_eq!(memory.pop(&mut local), Some(page(3)));
    assert_eq!(memory.pop(&mut local), None);
    let fresh: Vec<u64> = (10..10 + BATCH as u64).map(page).collect();
    assert_eq!(memory.alloc_batch(&mut local, fresh.clone()), fresh[0]);
    let mut rest = Vec::new();
    while let Some(found) = memory.pop(&mut local) {
        rest.push(found);
    }
    assert_eq!(rest.len(), BATCH - 1);
    rest.reverse();
    assert_eq!(rest, fresh[1..]);
}

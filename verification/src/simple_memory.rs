//! A pool of memory pages in one list.

use vstd::prelude::*;

verus! {

/// A pool of pages, of which the last that was given is the first that is taken.
pub struct SimpleMemory {
    pool: Vec<u64>,
    page_bytes: usize,
}

impl SimpleMemory {
    /// The pages, in the order in which they were given.
    pub closed spec fn pages(self) -> Seq<u64> {
        self.pool@
    }

    /// The size of a page.
    pub closed spec fn page_bytes(self) -> usize {
        self.page_bytes
    }

    /// An empty pool of pages of the given size.
    pub fn with_page_size(bytes: usize) -> (memory: Self)
        ensures
            memory.pages() == Seq::<u64>::empty(),
            memory.page_bytes() == bytes,
    {
        SimpleMemory { pool: Vec::with_capacity(128), page_bytes: bytes }
    }

    /// An empty pool of pages of the machine's own size, which is what [`page_size::get`] returns.
    pub fn new() -> (memory: Self)
        ensures
            memory.pages() == Seq::<u64>::empty(),
            call_ensures(page_size::get, (), memory.page_bytes()),
    {
        SimpleMemory::with_page_size(page_size::get())
    }

    /// The size of a page.
    pub fn size(&self) -> (size: usize)
        ensures
            size == self.page_bytes(),
    {
        self.page_bytes
    }

    /// Gives a page to the pool.
    pub fn push(&mut self, page: u64)
        ensures
            final(self).pages() == old(self).pages().push(page),
            final(self).page_bytes() == old(self).page_bytes(),
    {
        self.pool.push(page);
    }

    /// Takes the page that was given last. Where there is none, a fresh one is to be brought in.
    pub fn try_pop(&mut self) -> (page: Option<u64>)
        ensures
            final(self).page_bytes() == old(self).page_bytes(),
            old(self).pages().len() == 0 ==> page is None && final(self).pages() == old(self).pages(),
            old(self).pages().len() > 0 ==> page == Some(old(self).pages().last()) && final(self).pages() == old(
                self,
            ).pages().drop_last(),
    {
        self.pool.pop()
    }

    /// Takes pages at once, at most `max` of them, what was given last first, and tells how many
    /// there were.
    pub fn pop_batch(&mut self, out: &mut Vec<u64>, max: usize) -> (count: usize)
        requires
            old(self).pages().len() <= old(out)@.len() || max <= old(out)@.len(),
        ensures
            final(self).page_bytes() == old(self).page_bytes(),
            count == if old(self).pages().len() < max {
                old(self).pages().len()
            } else {
                max as nat
            },
            final(self).pages() == old(self).pages().take(old(self).pages().len() - count),
            final(out)@ == old(self).pages().skip(old(self).pages().len() - count).reverse() + old(out)@.skip(
                count as int,
            ),
    {
        let ghost pool = self.pool@;
        let ghost buffer = out@;
        let length: usize = self.pool.len();
        let count: usize = if length < max {
            length
        } else {
            max
        };
        let mut index: usize = 0;
        assert(out@ =~= pool.skip(pool.len() as int).reverse() + buffer.skip(0));
        assert(pool =~= pool.take(pool.len() as int));
        while index < count
            invariant
                index <= count <= pool.len(),
                count <= buffer.len(),
                self.page_bytes == old(self).page_bytes,
                self.pool@ == pool.take(pool.len() - index),
                out@ == pool.skip(pool.len() - index).reverse() + buffer.skip(index as int),
            decreases count - index,
        {
            if let Some(page) = self.pool.pop() {
                out.set(index, page);
                assert(out@ =~= pool.skip(pool.len() - index - 1).reverse() + buffer.skip(
                    index + 1,
                ));
            }
            index = index + 1;
            assert(self.pool@ =~= pool.take(pool.len() - index));
        }
        count
    }

    /// Gives pages to the pool at once.
    pub fn push_batch(&mut self, pages: &Vec<u64>)
        ensures
            final(self).pages() == old(self).pages() + pages@,
            final(self).page_bytes() == old(self).page_bytes(),
    {
        let ghost pool = self.pool@;
        let mut index: usize = 0;
        assert(pool + pages@.take(0) =~= pool);
        while index < pages.len()
            invariant
                index <= pages@.len(),
                self.page_bytes == old(self).page_bytes,
                self.pool@ == pool + pages@.take(index as int),
            decreases pages@.len() - index,
        {
            self.pool.push(pages[index]);
            index = index + 1;
            assert(self.pool@ =~= pool + pages@.take(index as int));
        }
        assert(pages@.take(pages@.len() as int) =~= pages@);
    }

    /// Takes the pool apart: all its pages, to be given back to the machine.
    pub fn into_pages(self) -> (pages: Vec<u64>)
        ensures
            pages@ == self.pages(),
    {
        self.pool
    }
}

/// Pages that were pushed at once come back at once, what was pushed last first.
pub proof fn simple_batches_come_back(pool: Seq<u64>, pages: Seq<u64>)
    ensures
        (pool + pages).take((pool + pages).len() - pages.len()) == pool,
        (pool + pages).skip((pool + pages).len() - pages.len()).reverse() == pages.reverse(),
{
    let joined = pool + pages;
    assert(joined.take(joined.len() - pages.len()) =~= pool);
    assert(joined.skip(joined.len() - pages.len()) =~= pages);
}

} // verus!

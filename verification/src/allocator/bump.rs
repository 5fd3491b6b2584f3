//! A bump allocator over a fixed address range.
use vstd::prelude::*;

use vstd::arithmetic::power2::pow2;

use crate::allocator::align::{is_pow2, lemma_round_up, lemma_round_up_by_rem, round_up};

verus! {

/// Hands out consecutive aligned blocks of a fixed address range and never
/// takes them back.
pub struct BumpAllocator {
    heap_start: usize,
    heap_end: usize,
    next: usize,
}

impl BumpAllocator {
    /// The first address of the range.
    pub closed spec fn start(self) -> int {
        self.heap_start as int
    }

    /// The address just past the range.
    pub closed spec fn end(self) -> int {
        self.heap_end as int
    }

    /// The first address not yet handed out.
    pub closed spec fn next_free(self) -> int {
        self.next as int
    }

    /// An allocator over the empty range at address 0.
    pub fn new() -> (r: Self)
        ensures
            r.start() == 0,
            r.end() == 0,
            r.next_free() == 0,
    {
        BumpAllocator { heap_start: 0, heap_end: 0, next: 0 }
    }

    /// Makes `[heap_start, heap_start + heap_size)` the range to allocate from.
    pub fn init(&mut self, heap_start: usize, heap_size: usize)
        requires
            heap_start + heap_size <= usize::MAX,
        ensures
            final(self).start() == heap_start,
            final(self).end() == heap_start + heap_size,
            final(self).next_free() == heap_start,
    {
        self.heap_start = heap_start;
        self.heap_end = heap_start + heap_size;
        self.next = heap_start;
    }

    /// Allocates `size` bytes at the next multiple of `align`; returns the
    /// block's address, or 0 where the range has no room for it.
    pub fn allocate(&mut self, size: usize, align: usize) -> (r: usize)
        requires
            is_pow2(align as int),
        ensures
            final(self).start() == old(self).start(),
            final(self).end() == old(self).end(),
            ({
                let s = round_up(old(self).next_free(), align as int);
                if s + size <= old(self).end() {
                    r == s && final(self).next_free() == s + size
                } else {
                    r == 0 && final(self).next_free() == old(self).next_free()
                }
            }),
    {
        proof {
            let k = choose|k: nat| k < usize::BITS && pow2(k) == align;
            vstd::arithmetic::power2::lemma_pow2_pos(k);
            lemma_round_up(self.next as int, align as int);
        }
        let rem = self.next % align;
        let alloc_start = if rem == 0 {
            self.next
        } else {
            proof {
                lemma_round_up_by_rem(self.next as int, align as int);
            }
            match self.next.checked_add(align - rem) {
                Some(s) => s,
                None => return 0,
            }
        };
        let alloc_end = match alloc_start.checked_add(size) {
            Some(end) => end,
            None => return 0,
        };
        if alloc_end > self.heap_end {
            0
        } else {
            self.next = alloc_end;
            alloc_start
        }
    }
}

} // verus!

use fat32_rs::allocator::slab::{SlabAllocator, PAGE_SIZE};
use std::alloc::Layout;
use std::vec::Vec;

fn init_allocator() -> SlabAllocator {
    let mut allocator = SlabAllocator::new();
    let heap_size = PAGE_SIZE * 32;
    let heap = vec![0u8; heap_size].into_boxed_slice();
    let heap_start = heap.as_ptr() as usize;
    core::mem::forget(heap);
    allocator.init(heap_start, heap_size);
    allocator
}

#[test]
fn alloc_reuse_after_free() {
    let mut allocator = init_allocator();
    let layout = Layout::from_size_align(64, 8).unwrap();
    let first = allocator.allocate(layout.size(), layout.align());
    let second = allocator.allocate(layout.size(), layout.align());
    assert!(first != 0);
    assert!(second != 0);
    allocator.dealloc(first, layout.size(), layout.align());
    let third = allocator.allocate(layout.size(), layout.align());
    assert_eq!(third, first, "freelist reuse failed");
}

#[test]
fn alignment_respected() {
    let mut allocator = init_allocator();
    let layout = Layout::from_size_align(128, 64).unwrap();
    let ptr = allocator.allocate(layout.size(), layout.align());
    assert!(ptr != 0);
    assert_eq!(ptr % 64, 0);
}

#[test]
fn stress_random_alloc_free() {
    let mut allocator = init_allocator();
    let mut rng = XorShift64::new(0x1234_5678_9abc_def0);
    let mut allocations = Vec::new();

    for _ in 0..500 {
        if rng.next() & 1 == 0 || allocations.is_empty() {
            let size = [8, 16, 32, 64, 128, 256, 512][(rng.next() % 7) as usize];
            let layout = Layout::from_size_align(size, 8).unwrap();
            let ptr = allocator.allocate(layout.size(), layout.align());
            assert!(ptr != 0);
            allocations.push((ptr, layout));
        } else {
            let idx = (rng.next() as usize) % allocations.len();
            let (ptr, layout) = allocations.swap_remove(idx);
            allocator.dealloc(ptr, layout.size(), layout.align());
        }
    }

    for (ptr, layout) in allocations {
        allocator.dealloc(ptr, layout.size(), layout.align());
    }
}

#[test]
fn overflow_returns_null() {
    let mut allocator = init_allocator();
    let layout = Layout::from_size_align(2048, 8).unwrap();
    let ptr = allocator.allocate(layout.size(), layout.align());
    assert!(ptr == 0);
}

struct XorShift64 {
    state: u64,
}

impl XorShift64 {
    fn new(seed: u64) -> Self {
        Self { state: seed }
    }

    fn next(&mut self) -> u64 {
        let mut x = self.state;
        x ^= x << 13;
        x ^= x >> 7;
        x ^= x << 17;
        self.state = x;
        x
    }
}

#[test]
fn freed_memory_is_available_again() {
    let mut allocator = SlabAllocator::new();
    let pages = 4;
    allocator.init(0x10_0000, PAGE_SIZE * pages);
    for _ in 0..(pages + 1) * 3 {
        let p = allocator.allocate(8, 8);
        assert_ne!(p, 0);
        allocator.dealloc(p, 8, 8);
    }
    for size in [8usize, 16, 32, 64, 128, 256, 512, 1024] {
        let p = allocator.allocate(size, 8);
        assert_ne!(p, 0);
        allocator.dealloc(p, size, 8);
    }
}

#[test]
fn live_objects_stay_apart() {
    let mut allocator = SlabAllocator::new();
    let start = 0x20_0000;
    let size = PAGE_SIZE * 8;
    allocator.init(start, size);
    let mut live: Vec<(usize, usize)> = Vec::new();
    for (k, (sz, al)) in [(24usize, 8usize), (100, 64), (8, 8), (512, 512), (24, 8), (1000, 8)]
        .into_iter()
        .enumerate()
    {
        let p = allocator.allocate(sz, al);
        assert_ne!(p, 0);
        assert_eq!(p % al, 0);
        assert!(start <= p && p + sz <= start + size);
        for &(q, qs) in &live {
            assert!(p + sz <= q || q + qs <= p);
        }
        live.push((p, sz));
        if k == 2 {
            let (q, qs) = live.remove(0);
            allocator.dealloc(q, qs, 8);
        }
    }
}

#[test]
fn heap_at_the_top_of_the_address_space() {
    let mut allocator = SlabAllocator::new();
    let start = usize::MAX - PAGE_SIZE * 2 + 1;
    allocator.init(start, PAGE_SIZE * 2 - 1);
    let p = allocator.allocate(64, 8);
    assert_ne!(p, 0);
    assert!(p >= start);
    allocator.dealloc(p, 64, 8);
    assert_eq!(allocator.allocate(2048, 8), 0);
}

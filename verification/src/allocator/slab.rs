//! A size-class slab allocator.
use vstd::prelude::*;

use crate::allocator::align::{
    align_down, align_up, is_pow2, lemma_round_down, lemma_round_up, round_down, round_up,
};
use crate::allocator::bump::BumpAllocator;
use vstd::set_lib::{lemma_int_range, lemma_len_subset, lemma_map_size, set_int_range};
use vstd::arithmetic::power2::{
    lemma2_to64, lemma_pow2_adds, lemma_pow2_pos, lemma_pow2_strictly_increases, pow2,
};

verus! {

/// The size of a slab page.
pub const PAGE_SIZE: usize = 4096;

/// The bytes at the start of each slab page that the slab's bookkeeping
/// takes: five machine words on a 64-bit target.
pub const SLAB_HEADER_SIZE: usize = 40;

/// The number of size classes.
pub const NUM_CACHES: usize = 8;

/// The object size of size class `i`: 8, 16, 32, ..., 1024 bytes.
pub open spec fn class_size(i: int) -> int {
    if i == 0 {
        8
    } else if i == 1 {
        16
    } else if i == 2 {
        32
    } else if i == 3 {
        64
    } else if i == 4 {
        128
    } else if i == 5 {
        256
    } else if i == 6 {
        512
    } else {
        1024
    }
}

/// The block size that a request of `size` bytes aligned to `align` needs:
/// the larger of the two, rounded up to the alignment.
pub open spec fn needed_size(size: int, align: int) -> int {
    round_up(
        if size >= align {
            size
        } else {
            align
        },
        align,
    )
}

/// The first size class from `i` on whose objects hold `need` bytes.
pub open spec fn class_from(need: int, i: int) -> Option<int>
    decreases NUM_CACHES - i,
{
    if i >= NUM_CACHES {
        None
    } else if class_size(i) >= need {
        Some(i)
    } else {
        class_from(need, i + 1)
    }
}

/// The size class that serves a request, if any does.
pub open spec fn class_of(size: int, align: int) -> Option<int> {
    class_from(needed_size(size, align), 0)
}

/// Whether `(size, align)` is a request the allocator can size: the
/// alignment is a power of two and rounding the request up does not
/// overflow.
pub open spec fn request_ok(size: int, align: int) -> bool {
    &&& is_pow2(align)
    &&& (if size >= align {
        size
    } else {
        align
    }) + align - 1 <= usize::MAX
}

/// Where the first object of a slab lies, from the start of its page.
pub open spec fn first_object_offset(os: int) -> int {
    round_up(SLAB_HEADER_SIZE as int, os)
}

/// The number of objects of size `os` that a slab page holds.
pub open spec fn capacity(os: int) -> int {
    (PAGE_SIZE - first_object_offset(os)) / os
}

/// The address of object `k` of the slab at `base`.
pub open spec fn object_at(base: int, os: int, k: int) -> int {
    base + first_object_offset(os) + k * os
}

/// A slab just made on the page at `base`: every object free, the last
/// object at the end of the free list.
pub open spec fn fresh_slab(base: int, os: int) -> SlabView {
    SlabView {
        base,
        object_size: os,
        total: capacity(os),
        in_use: 0,
        free: Seq::new(capacity(os) as nat, |k: int| object_at(base, os, k) as usize),
    }
}

/// The index of the first slab from `j` on with a free object.
pub open spec fn first_open(slabs: Seq<SlabView>, j: int) -> Option<int>
    decreases slabs.len() - j,
{
    if j >= slabs.len() || j < 0 {
        None
    } else if slabs[j].free.len() > 0 {
        Some(j)
    } else {
        first_open(slabs, j + 1)
    }
}

/// The index of the first slab from `j` on whose page starts at `base`.
pub open spec fn first_with_base(slabs: Seq<SlabView>, base: int, j: int) -> Option<int>
    decreases slabs.len() - j,
{
    if j >= slabs.len() || j < 0 {
        None
    } else if slabs[j].base == base {
        Some(j)
    } else {
        first_with_base(slabs, base, j + 1)
    }
}

/// The index of the slab whose page starts at `base`.
pub open spec fn slab_index_of(slabs: Seq<SlabView>, base: int) -> int {
    choose|j: int| 0 <= j < slabs.len() && slabs[j].base == base
}

/// What one slab looks like: its page, object size, number of objects,
/// number handed out, and the free objects (the last is handed out next).
pub struct SlabView {
    pub base: int,
    pub object_size: int,
    pub total: int,
    pub in_use: int,
    pub free: Seq<usize>,
}

/// A size class: its object size and its slabs, the list head first.
pub struct CacheView {
    pub size: int,
    pub slabs: Seq<SlabView>,
}

/// The whole allocator: the size classes, the page range that slabs are
/// taken from (`next` is the first page not yet taken), and the pages that
/// emptied slabs gave back (the last is reused first).
pub struct HeapView {
    pub caches: Seq<CacheView>,
    pub start: int,
    pub next: int,
    pub end: int,
    pub pages: Seq<usize>,
}

struct Slab {
    base: usize,
    freelist: Vec<usize>,
    in_use: usize,
    total: usize,
    object_size: usize,
}

impl View for Slab {
    type V = SlabView;

    closed spec fn view(&self) -> SlabView {
        SlabView {
            base: self.base as int,
            object_size: self.object_size as int,
            total: self.total as int,
            in_use: self.in_use as int,
            free: self.freelist@,
        }
    }
}

struct Cache {
    size: usize,
    slabs: Vec<Slab>,
}

impl View for Cache {
    type V = CacheView;

    closed spec fn view(&self) -> CacheView {
        CacheView { size: self.size as int, slabs: self.slabs@.map_values(|s: Slab| s@) }
    }
}

/// A slab allocator: each size class keeps a list of page-sized slabs,
/// each with a free list of equal-sized objects.
pub struct SlabAllocator {
    caches: Vec<Cache>,
    page_bump: BumpAllocator,
    free_pages: Vec<usize>,
}

impl View for SlabAllocator {
    type V = HeapView;

    closed spec fn view(&self) -> HeapView {
        HeapView {
            caches: self.caches@.map_values(|c: Cache| c@),
            start: self.page_bump.start(),
            next: self.page_bump.next_free(),
            end: self.page_bump.end(),
            pages: self.free_pages@,
        }
    }
}

impl SlabView {
    /// This slab with its last free object handed out.
    pub open spec fn popped(self) -> SlabView {
        SlabView { free: self.free.drop_last(), in_use: self.in_use + 1, ..self }
    }

    /// This slab with `ptr` given back to the end of its free list.
    pub open spec fn pushed(self, ptr: int) -> SlabView {
        SlabView {
            free: self.free.push(ptr as usize),
            in_use: if self.in_use > 0 {
                self.in_use - 1
            } else {
                0
            },
            ..self
        }
    }

    /// Whether `a` is the address of one of this slab's objects.
    pub open spec fn is_object(self, a: int) -> bool {
        exists|k: int| 0 <= k < self.total && a == object_at(self.base, self.object_size, k)
    }

    /// Whether `a` is an object of this slab that is handed out.
    pub open spec fn holds(self, a: int) -> bool {
        self.is_object(a) && !self.free.contains(a as usize)
    }

    /// The slab's own invariant, for object size `os`.
    pub open spec fn slab_ok(self, os: int) -> bool {
        &&& self.object_size == os
        &&& self.total == capacity(os)
        &&& self.base % PAGE_SIZE as int == 0
        &&& self.free.no_duplicates()
        &&& forall|i: int| 0 <= i < self.free.len() ==> self.is_object(#[trigger] self.free[i] as int)
        &&& self.in_use + self.free.len() == self.total
        &&& self.in_use >= 1
    }
}

impl HeapView {
    /// This heap with the slabs of class `ci` replaced.
    pub open spec fn with_slabs(self, ci: int, slabs: Seq<SlabView>) -> HeapView {
        HeapView {
            caches: self.caches.update(ci, CacheView { size: self.caches[ci].size, slabs }),
            ..self
        }
    }

    /// The slab at index `j` of class `i`.
    pub open spec fn slab(self, i: int, j: int) -> SlabView {
        self.caches[i].slabs[j]
    }

    /// Whether `(i, j)` names a slab.
    pub open spec fn valid(self, i: int, j: int) -> bool {
        0 <= i < self.caches.len() && 0 <= j < self.caches[i].slabs.len()
    }

    /// The allocator's invariant: eight classes of the fixed sizes, slabs
    /// taken from below `next` in the page range, each slab sound, and no
    /// two slabs on one page.
    pub open spec fn wf(self) -> bool {
        &&& self.caches.len() == NUM_CACHES
        &&& forall|i: int| 0 <= i < NUM_CACHES ==> #[trigger] self.caches[i].size == class_size(i)
        &&& 0 <= self.start <= self.next <= self.end
        &&& self.next % PAGE_SIZE as int == 0
        &&& self.end <= usize::MAX
        &&& forall|i: int, j: int|
            #![trigger self.slab(i, j)]
            self.valid(i, j) ==> {
                &&& self.slab(i, j).slab_ok(class_size(i))
                &&& self.start <= self.slab(i, j).base
                &&& self.slab(i, j).base + PAGE_SIZE <= self.next
            }
        &&& forall|i1: int, j1: int, i2: int, j2: int|
            #![trigger self.slab(i1, j1), self.slab(i2, j2)]
            self.valid(i1, j1) && self.valid(i2, j2) && (i1 != i2 || j1 != j2) ==> self.slab(
                i1,
                j1,
            ).base != self.slab(i2, j2).base
        &&& forall|i: int, j: int| #![trigger self.slab(i, j)] self.valid(i, j) ==> self.slab(i, j).base > 0
        &&& self.pages.no_duplicates()
        &&& forall|k: int|
            #![trigger self.pages[k]]
            0 <= k < self.pages.len() ==> {
                &&& self.pages[k] % PAGE_SIZE == 0
                &&& self.pages[k] > 0
                &&& self.start <= self.pages[k]
                &&& self.pages[k] + PAGE_SIZE <= self.next
            }
        &&& forall|k: int, i: int, j: int|
            #![trigger self.pages[k], self.slab(i, j)]
            0 <= k < self.pages.len() && self.valid(i, j) ==> self.pages[k] != self.slab(i, j).base
    }

    /// Whether `ci` is a class with a slab that holds the handed-out object `ptr`.
    pub open spec fn owns(self, ci: int, ptr: int) -> bool {
        exists|j: int| 0 <= j < self.caches[ci].slabs.len() && #[trigger] self.slab(ci, j).holds(ptr)
    }

    /// Whether `a` is an object that is handed out.
    pub open spec fn live(self, a: int) -> bool {
        exists|i: int, j: int| self.valid(i, j) && #[trigger] self.slab(i, j).holds(a)
    }
}

/// The allocator just initialised over `[start, start + size)`.
pub open spec fn initial_heap(start: int, size: int) -> HeapView {
    HeapView {
        caches: Seq::new(
            NUM_CACHES as nat,
            |i: int| CacheView { size: class_size(i), slabs: Seq::empty() },
        ),
        start,
        next: start,
        end: start + size,
        pages: Seq::empty(),
    }
}

/// Taking a page for a new slab: a page given back, the last first, else the
/// next page of the range; `None` where the range is used up, and also where
/// the page taken is at address 0, which stands for no page.
pub open spec fn page_source(h: HeapView) -> (HeapView, Option<int>) {
    if h.pages.len() > 0 {
        (HeapView { pages: h.pages.drop_last(), ..h }, Some(h.pages.last() as int))
    } else if h.next + PAGE_SIZE > h.end {
        (h, None)
    } else if h.next == 0 {
        (HeapView { next: h.next + PAGE_SIZE, ..h }, None)
    } else {
        (HeapView { next: h.next + PAGE_SIZE, ..h }, Some(h.next))
    }
}

/// What a request of `size` bytes aligned to `align` does: the new state
/// and the address handed out, or 0.
///
/// The class's slabs are searched from the list head for a free object; the
/// last object of the first such slab's free list is handed out. Where no
/// slab has one, a new slab is made on a page from `page_source` and put at
/// the head of the list.
pub open spec fn alloc_step(h: HeapView, size: int, align: int) -> (HeapView, int) {
    match class_of(size, align) {
        None => (h, 0),
        Some(ci) => alloc_in_class(h, ci),
    }
}

/// What handing out an object of class `ci` does.
pub open spec fn alloc_in_class(h: HeapView, ci: int) -> (HeapView, int) {
    let slabs = h.caches[ci].slabs;
    match first_open(slabs, 0) {
        Some(j) => (h.with_slabs(ci, slabs.update(j, slabs[j].popped())), slabs[j].free.last() as int),
        None => {
            let (h1, page) = page_source(h);
            match page {
                None => (h1, 0),
                Some(p) => {
                    let fresh = fresh_slab(p, class_size(ci));
                    (h1.with_slabs(ci, slabs.insert(0, fresh.popped())), fresh.free.last() as int)
                },
            }
        },
    }
}

/// What giving back `ptr`, requested as `size` bytes aligned to `align`,
/// does: the object goes to the end of its slab's free list, and a slab
/// with no object left in use leaves its class's list, its page kept for a
/// later slab.
pub open spec fn dealloc_step(h: HeapView, ptr: int, size: int, align: int) -> HeapView {
    if ptr == 0 {
        h
    } else {
        match class_of(size, align) {
            None => h,
            Some(ci) => {
                let slabs = h.caches[ci].slabs;
                let j = slab_index_of(slabs, round_down(ptr, PAGE_SIZE as int));
                let s = slabs[j].pushed(ptr);
                if s.in_use == 0 {
                    HeapView { pages: h.pages.push(s.base as usize), ..h.with_slabs(ci, slabs.remove(j)) }
                } else {
                    h.with_slabs(ci, slabs.update(j, s))
                }
            },
        }
    }
}

fn cache_size(i: usize) -> (r: usize)
    requires
        i < NUM_CACHES,
    ensures
        r == class_size(i as int),
{
    if i == 0 {
        8
    } else if i == 1 {
        16
    } else if i == 2 {
        32
    } else if i == 3 {
        64
    } else if i == 4 {
        128
    } else if i == 5 {
        256
    } else if i == 6 {
        512
    } else {
        1024
    }
}

/// The size class that serves a request, with its object size.
pub fn cache_for(size: usize, align: usize) -> (r: Option<(usize, usize)>)
    requires
        request_ok(size as int, align as int),
    ensures
        match class_of(size as int, align as int) {
            Some(i) => r == Some((i as usize, class_size(i) as usize)),
            None => r is None,
        },
{
    let larger = if size >= align {
        size
    } else {
        align
    };
    let need = align_up(larger, align);
    assert(need == needed_size(size as int, align as int));
    let mut i: usize = 0;
    while i < NUM_CACHES
        invariant
            need == needed_size(size as int, align as int),
            i <= NUM_CACHES,
            class_from(need as int, 0) == class_from(need as int, i as int),
        decreases NUM_CACHES - i,
    {
        let cache_size = cache_size(i);
        if cache_size >= need {
            return Some((i, cache_size));
        }
        i = i + 1;
    }
    None
}

impl SlabAllocator {
    /// An allocator with no heap: it must be given one with `init`.
    pub fn new() -> (r: Self)
        ensures
            r@ == (HeapView {
                caches: Seq::new(
                    NUM_CACHES as nat,
                    |i: int| CacheView { size: 0, slabs: Seq::empty() },
                ),
                start: 0,
                next: 0,
                end: 0,
                pages: Seq::empty(),
            }),
    {
        let mut caches: Vec<Cache> = Vec::new();
        let mut i: usize = 0;
        while i < NUM_CACHES
            invariant
                i <= NUM_CACHES,
                caches@.len() == i,
                forall|k: int| 0 <= k < i ==> (#[trigger] caches@[k])@ == (CacheView { size: 0, slabs: Seq::empty() }),
            decreases NUM_CACHES - i,
        {
            let c = Cache { size: 0, slabs: Vec::new() };
            assert(c@.slabs =~= Seq::<SlabView>::empty());
            caches.push(c);
            i = i + 1;
        }
        let r = SlabAllocator { caches, page_bump: BumpAllocator::new(), free_pages: Vec::new() };
        assert(r@.caches =~= Seq::new(
            NUM_CACHES as nat,
            |i: int| CacheView { size: 0, slabs: Seq::empty() },
        ));
        r
    }

    /// Sets up the size classes and takes `[heap_start, heap_start +
    /// heap_size)`, from its first page boundary on, as the range slab
    /// pages come from.
    pub fn init(&mut self, heap_start: usize, heap_size: usize)
        requires
            heap_start + PAGE_SIZE - 1 <= usize::MAX,
            round_up(heap_start as int, PAGE_SIZE as int) + heap_size <= usize::MAX,
        ensures
            final(self)@ == initial_heap(round_up(heap_start as int, PAGE_SIZE as int), heap_size as int),
            final(self)@.wf(),
    {
        let mut caches: Vec<Cache> = Vec::new();
        let mut i: usize = 0;
        while i < NUM_CACHES
            invariant
                i <= NUM_CACHES,
                caches@.len() == i,
                forall|k: int| 0 <= k < i ==> (#[trigger] caches@[k])@ == (CacheView { size: class_size(k), slabs: Seq::empty() }),
            decreases NUM_CACHES - i,
        {
            let c = Cache { size: cache_size(i), slabs: Vec::new() };
            assert(c@.slabs =~= Seq::<SlabView>::empty());
            caches.push(c);
            i = i + 1;
        }
        self.caches = caches;
        self.free_pages = Vec::new();
        proof {
            lemma_page_pow2();
            lemma_round_up(heap_start as int, PAGE_SIZE as int);
        }
        let start = align_up(heap_start, PAGE_SIZE);
        self.page_bump.init(start, heap_size);
        proof {
            let h = initial_heap(start as int, heap_size as int);
            assert(self@.caches =~= h.caches);
        }
    }

    /// Takes a page from `page_source` and lays a slab of `object_size`
    /// objects out on it.
    fn allocate_slab(&mut self, object_size: usize) -> (r: Option<Slab>)
        requires
            old(self)@.wf(),
            exists|i: int| 0 <= i < NUM_CACHES && class_size(i) == object_size,
        ensures
            ({
                let (h1, page) = page_source(old(self)@);
                &&& final(self)@ == h1
                &&& match page {
                    None => r is None,
                    Some(p) => r matches Some(s) && s@ == fresh_slab(p, object_size as int),
                }
            }),
    {
        let ghost h = self@;
        proof {
            let ci = choose|i: int| 0 <= i < NUM_CACHES && class_size(i) == object_size;
            lemma_class_geometry(ci);
            lemma_page_pow2();
            lemma_round_up(h.next, PAGE_SIZE as int);
        }
        let page = match self.free_pages.pop() {
            Some(p) => {
                proof {
                    assert(h.pages[h.pages.len() - 1] == p);
                }
                p
            },
            None => {
                let p = self.page_bump.allocate(PAGE_SIZE, PAGE_SIZE);
                assert(self@.caches == h.caches);
                if p == 0 {
                    assert(self@ == (HeapView { next: self@.next, ..h }));
                    return None;
                }
                p
            },
        };
        proof {
            lemma_page_multiple(page as int, object_size as int);
            lemma_round_up_shift(page as int, SLAB_HEADER_SIZE as int, object_size as int);
        }
        let object_start = align_up(page + SLAB_HEADER_SIZE, object_size);
        let object_end = page + PAGE_SIZE;
        let capacity = (object_end - object_start) / object_size;
        let ghost fresh = fresh_slab(page as int, object_size as int);
        let mut freelist: Vec<usize> = Vec::new();
        let mut current = object_start;
        let mut k: usize = 0;
        while k < capacity
            invariant
                capacity == fresh.total,
                fresh == fresh_slab(page as int, object_size as int),
                object_start == page + first_object_offset(object_size as int),
                first_object_offset(object_size as int) + capacity * object_size <= PAGE_SIZE,
                page + PAGE_SIZE <= usize::MAX,
                k <= capacity,
                current == object_at(page as int, object_size as int, k as int),
                freelist@ == fresh.free.take(k as int),
            decreases capacity - k,
        {
            freelist.push(current);
            assert(fresh.free.take(k + 1) =~= fresh.free.take(k as int).push(current));
            assert((k + 1) * object_size == k * object_size + object_size) by (nonlinear_arith);
            assert((k + 1) * object_size <= capacity * object_size) by (nonlinear_arith)
                requires
                    k + 1 <= capacity,
            ;
            current = current + object_size;
            k = k + 1;
        }
        assert(fresh.free.take(capacity as int) =~= fresh.free);
        Some(Slab { base: page, freelist, in_use: 0, total: capacity, object_size })
    }

    fn push_slab(&mut self, ci: usize, slab: Slab)
        requires
            ci < old(self)@.caches.len(),
        ensures
            final(self)@ == old(self)@.with_slabs(
                ci as int,
                old(self)@.caches[ci as int].slabs.insert(0, slab@),
            ),
    {
        let ghost sv = slab@;
        let cache = &mut self.caches[ci];
        cache.slabs.insert(0, slab);
        proof {
            let oldh = old(self)@;
            let new_slabs = oldh.caches[ci as int].slabs.insert(0, sv);
            assert(self.caches@[ci as int]@.slabs =~= new_slabs);
            assert(self@.caches =~= oldh.with_slabs(ci as int, new_slabs).caches);
        }
    }

    fn alloc_from_cache(&mut self, cache_index: usize) -> (r: usize)
        requires
            old(self)@.wf(),
            cache_index < NUM_CACHES,
        ensures
            (final(self)@, r as int) == alloc_in_class(old(self)@, cache_index as int),
    {
        let ghost h = self@;
        let ci = cache_index;
        let object_size = self.caches[ci].size;
        assert(self.caches@[ci as int]@ == h.caches[ci as int]);
        assert(h.caches[ci as int].size == class_size(ci as int));
        assert(object_size == class_size(ci as int));
        let n = self.caches[ci].slabs.len();
        let ghost slabs = h.caches[ci as int].slabs;
        let mut j: usize = 0;
        assert(slabs.len() == n);
        while j < n && self.caches[ci].slabs[j].freelist.len() == 0
            invariant
                self@ == h,
                h.wf(),
                ci < NUM_CACHES,
                slabs == h.caches[ci as int].slabs,
                n == slabs.len(),
                j <= n,
                first_open(slabs, 0) == first_open(slabs, j as int),
            decreases n - j,
        {
            assert(self.caches@[ci as int].slabs@[j as int]@ == slabs[j as int]);
            j = j + 1;
        }
        if j < n {
            proof {
                assert(self.caches@[ci as int].slabs@[j as int]@ == slabs[j as int]);
                assert(first_open(slabs, j as int) == Some(j as int));
                assert(h.slab(ci as int, j as int).slab_ok(class_size(ci as int)));
                lemma_class_geometry(ci as int);
            }
            return self.pop_freelist(ci, j);
        }
        proof {
            lemma_class_geometry(ci as int);
        }
        match self.allocate_slab(object_size) {
            None => 0,
            Some(slab) => {
                let ghost fresh = slab@;
                self.push_slab(ci, slab);
                let r = self.pop_freelist(ci, 0);
                proof {
                    let h1 = page_source(h).0;
                    assert(slabs.insert(0, fresh).update(0, fresh.popped()) =~= slabs.insert(
                        0,
                        fresh.popped(),
                    ));
                    assert(self@.caches =~= h1.with_slabs(ci as int, slabs.insert(0, fresh.popped())).caches);
                }
                r
            },
        }
    }

    /// Hands out an object for a request of `size` bytes aligned to
    /// `align`; returns its address, or 0 where no class fits the request
    /// or no page is left for a new slab.
    pub fn allocate(&mut self, size: usize, align: usize) -> (r: usize)
        requires
            old(self)@.wf(),
            request_ok(size as int, align as int),
        ensures
            (final(self)@, r as int) == alloc_step(old(self)@, size as int, align as int),
            final(self)@.wf(),
    {
        proof {
            lemma_class_from_range(needed_size(size as int, align as int), 0);
            if let Some(ci) = class_of(size as int, align as int) {
                lemma_alloc_preserves_wf(old(self)@, ci);
            }
        }
        match cache_for(size, align) {
            Some((cache_index, _size)) => self.alloc_from_cache(cache_index),
            None => 0,
        }
    }

    /// Takes the slab on the page at `slab_base` out of class `cache_index`,
    /// keeping its page for a later slab.
    fn trim_slab(&mut self, cache_index: usize, slab_base: usize)
        requires
            cache_index < old(self)@.caches.len(),
        ensures
            final(self)@ == match first_with_base(
                old(self)@.caches[cache_index as int].slabs,
                slab_base as int,
                0,
            ) {
                Some(j) => HeapView {
                    pages: old(self)@.pages.push(slab_base),
                    ..old(self)@.with_slabs(
                        cache_index as int,
                        old(self)@.caches[cache_index as int].slabs.remove(j),
                    )
                },
                None => old(self)@,
            },
    {
        let ghost h = self@;
        let ci = cache_index;
        let ghost slabs = h.caches[ci as int].slabs;
        assert(self.caches@[ci as int]@ == h.caches[ci as int]);
        let n = self.caches[ci].slabs.len();
        let mut j: usize = 0;
        while j < n && self.caches[ci].slabs[j].base != slab_base
            invariant
                self@ == h,
                ci < h.caches.len(),
                slabs == h.caches[ci as int].slabs,
                n == slabs.len(),
                j <= n,
                first_with_base(slabs, slab_base as int, 0) == first_with_base(
                    slabs,
                    slab_base as int,
                    j as int,
                ),
            decreases n - j,
        {
            assert(self.caches@[ci as int].slabs@[j as int]@ == slabs[j as int]);
            j = j + 1;
        }
        if j < n {
            assert(self.caches@[ci as int].slabs@[j as int]@ == slabs[j as int]);
            assert(first_with_base(slabs, slab_base as int, j as int) == Some(j as int));
            let cache = &mut self.caches[ci];
            cache.slabs.remove(j);
            self.free_pages.push(slab_base);
            proof {
                let new_slabs = slabs.remove(j as int);
                assert(self.caches@[ci as int]@.slabs =~= new_slabs);
                assert(self@.caches =~= h.with_slabs(ci as int, new_slabs).caches);
            }
        }
    }

    /// Gives back the object at `ptr`, requested as `size` bytes aligned to
    /// `align`: it goes to the end of its slab's free list, and a slab with
    /// no object left in use leaves its class. A null `ptr`, or a request no
    /// class serves, changes nothing.
    pub fn dealloc(&mut self, ptr: usize, size: usize, align: usize)
        requires
            old(self)@.wf(),
            request_ok(size as int, align as int),
            ptr != 0 ==> match class_of(size as int, align as int) {
                Some(ci) => old(self)@.owns(ci, ptr as int),
                None => true,
            },
        ensures
            final(self)@ == dealloc_step(old(self)@, ptr as int, size as int, align as int),
            final(self)@.wf(),
    {
        proof {
            lemma_dealloc_preserves_wf(old(self)@, ptr as int, size as int, align as int);
        }
        if ptr == 0 {
            return ;
        }
        proof {
            lemma_class_from_range(needed_size(size as int, align as int), 0);
        }
        let (ci, _object_size) = match cache_for(size, align) {
            Some(data) => data,
            None => return ,
        };
        let ghost h = self@;
        let ghost slabs = h.caches[ci as int].slabs;
        proof {
            lemma_page_pow2();
        }
        let page_base = align_down(ptr, PAGE_SIZE);
        let ghost j0 = choose|j: int| 0 <= j < slabs.len() && #[trigger] h.slab(ci as int, j).holds(ptr as int);
        proof {
            lemma_object_in_page(h, ci as int, j0, ptr as int);
        }
        assert(self.caches@[ci as int]@ == h.caches[ci as int]);
        let n = self.caches[ci].slabs.len();
        let mut j: usize = 0;
        while j < n && self.caches[ci].slabs[j].base != page_base
            invariant
                self@ == h,
                h.wf(),
                ci < NUM_CACHES,
                slabs == h.caches[ci as int].slabs,
                n == slabs.len(),
                j <= n,
                0 <= j0 < n,
                slabs[j0].base == page_base,
                forall|k: int| 0 <= k < j ==> slabs[k].base != page_base,
            decreases n - j,
        {
            assert(self.caches@[ci as int].slabs@[j as int]@ == slabs[j as int]);
            j = j + 1;
        }
        assert(j < n);
        assert(self.caches@[ci as int].slabs@[j as int]@ == slabs[j as int]);
        assert(j == j0) by {
            if j != j0 {
                assert(h.slab(ci as int, j as int).base != h.slab(ci as int, j0).base);
            }
        }
        let ghost jj = slab_index_of(slabs, round_down(ptr as int, PAGE_SIZE as int));
        assert(jj == j0) by {
            assert(slabs[j0].base == round_down(ptr as int, PAGE_SIZE as int));
            if jj != j0 {
                assert(h.slab(ci as int, jj).base != h.slab(ci as int, j0).base);
            }
        }
        let cache = &mut self.caches[ci];
        let slab = &mut cache.slabs[j];
        slab.freelist.push(ptr);
        if slab.in_use > 0 {
            slab.in_use = slab.in_use - 1;
        }
        let in_use = slab.in_use;
        proof {
            let s2 = slabs[j as int].pushed(ptr as int);
            assert(self.caches@[ci as int].slabs@[j as int]@ == s2);
            assert(self.caches@[ci as int]@.slabs =~= slabs.update(j as int, s2));
            assert(self@.caches =~= h.with_slabs(ci as int, slabs.update(j as int, s2)).caches);
        }
        if in_use == 0 {
            let ghost mid = self@;
            self.trim_slab(ci, page_base);
            proof {
                let s2 = slabs[j as int].pushed(ptr as int);
                let upd = slabs.update(j as int, s2);
                assert(mid.caches[ci as int].slabs == upd);
                lemma_first_with_base_is(upd, page_base as int, j as int);
                assert(upd.remove(j as int) =~= slabs.remove(j as int));
                assert(self@.caches =~= h.with_slabs(ci as int, slabs.remove(j as int)).caches);
                assert(slabs[j as int].pushed(ptr as int).base == page_base);
            }
        }
    }

    fn pop_freelist(&mut self, ci: usize, j: usize) -> (r: usize)
        requires
            ci < old(self)@.caches.len(),
            j < old(self)@.caches[ci as int].slabs.len(),
            old(self)@.caches[ci as int].slabs[j as int].free.len() > 0,
            old(self)@.caches[ci as int].slabs[j as int].in_use < 1000,
        ensures
            r == old(self)@.caches[ci as int].slabs[j as int].free.last(),
            final(self)@ == old(self)@.with_slabs(
                ci as int,
                old(self)@.caches[ci as int].slabs.update(
                    j as int,
                    old(self)@.caches[ci as int].slabs[j as int].popped(),
                ),
            ),
    {
        let cache = &mut self.caches[ci];
        let slab = &mut cache.slabs[j];
        let node = slab.freelist.pop().unwrap();
        slab.in_use = slab.in_use + 1;
        proof {
            let oldh = old(self)@;
            let new_slab = oldh.caches[ci as int].slabs[j as int].popped();
            let new_slabs = oldh.caches[ci as int].slabs.update(j as int, new_slab);
            assert(self.caches@[ci as int].slabs@[j as int]@ == new_slab);
            assert(self.caches@[ci as int]@.slabs =~= new_slabs);
            assert(self@.caches =~= oldh.with_slabs(ci as int, new_slabs).caches);
        }
        node
    }
}

/// The geometry of each size class: objects sized to divide a page,
/// starting past the header at a multiple of the object size.
proof fn lemma_class_geometry(i: int)
    requires
        0 <= i < NUM_CACHES,
    ensures
        ({
            let os = class_size(i);
            &&& 8 <= os <= 1024
            &&& PAGE_SIZE as int % os == 0
            &&& first_object_offset(os) % os == 0
            &&& SLAB_HEADER_SIZE <= first_object_offset(os) <= 1024
            &&& 3 <= capacity(os) <= 507
            &&& first_object_offset(os) + capacity(os) * os <= PAGE_SIZE
            &&& is_pow2(os)
        }),
{
    vstd::arithmetic::power2::lemma2_to64();
    let os = class_size(i);
    if i == 0 {
        assert(vstd::arithmetic::power2::pow2(3) == 8);
    } else if i == 1 {
        assert(vstd::arithmetic::power2::pow2(4) == 16);
    } else if i == 2 {
        assert(vstd::arithmetic::power2::pow2(5) == 32);
    } else if i == 3 {
        assert(vstd::arithmetic::power2::pow2(6) == 64);
    } else if i == 4 {
        assert(vstd::arithmetic::power2::pow2(7) == 128);
    } else if i == 5 {
        assert(vstd::arithmetic::power2::pow2(8) == 256);
    } else if i == 6 {
        assert(vstd::arithmetic::power2::pow2(9) == 512);
    } else {
        assert(vstd::arithmetic::power2::pow2(10) == 1024);
    }
}

/// A page is a power of two.
proof fn lemma_page_pow2()
    ensures
        is_pow2(PAGE_SIZE as int),
{
    vstd::arithmetic::power2::lemma2_to64();
    assert(vstd::arithmetic::power2::pow2(12) == 4096);
}

/// A multiple of a page is a multiple of every divisor of the page size.
proof fn lemma_page_multiple(page: int, os: int)
    requires
        os > 0,
        page % PAGE_SIZE as int == 0,
        PAGE_SIZE as int % os == 0,
    ensures
        page % os == 0,
{
    let p = PAGE_SIZE as int;
    vstd::arithmetic::div_mod::lemma_fundamental_div_mod(page, p);
    vstd::arithmetic::div_mod::lemma_fundamental_div_mod(p, os);
    assert(page == os * ((p / os) * (page / p))) by (nonlinear_arith)
        requires
            page == p * (page / p) + page % p,
            p == os * (p / os) + p % os,
            page % p == 0,
            p % os == 0,
    ;
    vstd::arithmetic::div_mod::lemma_mod_multiples_basic((p / os) * (page / p), os);
    assert(((p / os) * (page / p)) * os == os * ((p / os) * (page / p))) by (nonlinear_arith);
}

/// Rounding up commutes with adding a multiple of the alignment.
proof fn lemma_round_up_shift(page: int, a: int, os: int)
    requires
        os > 0,
        page % os == 0,
    ensures
        round_up(page + a, os) == page + round_up(a, os),
{
    vstd::arithmetic::div_mod::lemma_fundamental_div_mod(page, os);
    vstd::arithmetic::div_mod::lemma_mod_multiples_vanish(page / os, a + os - 1, os);
    assert(os * (page / os) + (a + os - 1) == page + a + os - 1);
}

/// A class found from `i` on is a real class at or after `i`.
proof fn lemma_class_from_range(need: int, i: int)
    requires
        0 <= i,
    ensures
        class_from(need, i) matches Some(k) ==> i <= k < NUM_CACHES && class_size(k) >= need,
    decreases NUM_CACHES - i,
{
    if i < NUM_CACHES && class_size(i) < need {
        lemma_class_from_range(need, i + 1);
    }
}

/// The first slab from 0 with a given base is at `j` where no earlier slab has it.
proof fn lemma_first_with_base_is(slabs: Seq<SlabView>, base: int, j: int)
    requires
        0 <= j < slabs.len(),
        slabs[j].base == base,
        forall|k: int| 0 <= k < j ==> slabs[k].base != base,
    ensures
        first_with_base(slabs, base, 0) == Some(j),
{
    lemma_first_with_base_from(slabs, base, j, 0);
}

proof fn lemma_first_with_base_from(slabs: Seq<SlabView>, base: int, j: int, i: int)
    requires
        0 <= i <= j < slabs.len(),
        slabs[j].base == base,
        forall|k: int| 0 <= k < j ==> slabs[k].base != base,
    ensures
        first_with_base(slabs, base, i) == Some(j),
    decreases j - i,
{
    if i < j {
        lemma_first_with_base_from(slabs, base, j, i + 1);
    }
}

/// An object lies inside its slab's page, past the header.
proof fn lemma_object_in_page(h: HeapView, i: int, j: int, a: int)
    requires
        h.wf(),
        h.valid(i, j),
        h.slab(i, j).is_object(a),
    ensures
        h.slab(i, j).base + first_object_offset(class_size(i)) <= a,
        a + class_size(i) <= h.slab(i, j).base + PAGE_SIZE,
        round_down(a, PAGE_SIZE as int) == h.slab(i, j).base,
        a % class_size(i) == 0,
{
    let s = h.slab(i, j);
    let os = class_size(i);
    assert(s.slab_ok(os));
    lemma_class_geometry(i);
    let k = choose|k: int| 0 <= k < s.total && a == object_at(s.base, s.object_size, k);
    let off = first_object_offset(os);
    let cap = capacity(os);
    assert(off + (k + 1) * os <= PAGE_SIZE) by (nonlinear_arith)
        requires
            0 <= k < cap,
            os > 0,
            off + cap * os <= PAGE_SIZE,
    ;
    assert(k * os >= 0) by (nonlinear_arith)
        requires
            k >= 0,
            os > 0,
    ;
    assert((k + 1) * os == k * os + os) by (nonlinear_arith);
    let p = PAGE_SIZE as int;
    vstd::arithmetic::div_mod::lemma_fundamental_div_mod(s.base, p);
    vstd::arithmetic::div_mod::lemma_mod_multiples_vanish(s.base / p, off + k * os, p);
    vstd::arithmetic::div_mod::lemma_small_mod((off + k * os) as nat, p as nat);
    assert(p * (s.base / p) + (off + k * os) == a);
    lemma_page_multiple(s.base, os);
    vstd::arithmetic::div_mod::lemma_fundamental_div_mod(s.base, os);
    vstd::arithmetic::div_mod::lemma_fundamental_div_mod(off, os);
    vstd::arithmetic::div_mod::lemma_mod_multiples_basic(s.base / os + off / os + k, os);
    assert((s.base / os + off / os + k) * os == a) by (nonlinear_arith)
        requires
            s.base == os * (s.base / os) + s.base % os,
            s.base % os == 0,
            off == os * (off / os) + off % os,
            off % os == 0,
            a == s.base + off + k * os,
    ;
}

/// The first open slab found from `j` on is a real slab with a free object,
/// and no slab between `j` and it has one.
proof fn lemma_first_open_range(slabs: Seq<SlabView>, j: int)
    requires
        0 <= j,
    ensures
        first_open(slabs, j) matches Some(k) ==> j <= k < slabs.len() && slabs[k].free.len() > 0
            && forall|m: int| j <= m < k ==> slabs[m].free.len() == 0,
        first_open(slabs, j) is None ==> forall|m: int| j <= m < slabs.len() ==> slabs[m].free.len() == 0,
    decreases slabs.len() - j,
{
    if j < slabs.len() && slabs[j].free.len() == 0 {
        lemma_first_open_range(slabs, j + 1);
    }
}

/// An object of a slab lies within its page.
proof fn lemma_object_bounds(base: int, os: int, k: int)
    requires
        exists|i: int| 0 <= i < NUM_CACHES && class_size(i) == os,
        0 <= k < capacity(os),
    ensures
        base + first_object_offset(os) <= object_at(base, os, k),
        object_at(base, os, k) + os <= base + PAGE_SIZE,
{
    let i = choose|i: int| 0 <= i < NUM_CACHES && class_size(i) == os;
    lemma_class_geometry(i);
    let off = first_object_offset(os);
    let cap = capacity(os);
    assert(off + (k + 1) * os <= PAGE_SIZE && k * os >= 0) by (nonlinear_arith)
        requires
            0 <= k < cap,
            os > 0,
            off + cap * os <= PAGE_SIZE,
    ;
    assert((k + 1) * os == k * os + os) by (nonlinear_arith);
}

/// Objects with different indices have different addresses.
proof fn lemma_objects_distinct(base: int, os: int, k1: int, k2: int)
    requires
        os > 0,
        k1 != k2,
    ensures
        object_at(base, os, k1) != object_at(base, os, k2),
{
    assert(k1 * os != k2 * os) by (nonlinear_arith)
        requires
            os > 0,
            k1 != k2,
    ;
}

/// A slab just made, with one object handed out, is sound.
proof fn lemma_fresh_popped_ok(base: int, i: int)
    requires
        0 <= i < NUM_CACHES,
        base % PAGE_SIZE as int == 0,
        0 <= base,
        base + PAGE_SIZE <= usize::MAX,
    ensures
        fresh_slab(base, class_size(i)).popped().slab_ok(class_size(i)),
        fresh_slab(base, class_size(i)).free.len() >= 3,
        fresh_slab(base, class_size(i)).free.no_duplicates(),
        fresh_slab(base, class_size(i)).free.last() as int == object_at(
            base,
            class_size(i),
            capacity(class_size(i)) - 1,
        ),
{
    lemma_class_geometry(i);
    let os = class_size(i);
    let f = fresh_slab(base, os);
    let p = f.popped();
    assert forall|a: int| 0 <= a < f.free.len() implies 0 <= #[trigger] object_at(base, os, a) <= usize::MAX by {
        lemma_object_bounds(base, os, a);
    }
    assert forall|a: int, b: int| 0 <= a < f.free.len() && 0 <= b < f.free.len() && a != b implies f.free[a]
        != f.free[b] by {
        lemma_objects_distinct(base, os, a, b);
        lemma_object_bounds(base, os, a);
        lemma_object_bounds(base, os, b);
    }
    assert(f.free.no_duplicates());
    assert(p.free =~= f.free.subrange(0, f.free.len() - 1));
    assert forall|a: int| 0 <= a < p.free.len() implies p.is_object(#[trigger] p.free[a] as int) by {
        lemma_object_bounds(base, os, a);
        assert(p.free[a] == object_at(base, os, a) as usize);
        assert(p.free[a] as int == object_at(p.base, p.object_size, a));
    }
}

/// Handing out an object keeps the allocator's invariant.
pub proof fn lemma_alloc_preserves_wf(h: HeapView, ci: int)
    requires
        h.wf(),
        0 <= ci < NUM_CACHES,
    ensures
        alloc_in_class(h, ci).0.wf(),
{
    let slabs = h.caches[ci].slabs;
    let h2 = alloc_in_class(h, ci).0;
    lemma_first_open_range(slabs, 0);
    match first_open(slabs, 0) {
        Some(j) => {
            let s = slabs[j];
            assert(h.slab(ci, j) == s);
            assert(s.slab_ok(class_size(ci)));
            let p = s.popped();
            assert(p.free =~= s.free.subrange(0, s.free.len() - 1));
            assert forall|a: int| 0 <= a < p.free.len() implies p.is_object(#[trigger] p.free[a] as int) by {
                assert(p.free[a] == s.free[a]);
                assert(s.is_object(s.free[a] as int));
                let k = choose|k: int| 0 <= k < s.total && s.free[a] as int == object_at(s.base, s.object_size, k);
                assert(object_at(p.base, p.object_size, k) == p.free[a] as int);
            }
            assert(p.slab_ok(class_size(ci)));
            assert forall|i: int, k: int| #![trigger h2.slab(i, k)] h2.valid(i, k) implies h2.slab(i, k)
                == (if i == ci && k == j {
                p
            } else {
                h.slab(i, k)
            }) && h.valid(i, k) by {}
        },
        None => {
            lemma_page_source(h);
            let (h1, page) = page_source(h);
            if let Some(pg) = page {
                let fresh = fresh_slab(pg, class_size(ci));
                let p = fresh.popped();
                lemma_fresh_popped_ok(pg, ci);
                assert forall|i: int, k: int| #![trigger h2.slab(i, k)] h2.valid(i, k) implies (if i == ci
                    && k == 0 {
                    h2.slab(i, k) == p
                } else if i == ci {
                    h1.valid(i, k - 1) && h2.slab(i, k) == h1.slab(i, k - 1)
                } else {
                    h1.valid(i, k) && h2.slab(i, k) == h1.slab(i, k)
                }) by {}
                assert forall|i1: int, j1: int, i2: int, j2: int|
                    #![trigger h2.slab(i1, j1), h2.slab(i2, j2)]
                    h2.valid(i1, j1) && h2.valid(i2, j2) && (i1 != i2 || j1 != j2) implies h2.slab(
                        i1,
                        j1,
                    ).base != h2.slab(i2, j2).base by {
                    if i1 == ci && j1 == 0 {
                        if i2 == ci {
                            assert(h.valid(i2, j2 - 1));
                            assert(h.slab(i2, j2 - 1).base != pg);
                        } else {
                            assert(h.valid(i2, j2));
                            assert(h.slab(i2, j2).base != pg);
                        }
                    } else if i2 == ci && j2 == 0 {
                        if i1 == ci {
                            assert(h.valid(i1, j1 - 1));
                            assert(h.slab(i1, j1 - 1).base != pg);
                        } else {
                            assert(h.valid(i1, j1));
                            assert(h.slab(i1, j1).base != pg);
                        }
                    } else {
                        let o1 = if i1 == ci {
                            j1 - 1
                        } else {
                            j1
                        };
                        let o2 = if i2 == ci {
                            j2 - 1
                        } else {
                            j2
                        };
                        assert(h.slab(i1, o1).base != h.slab(i2, o2).base);
                    }
                }
                assert forall|k: int, i: int, j: int|
                    #![trigger h2.pages[k], h2.slab(i, j)]
                    0 <= k < h2.pages.len() && h2.valid(i, j) implies h2.pages[k] != h2.slab(
                        i,
                        j,
                    ).base by {
                    assert(h2.pages[k] == h.pages[k]);
                    if i == ci && j == 0 {
                        assert(h1.pages[k] == h2.pages[k]);
                        assert(h1.pages.contains(h2.pages[k]));
                    } else if i == ci {
                        assert(h.valid(i, j - 1));
                        assert(h.pages[k] != h.slab(i, j - 1).base);
                    } else {
                        assert(h.valid(i, j));
                        assert(h.pages[k] != h.slab(i, j).base);
                    }
                }
            }
        },
    }
}

/// What taking a page for a new slab gives: the rest of the state stays
/// sound, and a page taken is page-aligned, not 0, inside the taken part of
/// the range, and neither a slab's page nor one still kept.
proof fn lemma_page_source(h: HeapView)
    requires
        h.wf(),
    ensures
        ({
            let (h1, page) = page_source(h);
            &&& h1.wf()
            &&& h1.caches == h.caches
            &&& h1.start == h.start
            &&& h1.end == h.end
            &&& h.next <= h1.next
            &&& h1.pages.len() <= h.pages.len()
            &&& forall|k: int| 0 <= k < h1.pages.len() ==> h1.pages[k] == h.pages[k]
            &&& page matches Some(p) ==> {
                &&& p % PAGE_SIZE as int == 0
                &&& p > 0
                &&& h.start <= p
                &&& p + PAGE_SIZE <= h1.next
                &&& !h1.pages.contains(p as usize)
                &&& forall|i: int, j: int| h.valid(i, j) ==> #[trigger] h.slab(i, j).base != p
            }
        }),
{
    let (h1, page) = page_source(h);
    if h.pages.len() > 0 {
        let p = h.pages.last();
        assert(h.pages[h.pages.len() - 1] == p);
        lemma_last_not_in_rest(h.pages);
        assert(h1.pages =~= h.pages.subrange(0, h.pages.len() - 1));
        assert forall|i: int, j: int| h.valid(i, j) implies #[trigger] h.slab(i, j).base != p by {
            assert(h.pages[h.pages.len() - 1] != h.slab(i, j).base);
        }
        assert forall|k: int, i: int, j: int|
            #![trigger h1.pages[k], h1.slab(i, j)]
            0 <= k < h1.pages.len() && h1.valid(i, j) implies h1.pages[k] != h1.slab(i, j).base by {
            assert(h1.pages[k] == h.pages[k]);
            assert(h.pages[k] != h.slab(i, j).base);
        }
        assert forall|k: int| #![trigger h1.pages[k]] 0 <= k < h1.pages.len() implies {
            &&& h1.pages[k] % PAGE_SIZE == 0
            &&& h1.pages[k] > 0
            &&& h1.start <= h1.pages[k]
            &&& h1.pages[k] + PAGE_SIZE <= h1.next
        } by {
            assert(h1.pages[k] == h.pages[k]);
        }
        assert forall|i: int, j: int| #![trigger h1.slab(i, j)] h1.valid(i, j) implies h1.slab(i, j) == h.slab(i, j) by {}
        assert(h1.pages.no_duplicates());
        assert(h1.wf());
    } else {
        assert forall|i: int, j: int| h.valid(i, j) implies #[trigger] h.slab(i, j).base != h.next by {
            assert(h.slab(i, j).base + PAGE_SIZE <= h.next);
        }
        assert forall|i: int, j: int| #![trigger h1.slab(i, j)] h1.valid(i, j) implies h1.slab(i, j) == h.slab(i, j) by {}
        assert(h1.wf());
    }
}

/// The slab that `slab_index_of` picks for an owned object is the one that holds it.
proof fn lemma_owner_index(h: HeapView, ci: int, ptr: int)
    requires
        h.wf(),
        0 <= ci < NUM_CACHES,
        h.owns(ci, ptr),
    ensures
        ({
            let j = slab_index_of(h.caches[ci].slabs, round_down(ptr, PAGE_SIZE as int));
            &&& 0 <= j < h.caches[ci].slabs.len()
            &&& h.slab(ci, j).holds(ptr)
            &&& forall|k: int| 0 <= k < h.caches[ci].slabs.len() && k != j ==> h.slab(ci, k).base
                != h.slab(ci, j).base
        }),
{
    let slabs = h.caches[ci].slabs;
    let j0 = choose|j: int| 0 <= j < slabs.len() && #[trigger] h.slab(ci, j).holds(ptr);
    lemma_object_in_page(h, ci, j0, ptr);
    assert(slabs[j0].base == round_down(ptr, PAGE_SIZE as int));
    let j = slab_index_of(slabs, round_down(ptr, PAGE_SIZE as int));
    if j != j0 {
        assert(h.slab(ci, j).base != h.slab(ci, j0).base);
    }
    assert forall|k: int| 0 <= k < slabs.len() && k != j implies h.slab(ci, k).base != h.slab(
        ci,
        j,
    ).base by {
        assert(h.valid(ci, k) && h.valid(ci, j));
    }
}

/// Giving back a handed-out object keeps the allocator's invariant.
pub proof fn lemma_dealloc_preserves_wf(h: HeapView, ptr: int, size: int, align: int)
    requires
        h.wf(),
        ptr != 0 ==> match class_of(size, align) {
            Some(ci) => h.owns(ci, ptr),
            None => true,
        },
    ensures
        dealloc_step(h, ptr, size, align).wf(),
{
    lemma_class_from_range(needed_size(size, align), 0);
    if ptr != 0 {
        if let Some(ci) = class_of(size, align) {
            let slabs = h.caches[ci].slabs;
            let j = slab_index_of(slabs, round_down(ptr, PAGE_SIZE as int));
            lemma_owner_index(h, ci, ptr);
            let s = slabs[j];
            assert(h.slab(ci, j) == s);
            assert(s.slab_ok(class_size(ci)));
            let q = s.pushed(ptr);
            let h2 = dealloc_step(h, ptr, size, align);
            if q.in_use == 0 {
                assert forall|i: int, k: int| #![trigger h2.slab(i, k)] h2.valid(i, k) implies (if i
                    == ci {
                    let o = if k < j {
                        k
                    } else {
                        k + 1
                    };
                    h.valid(i, o) && h2.slab(i, k) == h.slab(i, o)
                } else {
                    h.valid(i, k) && h2.slab(i, k) == h.slab(i, k)
                }) by {}
                assert forall|i1: int, j1: int, i2: int, j2: int|
                    #![trigger h2.slab(i1, j1), h2.slab(i2, j2)]
                    h2.valid(i1, j1) && h2.valid(i2, j2) && (i1 != i2 || j1 != j2) implies h2.slab(
                        i1,
                        j1,
                    ).base != h2.slab(i2, j2).base by {
                    let o1 = if i1 == ci && j1 >= j {
                        j1 + 1
                    } else {
                        j1
                    };
                    let o2 = if i2 == ci && j2 >= j {
                        j2 + 1
                    } else {
                        j2
                    };
                    assert(h.slab(i1, o1).base != h.slab(i2, o2).base);
                }
            } else {
                assert(!s.free.contains(ptr as usize));
                let kk = choose|k: int| 0 <= k < s.total && ptr == object_at(s.base, s.object_size, k);
                lemma_class_geometry(ci);
                lemma_object_bounds(s.base, s.object_size, kk);
                assert forall|a: int, b: int| 0 <= a < q.free.len() && 0 <= b < q.free.len() && a != b implies q.free[a]
                    != q.free[b] by {
                    if a == s.free.len() {
                        assert(s.free[b] != ptr as usize);
                    } else if b == s.free.len() {
                        assert(s.free[a] != ptr as usize);
                    } else {
                        assert(q.free[a] == s.free[a] && q.free[b] == s.free[b]);
                    }
                }
                assert forall|a: int| 0 <= a < q.free.len() implies q.is_object(#[trigger] q.free[a] as int) by {
                    if a < s.free.len() {
                        assert(q.free[a] == s.free[a]);
                        assert(s.is_object(s.free[a] as int));
                        let k = choose|k: int| 0 <= k < s.total && s.free[a] as int == object_at(s.base, s.object_size, k);
                        assert(object_at(q.base, q.object_size, k) == q.free[a] as int);
                    } else {
                        assert(q.free[a] as int == ptr);
                        assert(object_at(q.base, q.object_size, kk) == ptr);
                    }
                }
                assert(q.slab_ok(class_size(ci)));
                assert forall|i: int, k: int| #![trigger h2.slab(i, k)] h2.valid(i, k) implies h2.slab(i, k)
                    == (if i == ci && k == j {
                    q
                } else {
                    h.slab(i, k)
                }) && h.valid(i, k) by {}
            }
        }
    }
}

/// Object `k` of a slab on the page at `base` lies in that page and is a
/// multiple of the object size.
proof fn lemma_object_placement(base: int, i: int, k: int)
    requires
        0 <= i < NUM_CACHES,
        base % PAGE_SIZE as int == 0,
        0 <= k < capacity(class_size(i)),
    ensures
        base + first_object_offset(class_size(i)) <= object_at(base, class_size(i), k),
        object_at(base, class_size(i), k) + class_size(i) <= base + PAGE_SIZE,
        round_down(object_at(base, class_size(i), k), PAGE_SIZE as int) == base,
        object_at(base, class_size(i), k) % class_size(i) == 0,
{
    let os = class_size(i);
    lemma_class_geometry(i);
    lemma_object_bounds(base, os, k);
    let a = object_at(base, os, k);
    let off = first_object_offset(os);
    assert(k * os >= 0) by (nonlinear_arith)
        requires
            k >= 0,
            os > 0,
    ;
    let p = PAGE_SIZE as int;
    vstd::arithmetic::div_mod::lemma_fundamental_div_mod(base, p);
    vstd::arithmetic::div_mod::lemma_mod_multiples_vanish(base / p, off + k * os, p);
    vstd::arithmetic::div_mod::lemma_small_mod((off + k * os) as nat, p as nat);
    assert(p * (base / p) + (off + k * os) == a);
    lemma_page_multiple(base, os);
    vstd::arithmetic::div_mod::lemma_fundamental_div_mod(base, os);
    vstd::arithmetic::div_mod::lemma_fundamental_div_mod(off, os);
    vstd::arithmetic::div_mod::lemma_mod_multiples_basic(base / os + off / os + k, os);
    assert((base / os + off / os + k) * os == a) by (nonlinear_arith)
        requires
            base == os * (base / os) + base % os,
            base % os == 0,
            off == os * (off / os) + off % os,
            off % os == 0,
            a == base + off + k * os,
    ;
}

/// A power of two no larger than an object size divides it.
proof fn lemma_pow2_divides_class(align: int, i: int)
    requires
        0 <= i < NUM_CACHES,
        is_pow2(align),
        align <= class_size(i),
    ensures
        class_size(i) % align == 0,
{
    let k = choose|k: nat| k < usize::BITS && pow2(k) == align;
    let m = (i + 3) as nat;
    lemma2_to64();
    assert(class_size(i) == pow2(m)) by {
        if i == 0 {
        } else if i == 1 {
        } else if i == 2 {
        } else if i == 3 {
        } else if i == 4 {
        } else if i == 5 {
        } else if i == 6 {
        } else {
        }
    }
    if k > m {
        lemma_pow2_strictly_increases(m, k);
    }
    assert(k <= m);
    lemma_pow2_adds(k, (m - k) as nat);
    lemma_pow2_pos(k);
    lemma_pow2_pos((m - k) as nat);
    vstd::arithmetic::div_mod::lemma_mod_multiples_basic(pow2((m - k) as nat) as int, align);
    assert(pow2((m - k) as nat) * align == pow2(k) * pow2((m - k) as nat)) by (nonlinear_arith)
        requires
            align == pow2(k),
    ;
}

/// Divisibility is transitive.
proof fn lemma_divides_trans(r: int, os: int, al: int)
    requires
        os > 0,
        al > 0,
        r % os == 0,
        os % al == 0,
    ensures
        r % al == 0,
{
    vstd::arithmetic::div_mod::lemma_fundamental_div_mod(r, os);
    vstd::arithmetic::div_mod::lemma_fundamental_div_mod(os, al);
    vstd::arithmetic::div_mod::lemma_mod_multiples_basic((os / al) * (r / os), al);
    assert(((os / al) * (r / os)) * al == r) by (nonlinear_arith)
        requires
            r == os * (r / os) + r % os,
            r % os == 0,
            os == al * (os / al) + os % al,
            os % al == 0,
    ;
}

/// The last element of a sequence without duplicates is not among the others.
proof fn lemma_last_not_in_rest(s: Seq<usize>)
    requires
        s.len() > 0,
        s.no_duplicates(),
    ensures
        !s.drop_last().contains(s.last()),
        forall|x: usize| x != s.last() ==> (s.drop_last().contains(x) == s.contains(x)),
{
    if s.drop_last().contains(s.last()) {
        let i = choose|i: int| 0 <= i < s.drop_last().len() && s.drop_last()[i] == s.last();
        assert(s[i] == s[s.len() - 1]);
    }
    assert forall|x: usize| x != s.last() implies (s.drop_last().contains(x) == s.contains(x)) by {
        if s.contains(x) {
            let i = choose|i: int| 0 <= i < s.len() && s[i] == x;
            assert(i != s.len() - 1);
            assert(s.drop_last()[i] == x);
        }
    }
}

/// Only one slab has a given address among its objects.
proof fn lemma_single_owner(h: HeapView, i1: int, j1: int, i2: int, j2: int, a: int)
    requires
        h.wf(),
        h.valid(i1, j1),
        h.valid(i2, j2),
        h.slab(i1, j1).is_object(a),
        h.slab(i2, j2).is_object(a),
    ensures
        i1 == i2 && j1 == j2,
{
    lemma_object_in_page(h, i1, j1, a);
    lemma_object_in_page(h, i2, j2, a);
    if i1 != i2 || j1 != j2 {
        assert(h.slab(i1, j1).base != h.slab(i2, j2).base);
    }
}

/// Handing out the last free object of slab `(ci, j)`: it was not handed
/// out, it is afterwards, and nothing else changes state.
proof fn lemma_pop_live(h: HeapView, ci: int, j: int)
    requires
        h.wf(),
        h.valid(ci, j),
        h.slab(ci, j).free.len() > 0,
    ensures
        ({
            let slabs = h.caches[ci].slabs;
            let h2 = h.with_slabs(ci, slabs.update(j, slabs[j].popped()));
            let r = slabs[j].free.last() as int;
            &&& h.slab(ci, j).is_object(r)
            &&& !h.live(r)
            &&& h2.live(r)
            &&& forall|a: int| a != r ==> h2.live(a) == h.live(a)
        }),
{
    let slabs = h.caches[ci].slabs;
    let h2 = h.with_slabs(ci, slabs.update(j, slabs[j].popped()));
    let sl = slabs[j];
    let r = sl.free.last() as int;
    assert(h.slab(ci, j) == sl);
    let os = class_size(ci);
    assert(sl.slab_ok(os));
    let p = sl.popped();
    assert(sl.is_object(sl.free[sl.free.len() - 1] as int));
    lemma_last_not_in_rest(sl.free);
    assert(h2.slab(ci, j) == p);
    let kr = choose|k: int| 0 <= k < sl.total && r == object_at(sl.base, sl.object_size, k);
    assert(p.is_object(r)) by {
        assert(object_at(p.base, p.object_size, kr) == r);
    }
    assert(h2.slab(ci, j).holds(r));
    assert(h2.valid(ci, j));
    if h.live(r) {
        let (i, k) = choose|i: int, k: int| h.valid(i, k) && #[trigger] h.slab(i, k).holds(r);
        lemma_single_owner(h, i, k, ci, j, r);
        assert(sl.free.contains(r as usize)) by {
            assert(sl.free[sl.free.len() - 1] == r as usize);
        }
    }
    assert forall|a: int| a != r implies h2.live(a) == h.live(a) by {
        if h2.live(a) {
            let (i, k) = choose|i: int, k: int| h2.valid(i, k) && #[trigger] h2.slab(i, k).holds(a);
            assert(h.valid(i, k));
            if i == ci && k == j {
                assert(h2.slab(i, k) == p);
                let ka = choose|m: int| 0 <= m < p.total && a == object_at(p.base, p.object_size, m);
                assert(object_at(sl.base, sl.object_size, ka) == a);
                lemma_class_geometry(ci);
                lemma_object_bounds(sl.base, os, ka);
                lemma_object_bounds(sl.base, os, kr);
                assert(a as usize != sl.free.last());
                assert(!sl.free.contains(a as usize));
                assert(h.slab(i, k).holds(a));
            } else {
                assert(h.slab(i, k) == h2.slab(i, k));
                assert(h.slab(i, k).holds(a));
            }
        }
        if h.live(a) {
            let (i, k) = choose|i: int, k: int| h.valid(i, k) && #[trigger] h.slab(i, k).holds(a);
            assert(h2.valid(i, k));
            if i == ci && k == j {
                let ka = choose|m: int| 0 <= m < sl.total && a == object_at(sl.base, sl.object_size, m);
                assert(object_at(p.base, p.object_size, ka) == a);
                assert(h2.slab(i, k).holds(a));
            } else {
                assert(h2.slab(i, k) == h.slab(i, k));
                assert(h2.slab(i, k).holds(a));
            }
        }
    }
}

/// Handing out the last object of a slab just made on a page from
/// `page_source`: it was not handed out, it is afterwards, and nothing else
/// changes state.
proof fn lemma_fresh_live(h: HeapView, ci: int)
    requires
        h.wf(),
        0 <= ci < NUM_CACHES,
        page_source(h).1 is Some,
    ensures
        ({
            let os = class_size(ci);
            let (h1, page) = page_source(h);
            let pg = page.unwrap();
            let fresh = fresh_slab(pg, os);
            let h2 = h1.with_slabs(ci, h.caches[ci].slabs.insert(0, fresh.popped()));
            let r = fresh.free.last() as int;
            &&& r == object_at(pg, os, capacity(os) - 1)
            &&& pg % PAGE_SIZE as int == 0
            &&& h.start <= pg
            &&& pg + PAGE_SIZE <= h2.next
            &&& !h.live(r)
            &&& h2.live(r)
            &&& forall|a: int| a != r ==> h2.live(a) == h.live(a)
        }),
{
    let os = class_size(ci);
    lemma_page_source(h);
    let (h1, page) = page_source(h);
    let pg = page.unwrap();
    let fresh = fresh_slab(pg, os);
    let slabs = h.caches[ci].slabs;
    let h2 = h1.with_slabs(ci, slabs.insert(0, fresh.popped()));
    let r = fresh.free.last() as int;
    let p = fresh.popped();
    lemma_fresh_popped_ok(pg, ci);
    lemma_class_geometry(ci);
    let kl = capacity(os) - 1;
    lemma_object_placement(pg, ci, kl);
    assert(h2.slab(ci, 0) == p);
    assert(h2.valid(ci, 0));
    lemma_last_not_in_rest(fresh.free);
    assert(p.is_object(r)) by {
        assert(object_at(p.base, p.object_size, kl) == r);
    }
    assert(h2.slab(ci, 0).holds(r));
    if h.live(r) {
        let (i, k) = choose|i: int, k: int| h.valid(i, k) && #[trigger] h.slab(i, k).holds(r);
        lemma_object_in_page(h, i, k, r);
        assert(h.slab(i, k).base != pg);
    }
    assert forall|a: int| a != r implies h2.live(a) == h.live(a) by {
        if h2.live(a) {
            let (i, k) = choose|i: int, k: int| h2.valid(i, k) && #[trigger] h2.slab(i, k).holds(a);
            if i == ci && k == 0 {
                let ka = choose|m: int| 0 <= m < p.total && a == object_at(p.base, p.object_size, m);
                if ka < kl {
                    lemma_object_bounds(pg, os, ka);
                    assert(p.free[ka] == a as usize);
                    assert(p.free.contains(a as usize));
                }
                assert(false);
            } else if i == ci {
                assert(h2.slab(i, k) == h.slab(i, k - 1));
                assert(h.valid(i, k - 1));
                assert(h.slab(i, k - 1).holds(a));
            } else {
                assert(h2.slab(i, k) == h.slab(i, k));
                assert(h.valid(i, k));
                assert(h.slab(i, k).holds(a));
            }
        }
        if h.live(a) {
            let (i, k) = choose|i: int, k: int| h.valid(i, k) && #[trigger] h.slab(i, k).holds(a);
            if i == ci {
                assert(h2.slab(i, k + 1) == h.slab(i, k));
                assert(h2.valid(i, k + 1));
                assert(h2.slab(i, k + 1).holds(a));
            } else {
                assert(h2.slab(i, k) == h.slab(i, k));
                assert(h2.valid(i, k));
                assert(h2.slab(i, k).holds(a));
            }
        }
    }
}

/// What a request hands out: an address aligned as asked, not handed out
/// before and handed out after, with room for the request inside the taken
/// pages; every other address keeps its state.
pub proof fn lemma_alloc_result(h: HeapView, size: int, align: int)
    requires
        h.wf(),
        request_ok(size, align),
        0 <= size,
    ensures
        ({
            let (h2, r) = alloc_step(h, size, align);
            r != 0 ==> {
                &&& r % align == 0
                &&& !h.live(r)
                &&& h2.live(r)
                &&& forall|a: int| a != r ==> h2.live(a) == h.live(a)
                &&& h.start <= r
                &&& r + size <= h2.next
                &&& r + size <= round_down(r, PAGE_SIZE as int) + PAGE_SIZE
            }
        }),
{
    let (h2, r) = alloc_step(h, size, align);
    lemma_class_from_range(needed_size(size, align), 0);
    if let Some(ci) = class_of(size, align) {
        let os = class_size(ci);
        let larger = if size >= align {
            size
        } else {
            align
        };
        let al_k = choose|k: nat| k < usize::BITS && pow2(k) == align;
        lemma_pow2_pos(al_k);
        lemma_round_up(larger, align);
        lemma_pow2_divides_class(align, ci);
        lemma_class_geometry(ci);
        let slabs = h.caches[ci].slabs;
        lemma_first_open_range(slabs, 0);
        match first_open(slabs, 0) {
            Some(j) => {
                assert(h.valid(ci, j));
                lemma_pop_live(h, ci, j);
                lemma_object_in_page(h, ci, j, r);
                lemma_divides_trans(r, os, align);
                assert(h.slab(ci, j).base + PAGE_SIZE <= h.next);
            },
            None => {
                lemma_page_source(h);
                if let Some(pg) = page_source(h).1 {
                    lemma_fresh_live(h, ci);
                    let kl = capacity(os) - 1;
                    lemma_object_placement(pg, ci, kl);
                    lemma_divides_trans(r, os, align);
                }
            },
        }
    }
}

/// Whether a new slab can be made: a page given back is kept, or the range
/// still has a next page, at a non-zero address.
pub open spec fn has_page(h: HeapView) -> bool {
    h.pages.len() > 0 || (h.next != 0 && h.next + PAGE_SIZE <= h.end)
}

/// Memory given back is available again. From a sound state where the
/// request's class has no slab and a page can be had, the request succeeds;
/// giving the object back leaves every class as it was, the state sound, and
/// a page to be had, so the round can be repeated without end.
pub proof fn lemma_alloc_free_round(h: HeapView, size: int, align: int)
    requires
        h.wf(),
        request_ok(size, align),
        0 <= size,
        class_of(size, align) matches Some(ci) && h.caches[ci].slabs.len() == 0,
        has_page(h),
    ensures
        ({
            let (h1, r) = alloc_step(h, size, align);
            let h2 = dealloc_step(h1, r, size, align);
            &&& r != 0
            &&& h1.wf()
            &&& h2.wf()
            &&& h2.caches == h.caches
            &&& h2.pages.len() > 0
            &&& has_page(h2)
        }),
{
    lemma_class_from_range(needed_size(size, align), 0);
    let ci = class_of(size, align).unwrap();
    let os = class_size(ci);
    let slabs = h.caches[ci].slabs;
    lemma_first_open_range(slabs, 0);
    assert(first_open(slabs, 0) is None);
    lemma_page_source(h);
    let (h0, page) = page_source(h);
    assert(page is Some);
    let pg = page.unwrap();
    lemma_fresh_live(h, ci);
    lemma_class_geometry(ci);
    lemma_fresh_popped_ok(pg, ci);
    let fresh = fresh_slab(pg, os);
    let (h1, r) = alloc_step(h, size, align);
    assert(r == fresh.free.last() as int);
    assert(slabs.insert(0, fresh.popped()) =~= seq![fresh.popped()]);
    assert(h1 == h0.with_slabs(ci, seq![fresh.popped()]));
    lemma_object_bounds(pg, os, capacity(os) - 1);
    assert(r != 0);
    lemma_alloc_preserves_wf(h, ci);
    // The object handed out is held by the class's only slab.
    let sl = h1.slab(ci, 0);
    assert(sl == fresh.popped());
    assert(sl.is_object(r)) by {
        assert(0 <= capacity(os) - 1 < sl.total);
    }
    assert(!sl.free.contains(r as usize)) by {
        if sl.free.contains(r as usize) {
            let m = choose|m: int| 0 <= m < sl.free.len() && sl.free[m] == r as usize;
            assert(fresh.free[m] == fresh.free[fresh.free.len() - 1]);
        }
    }
    assert(h1.caches[ci].slabs.len() == 1);
    assert(h1.slab(ci, 0).holds(r));
    assert(h1.owns(ci, r));
    lemma_dealloc_preserves_wf(h1, r, size, align);
    lemma_owner_index(h1, ci, r);
    let s1 = h1.caches[ci].slabs;
    let j = slab_index_of(s1, round_down(r, PAGE_SIZE as int));
    assert(j == 0);
    assert(s1[0].pushed(r).in_use == 0);
    let h2 = dealloc_step(h1, r, size, align);
    assert(s1.remove(0) =~= Seq::<SlabView>::empty());
    assert(h2.caches[ci] == h.caches[ci]) by {
        assert(h2.caches[ci].slabs =~= h.caches[ci].slabs);
    }
    assert(h2.caches =~= h.caches);
}

/// A slab's last free object is held once it is handed out.
proof fn lemma_popped_holds(sl: SlabView, os: int)
    requires
        sl.slab_ok(os),
        sl.free.len() > 0,
        sl.is_object(sl.free.last() as int),
    ensures
        sl.popped().holds(sl.free.last() as int),
{
    let r = sl.free.last() as int;
    let p = sl.popped();
    assert(p.is_object(r)) by {
        let k = choose|k: int| 0 <= k < sl.total && r == object_at(sl.base, sl.object_size, k);
        assert(0 <= k < p.total && r == object_at(p.base, p.object_size, k));
    }
    assert(!p.free.contains(r as usize)) by {
        if p.free.contains(r as usize) {
            let m = choose|m: int| 0 <= m < p.free.len() && p.free[m] == r as usize;
            assert(sl.free[m] == sl.free[sl.free.len() - 1]);
        }
    }
}

/// The address a request hands out is held by a slab of the request's
/// class, whose objects are large enough for the request.
pub proof fn lemma_alloc_owned(h: HeapView, size: int, align: int)
    requires
        h.wf(),
        request_ok(size, align),
        0 <= size,
    ensures
        ({
            let (h2, r) = alloc_step(h, size, align);
            r != 0 ==> (class_of(size, align) matches Some(ci) && h2.owns(ci, r) && size
                <= class_size(ci))
        }),
{
    lemma_class_from_range(needed_size(size, align), 0);
    let (h2, r) = alloc_step(h, size, align);
    if let Some(ci) = class_of(size, align) {
        let larger = if size >= align {
            size
        } else {
            align
        };
        let al_k = choose|k: nat| k < usize::BITS && pow2(k) == align;
        lemma_pow2_pos(al_k);
        lemma_round_up(larger, align);
        let os = class_size(ci);
        lemma_class_geometry(ci);
        let slabs = h.caches[ci].slabs;
        lemma_first_open_range(slabs, 0);
        match first_open(slabs, 0) {
            Some(j) => {
                assert(h.valid(ci, j));
                lemma_pop_live(h, ci, j);
                assert(h.slab(ci, j).slab_ok(os));
                lemma_popped_holds(slabs[j], os);
                assert(h2.slab(ci, j) == slabs[j].popped());
                assert(h2.slab(ci, j).holds(r));
            },
            None => {
                lemma_page_source(h);
                if let Some(pg) = page_source(h).1 {
                    lemma_fresh_live(h, ci);
                    lemma_fresh_popped_ok(pg, ci);
                    let fresh = fresh_slab(pg, os);
                    assert(fresh.is_object(r)) by {
                        assert(0 <= capacity(os) - 1 < fresh.total);
                    }
                    let sl = fresh.popped();
                    assert(sl.is_object(r)) by {
                        assert(0 <= capacity(os) - 1 < sl.total);
                    }
                    assert(!sl.free.contains(r as usize)) by {
                        if sl.free.contains(r as usize) {
                            let m = choose|m: int| 0 <= m < sl.free.len() && sl.free[m] == r as usize;
                            assert(fresh.free[m] == fresh.free[fresh.free.len() - 1]);
                        }
                    }
                    assert(h2.slab(ci, 0) == sl);
                    assert(h2.slab(ci, 0).holds(r));
                }
            },
        }
    }
}

/// A request leaves every object already held by a class held by it.
pub proof fn lemma_alloc_keeps_owned(h: HeapView, size: int, align: int, i: int, a: int)
    requires
        h.wf(),
        0 <= i < NUM_CACHES,
        h.owns(i, a),
    ensures
        alloc_step(h, size, align).0.owns(i, a),
{
    let h2 = alloc_step(h, size, align).0;
    let j0 = choose|j: int| 0 <= j < h.caches[i].slabs.len() && #[trigger] h.slab(i, j).holds(a);
    let s0 = h.slab(i, j0);
    if let Some(ci) = class_of(size, align) {
        lemma_class_from_range(needed_size(size, align), 0);
        let slabs = h.caches[ci].slabs;
        lemma_first_open_range(slabs, 0);
        lemma_page_source(h);
        if ci != i {
            assert(h2.caches[i] == h.caches[i]);
            assert(h2.slab(i, j0).holds(a));
        } else {
            match first_open(slabs, 0) {
                Some(j) => {
                    if j == j0 {
                        let p = s0.popped();
                        assert(p.is_object(a)) by {
                            let k = choose|k: int| 0 <= k < s0.total && a == object_at(s0.base, s0.object_size, k);
                            assert(0 <= k < p.total && a == object_at(p.base, p.object_size, k));
                        }
                        assert(!p.free.contains(a as usize)) by {
                            if p.free.contains(a as usize) {
                                let m = choose|m: int| 0 <= m < p.free.len() && p.free[m] == a as usize;
                                assert(s0.free[m] == a as usize);
                            }
                        }
                        assert(h2.slab(i, j0) == p);
                    } else {
                        assert(h2.slab(i, j0) == s0);
                    }
                    assert(h2.slab(i, j0).holds(a));
                },
                None => {
                    if page_source(h).1 is Some {
                        assert(h2.slab(i, j0 + 1) == s0);
                        assert(h2.slab(i, j0 + 1).holds(a));
                    } else {
                        assert(h2.caches == h.caches);
                        assert(h2.slab(i, j0).holds(a));
                    }
                },
            }
        }
    }
}

/// Giving back one object leaves every other object held by a class held
/// by it.
pub proof fn lemma_dealloc_keeps_owned(h: HeapView, ptr: int, size: int, align: int, i: int, a: int)
    requires
        h.wf(),
        ptr != 0 ==> match class_of(size, align) {
            Some(ci) => h.owns(ci, ptr),
            None => true,
        },
        0 <= i < NUM_CACHES,
        h.owns(i, a),
        a != ptr,
    ensures
        dealloc_step(h, ptr, size, align).owns(i, a),
{
    let h2 = dealloc_step(h, ptr, size, align);
    let j0 = choose|j: int| 0 <= j < h.caches[i].slabs.len() && #[trigger] h.slab(i, j).holds(a);
    let s0 = h.slab(i, j0);
    lemma_class_from_range(needed_size(size, align), 0);
    if ptr != 0 {
        if let Some(ci) = class_of(size, align) {
            if ci != i {
                assert(h2.caches[i] == h.caches[i]);
                assert(h2.slab(i, j0).holds(a));
            } else {
                let slabs = h.caches[ci].slabs;
                lemma_owner_index(h, ci, ptr);
                let j = slab_index_of(slabs, round_down(ptr, PAGE_SIZE as int));
                let s = slabs[j].pushed(ptr);
                lemma_class_geometry(i);
                lemma_object_in_page(h, i, j0, a);
                lemma_object_in_page(h, i, j, ptr);
                assert(h.slab(i, j).slab_ok(class_size(i)));
                if j == j0 {
                    if s.in_use == 0 {
                        lemma_only_live_object(s0, i, ptr, a);
                        assert(false);
                    }
                    assert(s.is_object(a)) by {
                        let k = choose|k: int| 0 <= k < s0.total && a == object_at(s0.base, s0.object_size, k);
                        assert(0 <= k < s.total && a == object_at(s.base, s.object_size, k));
                    }
                    assert(!s.free.contains(a as usize)) by {
                        if s.free.contains(a as usize) {
                            let m = choose|m: int| 0 <= m < s.free.len() && s.free[m] == a as usize;
                            if m < s0.free.len() {
                                assert(s0.free[m] == a as usize);
                            }
                        }
                    }
                    assert(h2.slab(i, j0) == s);
                    assert(h2.slab(i, j0).holds(a));
                } else if s.in_use == 0 {
                    if j0 < j {
                        assert(h2.slab(i, j0) == s0);
                        assert(h2.slab(i, j0).holds(a));
                    } else {
                        assert(h2.slab(i, j0 - 1) == s0);
                        assert(h2.slab(i, j0 - 1).holds(a));
                    }
                } else {
                    assert(h2.slab(i, j0) == s0);
                    assert(h2.slab(i, j0).holds(a));
                }
            }
        }
    }
}

/// Objects held by classes lie in the pages taken from the heap range, are
/// aligned to their class's size, and two different ones do not overlap.
pub proof fn lemma_owned_objects_apart(h: HeapView, i1: int, a: int, i2: int, b: int)
    requires
        h.wf(),
        0 <= i1 < NUM_CACHES,
        0 <= i2 < NUM_CACHES,
        h.owns(i1, a),
        h.owns(i2, b),
        a != b,
    ensures
        h.start <= a,
        a + class_size(i1) <= h.next,
        a % class_size(i1) == 0,
        h.start <= b,
        b + class_size(i2) <= h.next,
        b % class_size(i2) == 0,
        a + class_size(i1) <= b || b + class_size(i2) <= a,
{
    let j1 = choose|j: int| 0 <= j < h.caches[i1].slabs.len() && #[trigger] h.slab(i1, j).holds(a);
    let j2 = choose|j: int| 0 <= j < h.caches[i2].slabs.len() && #[trigger] h.slab(i2, j).holds(b);
    assert(h.valid(i1, j1) && h.valid(i2, j2));
    lemma_object_in_page(h, i1, j1, a);
    lemma_object_in_page(h, i2, j2, b);
    lemma_live_objects_disjoint(h, i1, j1, a, i2, j2, b);
}

/// The index of the object at `x` in a slab on the page at `base`.
pub open spec fn object_index(base: int, os: int, x: int) -> int {
    (x - base - first_object_offset(os)) / os
}

proof fn lemma_object_index(base: int, os: int, k: int)
    requires
        os > 0,
    ensures
        object_index(base, os, object_at(base, os, k)) == k,
{
    vstd::arithmetic::div_mod::lemma_div_multiples_vanish(k, os);
    assert(object_at(base, os, k) - base - first_object_offset(os) == os * k) by (nonlinear_arith)
        requires
            object_at(base, os, k) == base + first_object_offset(os) + k * os,
    ;
}

/// In a slab with one object in use, every other object is free.
proof fn lemma_only_live_object(s: SlabView, i: int, ptr: int, a: int)
    requires
        0 <= i < NUM_CACHES,
        s.slab_ok(class_size(i)),
        0 <= s.base,
        s.base + PAGE_SIZE <= usize::MAX,
        s.in_use == 1,
        s.holds(ptr),
        s.is_object(a),
        a != ptr,
    ensures
        s.free.contains(a as usize),
{
    let os = class_size(i);
    lemma_class_geometry(i);
    let kp = choose|k: int| 0 <= k < s.total && ptr == object_at(s.base, s.object_size, k);
    let ka = choose|k: int| 0 <= k < s.total && a == object_at(s.base, s.object_size, k);
    lemma_object_bounds(s.base, os, kp);
    lemma_object_bounds(s.base, os, ka);
    if !s.free.contains(a as usize) {
        let f = |x: usize| object_index(s.base, os, x as int);
        let fs = s.free.to_set();
        let ks = fs.map(f);
        s.free.unique_seq_to_set();
        assert forall|x: usize, y: usize| fs.contains(x) && fs.contains(y) && f(x) == f(y) implies x == y by {
            let ix = choose|m: int| 0 <= m < s.free.len() && s.free[m] == x;
            let iy = choose|m: int| 0 <= m < s.free.len() && s.free[m] == y;
            assert(s.is_object(s.free[ix] as int));
            assert(s.is_object(s.free[iy] as int));
            let kx = choose|k: int| 0 <= k < s.total && x as int == object_at(s.base, s.object_size, k);
            let ky = choose|k: int| 0 <= k < s.total && y as int == object_at(s.base, s.object_size, k);
            lemma_object_index(s.base, os, kx);
            lemma_object_index(s.base, os, ky);
        }
        lemma_map_size(fs, ks, f);
        let range = set_int_range(0, s.total).remove(kp).remove(ka);
        lemma_int_range(0, s.total);
        lemma_objects_distinct(s.base, os, kp, ka);
        assert forall|k: int| ks.contains(k) implies range.contains(k) by {
            let x = choose|x: usize| fs.contains(x) && f(x) == k;
            let ix = choose|m: int| 0 <= m < s.free.len() && s.free[m] == x;
            assert(s.is_object(s.free[ix] as int));
            let kx = choose|m: int| 0 <= m < s.total && x as int == object_at(s.base, s.object_size, m);
            lemma_object_index(s.base, os, kx);
            lemma_object_bounds(s.base, os, kx);
            if kx == kp {
                assert(x as int == ptr);
                assert(s.free.contains(ptr as usize));
            }
            if kx == ka {
                assert(x as int == a);
                assert(s.free.contains(a as usize));
            }
        }
        lemma_len_subset(ks, range);
    }
}

/// Giving back a handed-out object makes exactly that object free.
pub proof fn lemma_dealloc_result(h: HeapView, ptr: int, size: int, align: int)
    requires
        h.wf(),
        ptr != 0,
        class_of(size, align) matches Some(ci) && h.owns(ci, ptr),
    ensures
        h.live(ptr),
        forall|a: int| dealloc_step(h, ptr, size, align).live(a) == (h.live(a) && a != ptr),
{
    lemma_class_from_range(needed_size(size, align), 0);
    let ci = class_of(size, align).unwrap();
    let slabs = h.caches[ci].slabs;
    let j = slab_index_of(slabs, round_down(ptr, PAGE_SIZE as int));
    lemma_owner_index(h, ci, ptr);
    let sl = slabs[j];
    assert(h.slab(ci, j) == sl);
    assert(sl.slab_ok(class_size(ci)));
    assert(h.valid(ci, j));
    let os = class_size(ci);
    lemma_class_geometry(ci);
    let h2 = dealloc_step(h, ptr, size, align);
    let q = sl.pushed(ptr);
    let kp = choose|k: int| 0 <= k < sl.total && ptr == object_at(sl.base, sl.object_size, k);
    lemma_object_bounds(sl.base, os, kp);
    assert forall|a: int| h2.live(a) == (h.live(a) && a != ptr) by {
        if q.in_use == 0 {
            if h2.live(a) {
                let (i, k) = choose|i: int, k: int| h2.valid(i, k) && #[trigger] h2.slab(i, k).holds(a);
                let o = if i == ci && k >= j {
                    k + 1
                } else {
                    k
                };
                assert(h2.slab(i, k) == h.slab(i, o));
                assert(h.valid(i, o));
                assert(h.slab(i, o).holds(a));
                if a == ptr {
                    lemma_single_owner(h, i, o, ci, j, ptr);
                }
            }
            if h.live(a) && a != ptr {
                let (i, k) = choose|i: int, k: int| h.valid(i, k) && #[trigger] h.slab(i, k).holds(a);
                if i == ci && k == j {
                    lemma_only_live_object(sl, ci, ptr, a);
                    assert(false);
                } else {
                    let n = if i == ci && k > j {
                        k - 1
                    } else {
                        k
                    };
                    assert(h2.slab(i, n) == h.slab(i, k));
                    assert(h2.valid(i, n));
                    assert(h2.slab(i, n).holds(a));
                }
            }
        } else {
            if h2.live(a) {
                let (i, k) = choose|i: int, k: int| h2.valid(i, k) && #[trigger] h2.slab(i, k).holds(a);
                assert(h.valid(i, k));
                if i == ci && k == j {
                    assert(h2.slab(i, k) == q);
                    assert(q.free.contains(ptr as usize)) by {
                        assert(q.free[q.free.len() - 1] == ptr as usize);
                    }
                    let ka = choose|m: int| 0 <= m < q.total && a == object_at(q.base, q.object_size, m);
                    assert(object_at(sl.base, sl.object_size, ka) == a);
                    lemma_object_bounds(sl.base, os, ka);
                    assert(a != ptr);
                    if sl.free.contains(a as usize) {
                        let m = choose|m: int| 0 <= m < sl.free.len() && sl.free[m] == a as usize;
                        assert(q.free[m] == a as usize);
                    }
                    assert(h.slab(i, k).holds(a));
                } else {
                    assert(h.slab(i, k) == h2.slab(i, k));
                    assert(h.slab(i, k).holds(a));
                    if a == ptr {
                        lemma_single_owner(h, i, k, ci, j, ptr);
                    }
                }
            }
            if h.live(a) && a != ptr {
                let (i, k) = choose|i: int, k: int| h.valid(i, k) && #[trigger] h.slab(i, k).holds(a);
                assert(h2.valid(i, k));
                if i == ci && k == j {
                    let ka = choose|m: int| 0 <= m < sl.total && a == object_at(sl.base, sl.object_size, m);
                    assert(object_at(q.base, q.object_size, ka) == a);
                    lemma_object_bounds(sl.base, os, ka);
                    if q.free.contains(a as usize) {
                        let m = choose|m: int| 0 <= m < q.free.len() && q.free[m] == a as usize;
                        if m < sl.free.len() {
                            assert(sl.free[m] == a as usize);
                        }
                    }
                    assert(h2.slab(i, k).holds(a));
                } else {
                    assert(h2.slab(i, k) == h.slab(i, k));
                    assert(h2.slab(i, k).holds(a));
                }
            }
        }
    }
}

/// Distinct multiples of the page size are at least a page apart.
proof fn lemma_pages_apart(x: int, y: int)
    requires
        x % PAGE_SIZE as int == 0,
        y % PAGE_SIZE as int == 0,
        x != y,
    ensures
        x + PAGE_SIZE <= y || y + PAGE_SIZE <= x,
{
    let p = PAGE_SIZE as int;
    vstd::arithmetic::div_mod::lemma_fundamental_div_mod(x, p);
    vstd::arithmetic::div_mod::lemma_fundamental_div_mod(y, p);
    assert(x + p <= y || y + p <= x) by (nonlinear_arith)
        requires
            x == p * (x / p),
            y == p * (y / p),
            x != y,
            p > 0,
    ;
}

/// Two different handed-out objects do not overlap.
pub proof fn lemma_live_objects_disjoint(h: HeapView, i1: int, j1: int, a: int, i2: int, j2: int, b: int)
    requires
        h.wf(),
        h.valid(i1, j1),
        h.valid(i2, j2),
        h.slab(i1, j1).holds(a),
        h.slab(i2, j2).holds(b),
        a != b,
    ensures
        a + class_size(i1) <= b || b + class_size(i2) <= a,
{
    lemma_object_in_page(h, i1, j1, a);
    lemma_object_in_page(h, i2, j2, b);
    if i1 == i2 && j1 == j2 {
        let sl = h.slab(i1, j1);
        let os = class_size(i1);
        assert(sl.slab_ok(os));
        let ka = choose|k: int| 0 <= k < sl.total && a == object_at(sl.base, sl.object_size, k);
        let kb = choose|k: int| 0 <= k < sl.total && b == object_at(sl.base, sl.object_size, k);
        lemma_class_geometry(i1);
        assert(a + os <= b || b + os <= a) by (nonlinear_arith)
            requires
                a == sl.base + first_object_offset(os) + ka * os,
                b == sl.base + first_object_offset(os) + kb * os,
                a != b,
                os > 0,
        ;
    } else {
        assert(h.slab(i1, j1).base != h.slab(i2, j2).base);
        assert(h.slab(i1, j1).slab_ok(class_size(i1)));
        assert(h.slab(i2, j2).slab_ok(class_size(i2)));
        lemma_pages_apart(h.slab(i1, j1).base, h.slab(i2, j2).base);
    }
}

/// An object given back to a slab that stays in use, where no slab before it
/// in its class has a free object, is the next one handed out for the same
/// request.
pub proof fn lemma_free_then_alloc_reuses(h: HeapView, ptr: int, size: int, align: int, j: int)
    requires
        h.wf(),
        ptr != 0,
        class_of(size, align) matches Some(ci) && {
            &&& h.valid(ci, j)
            &&& h.slab(ci, j).holds(ptr)
            &&& h.slab(ci, j).in_use >= 2
            &&& forall|k: int| 0 <= k < j ==> h.slab(ci, k).free.len() == 0
        },
    ensures
        alloc_step(dealloc_step(h, ptr, size, align), size, align).1 == ptr,
{
    lemma_class_from_range(needed_size(size, align), 0);
    let ci = class_of(size, align).unwrap();
    assert(h.owns(ci, ptr));
    lemma_owner_index(h, ci, ptr);
    let slabs = h.caches[ci].slabs;
    let jj = slab_index_of(slabs, round_down(ptr, PAGE_SIZE as int));
    if jj != j {
        lemma_single_owner(h, ci, jj, ci, j, ptr);
    }
    let h2 = dealloc_step(h, ptr, size, align);
    let q = slabs[j].pushed(ptr);
    let s2 = h2.caches[ci].slabs;
    assert(s2 == slabs.update(j, q));
    lemma_class_geometry(ci);
    let kp = choose|k: int| 0 <= k < slabs[j].total && ptr == object_at(slabs[j].base, slabs[j].object_size, k);
    assert(slabs[j].slab_ok(class_size(ci)));
    lemma_object_bounds(slabs[j].base, class_size(ci), kp);
    lemma_first_open_range(s2, 0);
    assert forall|k: int| 0 <= k < j implies s2[k].free.len() == 0 by {
        assert(s2[k] == h.slab(ci, k));
    }
    assert(s2[j].free.len() > 0);
    assert(first_open(s2, 0) == Some(j));
}

/// A request larger than the largest class is refused and changes nothing.
pub proof fn lemma_oversize_refused(h: HeapView, size: int, align: int)
    requires
        needed_size(size, align) > class_size(NUM_CACHES - 1),
    ensures
        alloc_step(h, size, align) == (h, 0int),
{
    lemma_no_class_for(needed_size(size, align), 0);
}

proof fn lemma_no_class_for(need: int, i: int)
    requires
        need > class_size(NUM_CACHES - 1),
        0 <= i,
    ensures
        class_from(need, i) is None,
    decreases NUM_CACHES - i,
{
    if i < NUM_CACHES {
        lemma_no_class_for(need, i + 1);
    }
}

} // verus!

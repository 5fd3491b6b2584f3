use fat32_rs::allocator::align::{align_down, align_up};
use fat32_rs::allocator::bump::BumpAllocator;
use fat32_rs::allocator::slab::{cache_for, SlabAllocator, PAGE_SIZE};
use fat32_rs::kernel::{heap_page_range, usable_frame, MemoryRegion, QemuExitCode, HEAP_SIZE, HEAP_START};

#[test]
fn exit_codes() {
    assert_eq!(QemuExitCode::Success.code(), 0x10);
    assert_eq!(QemuExitCode::Failed.code(), 0x11);
}

#[test]
fn heap_pages() {
    let (first, last) = heap_page_range(HEAP_START, HEAP_SIZE as u64);
    assert_eq!(first, 0x4444_4444_0000);
    assert_eq!(last, 0x4444_4444_0000 + 0xFF000);
    assert_eq!(heap_page_range(4097, 1), (4096, 4096));
}

#[test]
fn usable_frames_in_order() {
    let regions = [
        MemoryRegion { start: 0x1000, end: 0x3000, usable: true },
        MemoryRegion { start: 0x3000, end: 0x9000, usable: false },
        MemoryRegion { start: 0x10800, end: 0x12001, usable: true },
    ];
    assert_eq!(usable_frame(&regions, 0), Some(0x1000));
    assert_eq!(usable_frame(&regions, 1), Some(0x2000));
    assert_eq!(usable_frame(&regions, 2), Some(0x10000));
    assert_eq!(usable_frame(&regions, 3), Some(0x11000));
    assert_eq!(usable_frame(&regions, 4), None);
    assert_eq!(usable_frame(&regions, 5), None);
}

#[test]
fn alignment_arithmetic() {
    assert_eq!(align_up(0, 8), 0);
    assert_eq!(align_up(9, 8), 16);
    assert_eq!(align_up(4096, 4096), 4096);
    assert_eq!(align_up(4097, 4096), 8192);
    assert_eq!(align_up(usize::MAX, 1), usize::MAX);
    assert_eq!(align_up(usize::MAX - 7, 8), usize::MAX - 7);
    assert_eq!(align_down(4097, 4096), 4096);
    assert_eq!(align_down(7, 1), 7);
}

#[test]
fn size_classes() {
    assert_eq!(cache_for(1, 1), Some((0, 8)));
    assert_eq!(cache_for(9, 8), Some((1, 16)));
    assert_eq!(cache_for(8, 64), Some((3, 64)));
    assert_eq!(cache_for(100, 128), Some((4, 128)));
    assert_eq!(cache_for(1024, 8), Some((7, 1024)));
    assert_eq!(cache_for(1025, 8), None);
    assert_eq!(cache_for(4, 2048), None);
}

#[test]
fn bump_hands_out_aligned_blocks() {
    let mut bump = BumpAllocator::new();
    bump.init(0x1003, 100);
    assert_eq!(bump.allocate(10, 16), 0x1010);
    assert_eq!(bump.allocate(1, 1), 0x101a);
    assert_eq!(bump.allocate(200, 1), 0);
    assert_eq!(bump.allocate(1, 1), 0x101b);
}

fn heap(pages: usize) -> SlabAllocator {
    let mut a = SlabAllocator::new();
    a.init(0x10_0000, PAGE_SIZE * pages);
    a
}

#[test]
fn slab_objects_are_disjoint_and_in_page() {
    let mut a = heap(4);
    let mut seen = Vec::new();
    for _ in 0..20 {
        let p = a.allocate(24, 8);
        assert!(p != 0);
        assert_eq!(p % 32, 0);
        for q in &seen {
            assert!(p + 32 <= *q || *q + 32 <= p);
        }
        assert!(p >= 0x10_0000 + 64);
        seen.push(p);
    }
}

#[test]
fn slab_free_list_is_lifo() {
    let mut a = heap(4);
    let first = a.allocate(8, 8);
    let second = a.allocate(8, 8);
    assert_eq!(first, 0x10_0000 + 40 + 506 * 8);
    assert_eq!(second, first - 8);
    a.dealloc(second, 8, 8);
    a.dealloc(first, 8, 8);
    assert_eq!(a.allocate(8, 8), first);
}

#[test]
fn emptied_slab_page_is_reused() {
    let mut a = heap(1);
    let p = a.allocate(512, 512);
    assert!(p != 0);
    a.dealloc(p, 512, 512);
    let q = a.allocate(64, 8);
    assert!(q != 0);
    assert_eq!(q / PAGE_SIZE, p / PAGE_SIZE);
}

#[test]
fn slab_runs_out_of_pages() {
    let mut a = heap(1);
    assert!(a.allocate(1024, 8) != 0);
    assert!(a.allocate(8, 8) == 0);
    a.dealloc(0, 8, 8);
    a.dealloc(12345, 4096, 8);
}

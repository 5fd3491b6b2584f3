//! The arithmetic of kernel bring-up: exit codes, interrupt vector
//! offsets, the heap's pages and the usable physical frames.
use vstd::prelude::*;

use crate::allocator::align::round_down;

verus! {

/// Start of the kernel heap's virtual range.
pub const HEAP_START: u64 = 0x4444_4444_0000;

/// Size of the kernel heap: 1 MiB.
pub const HEAP_SIZE: usize = 1024 * 1024;

/// The size of a 4 KiB page or frame.
pub const FRAME_SIZE: u64 = 4096;

/// The interrupt vector of the primary PIC's first line.
pub const PIC_1_OFFSET: u8 = 32;

/// The interrupt vector of the secondary PIC's first line.
pub const PIC_2_OFFSET: u8 = PIC_1_OFFSET + 8;

/// The interrupt stack table slot of the double-fault handler.
pub const DOUBLE_FAULT_IST_INDEX: u16 = 0;

/// Exit codes for QEMU's isa-debug-exit device.
#[derive(Debug, Clone, Copy, PartialEq, Eq, Structural)]
pub enum QemuExitCode {
    Success,
    Failed,
}

/// The value written to the exit port for a code.
pub open spec fn exit_value(code: QemuExitCode) -> u32 {
    match code {
        QemuExitCode::Success => 0x10,
        QemuExitCode::Failed => 0x11,
    }
}

impl QemuExitCode {
    /// The value written to the exit port.
    pub fn code(self) -> (r: u32)
        ensures
            r == exit_value(self),
    {
        match self {
            QemuExitCode::Success => 0x10,
            QemuExitCode::Failed => 0x11,
        }
    }
}

/// The first and the last page of the address range `[start, start + size)`.
pub fn heap_page_range(start: u64, size: u64) -> (r: (u64, u64))
    requires
        size >= 1,
        start + size <= u64::MAX,
    ensures
        r.0 == round_down(start as int, FRAME_SIZE as int),
        r.1 == round_down(start + size - 1, FRAME_SIZE as int),
{
    let end = start + size - 1;
    (start - start % FRAME_SIZE, end - end % FRAME_SIZE)
}

/// A region of physical memory as the boot loader reports it: its address
/// range and whether it is free for the kernel to use.
#[derive(Debug, Clone, Copy, PartialEq, Eq, Structural)]
pub struct MemoryRegion {
    pub start: u64,
    pub end: u64,
    pub usable: bool,
}

/// The number of frame addresses that stepping through `[start, end)` by
/// a frame visits.
pub open spec fn step_count(start: int, end: int) -> int {
    if end <= start {
        0
    } else {
        (end - start + FRAME_SIZE - 1) / FRAME_SIZE as int
    }
}

/// The frames of one region: the frame containing each address visited by
/// stepping through it by a frame; none for a region not usable.
pub open spec fn region_frames(r: MemoryRegion) -> Seq<int> {
    if r.usable {
        Seq::new(
            step_count(r.start as int, r.end as int) as nat,
            |k: int| round_down(r.start + k * FRAME_SIZE, FRAME_SIZE as int),
        )
    } else {
        Seq::empty()
    }
}

/// The usable frames of all regions, in region order.
pub open spec fn usable_frames(regions: Seq<MemoryRegion>) -> Seq<int>
    decreases regions.len(),
{
    if regions.len() == 0 {
        Seq::empty()
    } else {
        usable_frames(regions.drop_last()) + region_frames(regions.last())
    }
}

/// The frames of a prefix of the regions lead the frames of all of them.
proof fn lemma_frames_prefix(regions: Seq<MemoryRegion>, i: int)
    requires
        0 <= i <= regions.len(),
    ensures
        usable_frames(regions) == usable_frames(regions.subrange(0, i)) + usable_frames(
            regions.subrange(i, regions.len() as int),
        ),
    decreases regions.len() - i,
{
    if i == regions.len() {
        assert(regions.subrange(0, i) =~= regions);
        assert(regions.subrange(i, regions.len() as int) =~= Seq::<MemoryRegion>::empty());
        assert(usable_frames(regions) + Seq::<int>::empty() =~= usable_frames(regions));
    } else {
        lemma_frames_prefix(regions, i + 1);
        let a = regions.subrange(0, i);
        let b = regions.subrange(i, regions.len() as int);
        let c = regions.subrange(i + 1, regions.len() as int);
        assert(regions.subrange(0, i + 1).drop_last() =~= a);
        lemma_frames_cons(b);
        assert(b.drop_first() =~= c);
        assert(usable_frames(regions.subrange(0, i + 1)) + usable_frames(c) =~= usable_frames(a)
            + usable_frames(b));
    }
}

/// The frames of a sequence of regions are those of its first region, then
/// those of the rest.
proof fn lemma_frames_cons(regions: Seq<MemoryRegion>)
    requires
        regions.len() > 0,
    ensures
        usable_frames(regions) == region_frames(regions[0]) + usable_frames(regions.drop_first()),
    decreases regions.len(),
{
    if regions.len() == 1 {
        assert(regions.drop_last() =~= Seq::<MemoryRegion>::empty());
        assert(regions.drop_first() =~= Seq::<MemoryRegion>::empty());
        assert(usable_frames(regions.drop_last()) == Seq::<int>::empty());
        assert(regions.last() == regions[0]);
        assert(Seq::<int>::empty() + region_frames(regions[0]) =~= region_frames(regions[0]));
        assert(usable_frames(regions) =~= region_frames(regions[0]));
        assert(region_frames(regions[0]) + Seq::<int>::empty() =~= region_frames(regions[0]));
    } else {
        let d = regions.drop_last();
        lemma_frames_cons(d);
        assert(d.drop_first() =~= regions.drop_first().drop_last());
        assert(regions.drop_first().last() == regions.last());
        assert(usable_frames(regions) =~= region_frames(regions[0]) + usable_frames(
            regions.drop_first(),
        ));
    }
}

/// The start of the `n`-th usable frame, counting from 0, or `None` where
/// there are not that many. Frame addresses are physical addresses, below
/// 2^52.
pub fn usable_frame(regions: &[MemoryRegion], n: usize) -> (r: Option<u64>)
    requires
        forall|k: int|
            0 <= k <= n && k < usable_frames(regions@).len() ==> #[trigger] usable_frames(
                regions@,
            )[k] < 0x10_0000_0000_0000,
    ensures
        n < usable_frames(regions@).len() ==> r == Some(usable_frames(regions@)[n as int] as u64),
        n >= usable_frames(regions@).len() ==> r is None,
{
    let len = regions.len();
    let mut i: usize = 0;
    let mut skipped: u64 = 0;
    assert(regions@.subrange(0, 0) =~= Seq::<MemoryRegion>::empty());
    while i < len
        invariant
            len == regions@.len(),
            i <= len,
            skipped == usable_frames(regions@.subrange(0, i as int)).len(),
            skipped <= n,
        decreases len - i,
    {
        let region = regions[i];
        let ghost pre = regions@.subrange(0, i as int);
        proof {
            assert(regions@.subrange(0, i + 1).drop_last() =~= pre);
            assert(regions@.subrange(0, i + 1).last() == region);
        }
        if region.usable && region.end > region.start {
            let diff = region.end - region.start;
            let count = diff / FRAME_SIZE + if diff % FRAME_SIZE == 0 {
                0
            } else {
                1
            };
            proof {
                vstd::arithmetic::div_mod::lemma_fundamental_div_mod(diff as int, 4096);
                vstd::arithmetic::div_mod::lemma_fundamental_div_mod(diff + 4095, 4096);
                assert(count == step_count(region.start as int, region.end as int));
            }
            if (n as u64) - skipped < count {
                let k = (n as u64) - skipped;
                proof {
                    assert(k * 4096 < diff) by (nonlinear_arith)
                        requires
                            k < count,
                            count == diff / 4096 + (if diff % 4096 == 0 {
                                0int
                            } else {
                                1int
                            }),
                            diff == 4096 * (diff / 4096) + diff % 4096,
                            0 <= diff % 4096 < 4096,
                    ;
                    lemma_frames_prefix(regions@, i as int);
                    let rest = regions@.subrange(i as int, len as int);
                    lemma_frames_cons(rest);
                    assert(rest[0] == region);
                    let all = usable_frames(regions@);
                    assert(all[n as int] == region_frames(region)[k as int]);
                }
                let addr = region.start + k * FRAME_SIZE;
                let frame = addr - addr % FRAME_SIZE;
                return Some(frame);
            }
            skipped = skipped + count;
        }
        i = i + 1;
    }
    assert(regions@.subrange(0, len as int) =~= regions@);
    None
}

} // verus!

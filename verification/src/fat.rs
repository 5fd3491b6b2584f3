//! FAT table traversal utilities.
use vstd::prelude::*;

use crate::blockdev::{BlockDevice, BlockError};
use crate::bpb::{le32, read_le32, BiosParameterBlock};

verus! {

/// Cluster values returned when following the FAT.
pub type ClusterValue = u32;

/// Minimum value considered end-of-chain for FAT32.
pub const EOC: u32 = 0x0FFF_FFF8;

/// The entry width of FAT32: the top four bits of an entry are reserved.
pub const ENTRY_MASK: u32 = 0x0FFF_FFFF;

/// The volume sector that holds the FAT entry of `cluster`.
pub open spec fn fat_entry_lba(bpb: BiosParameterBlock, lba_start: u64, cluster: u32) -> int {
    lba_start + bpb.reserved_sector_count + (cluster as int * 4) / (bpb.bytes_per_sector as int)
}

/// The byte offset, inside its sector, of the FAT entry of `cluster`.
pub open spec fn fat_entry_offset(bpb: BiosParameterBlock, cluster: u32) -> int {
    (cluster as int * 4) % (bpb.bytes_per_sector as int)
}

/// What a raw FAT entry means: the next cluster, or `None` at the end of a chain.
pub open spec fn fat_link(raw: u32) -> Option<u32> {
    let value = (raw as int % 0x1000_0000) as u32;
    if value >= EOC {
        None
    } else {
        Some(value)
    }
}

/// Whether looking up the FAT entry of `cluster` completes: the entry's
/// sector number fits, the sector size is not zero, and a sector that can
/// be read holds the whole entry.
pub open spec fn next_cluster_defined<D: BlockDevice>(
    device: D,
    bpb: BiosParameterBlock,
    lba_start: u64,
    cluster: u32,
) -> bool {
    &&& bpb.bytes_per_sector != 0
    &&& fat_entry_lba(bpb, lba_start, cluster) <= u64::MAX
    &&& device.sector(fat_entry_lba(bpb, lba_start, cluster) as u64) is Some ==> fat_entry_offset(
        bpb,
        cluster,
    ) + 4 <= device.spec_sector_size()
}

/// The successor of `cluster` in the FAT.
pub open spec fn next_cluster_of<D: BlockDevice>(
    device: D,
    bpb: BiosParameterBlock,
    lba_start: u64,
    cluster: u32,
) -> Result<Option<u32>, BlockError> {
    match device.sector(fat_entry_lba(bpb, lba_start, cluster) as u64) {
        Some(data) => Ok(fat_link(le32(data, fat_entry_offset(bpb, cluster)))),
        None => Err(BlockError::IoError),
    }
}

/// Access to the FAT table.
#[derive(Debug, Clone)]
pub struct FatTable<D: BlockDevice> {
    pub device: D,
    pub bpb: BiosParameterBlock,
    pub lba_start: u64,
}

impl<D: BlockDevice> FatTable<D> {
    /// Read the next cluster value from the FAT for `cluster`.
    pub fn next_cluster(&self, cluster: u32) -> (r: Result<Option<u32>, BlockError>)
        requires
            next_cluster_defined(self.device, self.bpb, self.lba_start, cluster),
        ensures
            r == next_cluster_of(self.device, self.bpb, self.lba_start, cluster),
    {
        let fat_offset = cluster as u64 * 4;
        let bps = self.bpb.bytes_per_sector as u64;
        let sector = self.bpb.reserved_sector_count as u64 + fat_offset / bps;
        let offset = (fat_offset % bps) as usize;
        let mut buf = vec![0u8; self.device.sector_size()];
        let lba = self.lba_start + sector;
        match self.device.read_sector(lba, buf.as_mut_slice()) {
            Ok(()) => {},
            Err(e) => return Err(e),
        }
        let raw = read_le32(buf.as_slice(), offset);
        let value = raw & ENTRY_MASK;
        assert(raw & 0x0FFF_FFFFu32 == (raw as int % 0x1000_0000) as u32) by (bit_vector);
        if value >= EOC {
            Ok(None)
        } else {
            Ok(Some(value))
        }
    }
}

} // verus!

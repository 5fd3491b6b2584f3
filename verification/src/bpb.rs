//! BIOS Parameter Block parsing utilities.
use vstd::prelude::*;

use crate::blockdev::BlockError;

verus! {

/// The little-endian 16-bit value of the two bytes at `at`.
pub open spec fn le16(s: Seq<u8>, at: int) -> u16 {
    (s[at] as int + 0x100 * s[at + 1] as int) as u16
}

/// The little-endian 32-bit value of the four bytes at `at`.
pub open spec fn le32(s: Seq<u8>, at: int) -> u32 {
    (s[at] as int + 0x100 * s[at + 1] as int + 0x1_0000 * s[at + 2] as int + 0x100_0000
        * s[at + 3] as int) as u32
}

/// Reads the little-endian 16-bit value at `at`.
pub fn read_le16(s: &[u8], at: usize) -> (r: u16)
    requires
        at + 2 <= s@.len(),
    ensures
        r == le16(s@, at as int),
{
    s[at] as u16 + 0x100 * s[at + 1] as u16
}

/// Reads the little-endian 32-bit value at `at`.
pub fn read_le32(s: &[u8], at: usize) -> (r: u32)
    requires
        at + 4 <= s@.len(),
    ensures
        r == le32(s@, at as int),
{
    s[at] as u32 + 0x100 * s[at + 1] as u32 + 0x1_0000 * s[at + 2] as u32 + 0x100_0000
        * s[at + 3] as u32
}

/// Minimal fields required from a FAT32 BIOS Parameter Block.
#[derive(Debug, Clone, Copy, PartialEq, Eq, Structural)]
pub struct BiosParameterBlock {
    pub bytes_per_sector: u16,
    pub sectors_per_cluster: u8,
    pub reserved_sector_count: u16,
    pub num_fats: u8,
    pub sectors_per_fat: u32,
    pub root_cluster: u32,
}

/// The parameter block that a boot sector of at least 512 bytes holds.
pub open spec fn bpb_of(sector: Seq<u8>) -> BiosParameterBlock {
    BiosParameterBlock {
        bytes_per_sector: le16(sector, 11),
        sectors_per_cluster: sector[13],
        reserved_sector_count: le16(sector, 14),
        num_fats: sector[16],
        sectors_per_fat: le32(sector, 36),
        root_cluster: le32(sector, 44),
    }
}

impl BiosParameterBlock {
    /// Number of bytes per cluster.
    pub open spec fn spec_cluster_size(self) -> nat {
        self.bytes_per_sector as nat * self.sectors_per_cluster as nat
    }

    /// First data sector relative to the start of the volume.
    pub open spec fn spec_first_data_sector(self) -> nat {
        self.reserved_sector_count as nat + self.num_fats as nat * self.sectors_per_fat as nat
    }

    /// The first sector of `cluster`, relative to the start of the volume.
    pub open spec fn spec_cluster_to_lba(self, cluster: u32) -> int {
        self.spec_first_data_sector() + (cluster - 2) * self.sectors_per_cluster as int
    }

    /// Parse the BPB from a boot sector.
    pub fn parse(sector: &[u8]) -> (r: Result<Self, BlockError>)
        ensures
            sector@.len() < 512 ==> r == Err::<Self, BlockError>(BlockError::BadBuffer),
            sector@.len() >= 512 ==> r == Ok::<Self, BlockError>(bpb_of(sector@)),
    {
        if sector.len() < 512 {
            return Err(BlockError::BadBuffer);
        }
        let bytes_per_sector = read_le16(sector, 11);
        let sectors_per_cluster = sector[13];
        let reserved_sector_count = read_le16(sector, 14);
        let num_fats = sector[16];
        let sectors_per_fat = read_le32(sector, 36);
        let root_cluster = read_le32(sector, 44);
        Ok(Self {
            bytes_per_sector,
            sectors_per_cluster,
            reserved_sector_count,
            num_fats,
            sectors_per_fat,
            root_cluster,
        })
    }

    /// Number of bytes per cluster.
    pub fn cluster_size(&self) -> (r: usize)
        ensures
            r == self.spec_cluster_size(),
    {
        proof {
            lemma_mul_bound(self.bytes_per_sector as nat, 0xffff, self.sectors_per_cluster as nat, 0xff);
        }
        self.bytes_per_sector as usize * self.sectors_per_cluster as usize
    }

    /// First data sector relative to the start of the volume (LBA based).
    pub fn first_data_sector(&self) -> (r: u64)
        ensures
            r == self.spec_first_data_sector(),
    {
        proof {
            lemma_mul_bound(self.num_fats as nat, 0xff, self.sectors_per_fat as nat, 0xffff_ffff);
        }
        (self.reserved_sector_count as u64) + (self.num_fats as u64 * self.sectors_per_fat as u64)
    }

    /// Convert a cluster index to the LBA of its first sector.
    /// Cluster numbering starts at 2.
    pub fn cluster_to_lba(&self, cluster: u32) -> (r: u64)
        requires
            cluster >= 2,
        ensures
            r == self.spec_cluster_to_lba(cluster),
    {
        proof {
            lemma_mul_bound(self.num_fats as nat, 0xff, self.sectors_per_fat as nat, 0xffff_ffff);
            lemma_mul_bound((cluster - 2) as nat, 0xffff_ffff, self.sectors_per_cluster as nat, 0xff);
        }
        self.first_data_sector() + (cluster as u64 - 2) * self.sectors_per_cluster as u64
    }
}

/// A product of two bounded naturals is bounded by the product of the bounds.
pub proof fn lemma_mul_bound(a: nat, amax: nat, b: nat, bmax: nat)
    requires
        a <= amax,
        b <= bmax,
    ensures
        a * b <= amax * bmax,
{
    assert(a * b <= amax * bmax) by (nonlinear_arith)
        requires
            a <= amax,
            b <= bmax,
    ;
}

} // verus!

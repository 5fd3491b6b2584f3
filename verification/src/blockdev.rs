//! Block devices: sector-addressed storage.
use vstd::prelude::*;

verus! {

/// Errors returned by block devices.
#[derive(Debug, Clone, Copy, PartialEq, Eq, Structural)]
pub enum BlockError {
    /// Provided buffer has an unexpected size.
    BadBuffer,
    /// Underlying device I/O failed.
    IoError,
}

/// Sector-addressable storage.
///
/// A device is modelled by its sector size and by what each sector holds:
/// `sector(lba)` is the content of sector `lba`, or `None` where the device
/// cannot read it.
pub trait BlockDevice {
    /// The sector size that `sector_size` returns.
    spec fn spec_sector_size(&self) -> usize;

    /// The content of sector `lba`, or `None` where reading it fails.
    spec fn sector(&self, lba: u64) -> Option<Seq<u8>>;

    /// A sector that can be read holds exactly one sector's bytes.
    proof fn lemma_sector_len(&self, lba: u64)
        ensures
            self.sector(lba) matches Some(d) ==> d.len() == self.spec_sector_size(),
    ;

    /// Returns the sector size in bytes.
    fn sector_size(&self) -> (r: usize)
        ensures
            r == self.spec_sector_size(),
    ;

    /// Read the sector at `lba` into `buf`, which must hold exactly one sector.
    fn read_sector(&self, lba: u64, buf: &mut [u8]) -> (r: Result<(), BlockError>)
        ensures
            final(buf)@.len() == old(buf)@.len(),
            r is Err ==> final(buf)@ == old(buf)@,
            old(buf)@.len() != self.spec_sector_size() ==> r == Err::<(), BlockError>(
                BlockError::BadBuffer,
            ),
            old(buf)@.len() == self.spec_sector_size() ==> match self.sector(lba) {
                Some(d) => r is Ok && final(buf)@ == d,
                None => r == Err::<(), BlockError>(BlockError::IoError),
            },
    ;
}

/// In-memory device useful for testing.
#[derive(Debug)]
pub struct MemDevice {
    sector_size: usize,
    data: Vec<u8>,
}

impl MemDevice {
    #[verifier::type_invariant]
    spec fn inv(self) -> bool {
        self.sector_size > 0
    }

    /// The bytes the device holds.
    pub closed spec fn bytes(self) -> Seq<u8> {
        self.data@
    }

    /// The sector size the device was made with.
    pub closed spec fn block_size(self) -> usize {
        self.sector_size
    }

    /// Create a new memory-backed device with the given sector size.
    /// The `data` length must be a multiple of `sector_size`.
    pub fn new(sector_size: usize, data: Vec<u8>) -> (r: Result<Self, BlockError>)
        requires
            sector_size > 0,
        ensures
            data@.len() % (sector_size as nat) != 0 ==> r == Err::<Self, BlockError>(
                BlockError::BadBuffer,
            ),
            data@.len() % (sector_size as nat) == 0 ==> (r matches Ok(d) && d.bytes() == data@
                && d.block_size() == sector_size),
    {
        if data.len() % sector_size != 0 {
            return Err(BlockError::BadBuffer);
        }
        Ok(Self { sector_size, data })
    }

    /// Number of sectors stored in the device.
    pub fn sector_count(&self) -> (r: u64)
        ensures
            r == self.bytes().len() / (self.block_size() as nat),
    {
        proof {
            use_type_invariant(self);
        }
        (self.data.len() / self.sector_size) as u64
    }
}

impl Clone for MemDevice {
    fn clone(&self) -> (r: Self)
        ensures
            r.bytes() == self.bytes(),
            r.block_size() == self.block_size(),
    {
        proof {
            use_type_invariant(self);
        }
        let data = self.data.clone();
        assert(data@ =~= self.data@);
        MemDevice { sector_size: self.sector_size, data }
    }
}

impl BlockDevice for MemDevice {
    open spec fn spec_sector_size(&self) -> usize {
        self.block_size()
    }

    open spec fn sector(&self, lba: u64) -> Option<Seq<u8>> {
        let start = lba * self.block_size();
        if start + self.block_size() <= self.bytes().len() {
            Some(self.bytes().subrange(start, start + self.block_size()))
        } else {
            None
        }
    }

    proof fn lemma_sector_len(&self, lba: u64) {
    }

    fn sector_size(&self) -> (r: usize) {
        self.sector_size
    }

    fn read_sector(&self, lba: u64, buf: &mut [u8]) -> (r: Result<(), BlockError>) {
        if buf.len() != self.sector_size {
            return Err(BlockError::BadBuffer);
        }
        let len = self.data.len();
        let ss = self.sector_size as u64;
        let start64 = match lba.checked_mul(ss) {
            Some(s) => s,
            None => {
                proof {
                    assert(self.data@.len() == len);
                }
                return Err(BlockError::IoError);
            },
        };
        let end64 = match start64.checked_add(ss) {
            Some(e) => e,
            None => {
                proof {
                    assert(self.data@.len() == len);
                }
                return Err(BlockError::IoError);
            },
        };
        if end64 > len as u64 {
            return Err(BlockError::IoError);
        }
        let start = start64 as usize;
        let end = end64 as usize;
        let ghost want = self.data@.subrange(start as int, end as int);
        let mut i: usize = 0;
        while i < self.sector_size
            invariant
                i <= self.sector_size,
                end == start + self.sector_size,
                end <= self.data@.len(),
                buf@.len() == self.sector_size,
                want == self.data@.subrange(start as int, end as int),
                forall|j: int| 0 <= j < i ==> buf@[j] == want[j],
            decreases self.sector_size - i,
        {
            buf[i] = self.data[start + i];
            i = i + 1;
        }
        assert(buf@ =~= want);
        Ok(())
    }
}

} // verus!

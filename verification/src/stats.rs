//! Filesystem space accounting.
//!
//! A space query is one call into the host's statvfs-style facility;
//! what this layer owns is the arithmetic that turns block counts into
//! byte counts, which must not overflow.

use vstd::prelude::*;

verus! {

/// Filesystem space figures, in bytes.
#[derive(Clone, Copy, PartialEq, Eq, Structural, Debug)]
pub struct FsStats {
    free_space: u64,
    available_space: u64,
    total_space: u64,
    allocation_granularity: u64,
}

impl FsStats {
    /// Free bytes in the filesystem.
    pub closed spec fn spec_free_space(&self) -> u64 {
        self.free_space
    }

    /// Free bytes available to a non-privileged caller.
    pub closed spec fn spec_available_space(&self) -> u64 {
        self.available_space
    }

    /// Total bytes in the filesystem.
    pub closed spec fn spec_total_space(&self) -> u64 {
        self.total_space
    }

    /// The filesystem's allocation unit, in bytes.
    pub closed spec fn spec_allocation_granularity(&self) -> u64 {
        self.allocation_granularity
    }

    /// Free bytes in the filesystem.
    pub fn free_space(&self) -> (r: u64)
        ensures
            r == self.spec_free_space(),
    {
        self.free_space
    }

    /// Free bytes available to a non-privileged caller.
    pub fn available_space(&self) -> (r: u64)
        ensures
            r == self.spec_available_space(),
    {
        self.available_space
    }

    /// Total bytes in the filesystem.
    pub fn total_space(&self) -> (r: u64)
        ensures
            r == self.spec_total_space(),
    {
        self.total_space
    }

    /// The filesystem's allocation unit, in bytes.
    pub fn allocation_granularity(&self) -> (r: u64)
        ensures
            r == self.spec_allocation_granularity(),
    {
        self.allocation_granularity
    }

    /// Builds the figures from statvfs-style fields: the block size
    /// times each block count.  `None` when a product does not fit in
    /// the byte range.
    pub fn from_statvfs(bsize: u64, bfree: u64, bavail: u64, blocks: u64) -> (r: Option<FsStats>)
        ensures
            r is Some <==> bsize * bfree <= u64::MAX && bsize * bavail <= u64::MAX && bsize
                * blocks <= u64::MAX,
            r matches Some(s) ==> s.spec_free_space() == bsize * bfree
                && s.spec_available_space() == bsize * bavail && s.spec_total_space() == bsize
                * blocks && s.spec_allocation_granularity() == bsize,
    {
        let free_space = bsize.checked_mul(bfree)?;
        let available_space = bsize.checked_mul(bavail)?;
        let total_space = bsize.checked_mul(blocks)?;
        Some(FsStats { free_space, available_space, total_space, allocation_granularity: bsize })
    }
}

/// The bytes a file's blocks occupy: the block count times the 512-byte
/// block unit.  `None` when that does not fit in the byte range.
pub fn allocated_size_from_blocks(blocks: u64) -> (r: Option<u64>)
    ensures
        r == (if blocks * 512 <= u64::MAX {
            Some((blocks * 512) as u64)
        } else {
            None::<u64>
        }),
{
    blocks.checked_mul(512)
}

/// Whether growing a file to `len` bytes needs its length set: only
/// when `len` exceeds the length it has.
pub fn allocation_needed(len: u64, current: u64) -> (b: bool)
    ensures
        b == (len > current),
{
    len > current
}

} // verus!

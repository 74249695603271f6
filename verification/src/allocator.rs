//! Allocation of inodes and data blocks through the two bitmap blocks of
//! the image.

use vstd::prelude::*;
use crate::bitmap::{BITS_PER_BLOCK, find_free, first_free, put_bit, with_bit};
use crate::device::{BlockDevice, Disk, disk_wf};
use crate::error::FsError;
use crate::layout::{
    BLOCK_SIZE, DATA_AREA_START, DATA_BITMAP_BLOCK, INODE_BITMAP_BLOCK, INODE_COUNT, ROOT_INO,
    TOTAL_BLOCKS,
};

verus! {

/// The image with bit `k` of bitmap block `bitmap` set to `v`.
pub open spec fn set_bitmap(d: Disk, bitmap: u32, k: u32, v: bool) -> Disk {
    d.update(bitmap as int, with_bit(d[bitmap as int], k as int, v))
}

/// The inode that the next allocation takes: the lowest free one. None is
/// left when the lowest free bit lies beyond the table; the image is
/// damaged when the reserved inode or the root is marked free.
pub open spec fn next_inode(d: Disk) -> Result<u32, FsError> {
    match first_free(d[INODE_BITMAP_BLOCK as int]) {
        None => Err(FsError::ResourceExhausted),
        Some(k) => if k >= INODE_COUNT {
            Err(FsError::ResourceExhausted)
        } else if k <= ROOT_INO {
            Err(FsError::Corrupted)
        } else {
            Ok(k as u32)
        },
    }
}

/// The data block that the next allocation takes: the lowest free one.
/// None is left when the lowest free bit lies beyond the image; the image
/// is damaged when a block before the data area is marked free.
pub open spec fn next_block(d: Disk) -> Result<u32, FsError> {
    match first_free(d[DATA_BITMAP_BLOCK as int]) {
        None => Err(FsError::ResourceExhausted),
        Some(k) => if k >= TOTAL_BLOCKS {
            Err(FsError::ResourceExhausted)
        } else if k < DATA_AREA_START {
            Err(FsError::Corrupted)
        } else {
            Ok(k as u32)
        },
    }
}

/// Sets one bit of a bitmap block and writes the block back.
pub fn set_bit(dev: &mut BlockDevice, bitmap_block_idx: u32, bit_idx: u32, val: bool)
    requires
        bitmap_block_idx < TOTAL_BLOCKS,
        bit_idx < BITS_PER_BLOCK,
    ensures
        final(dev)@ == set_bitmap(old(dev)@, bitmap_block_idx, bit_idx, val),
        disk_wf(final(dev)@),
{
    let mut buf = [0u8; BLOCK_SIZE];
    dev.read_block(bitmap_block_idx, &mut buf);
    put_bit(&mut buf, bit_idx, val);
    dev.write_block(bitmap_block_idx, &buf);
}

/// Takes the lowest clear bit of a bitmap block: sets it, writes the block
/// back and returns the bit's index. Returns `None`, and writes nothing,
/// where every bit is set.
pub fn allocate_bit(dev: &mut BlockDevice, bitmap_block_idx: u32) -> (taken: Option<u32>)
    requires
        bitmap_block_idx < TOTAL_BLOCKS,
    ensures
        match taken {
            Some(k) => first_free(old(dev)@[bitmap_block_idx as int]) == Some(k as int)
                && final(dev)@ == set_bitmap(old(dev)@, bitmap_block_idx, k, true),
            None => first_free(old(dev)@[bitmap_block_idx as int]) is None && final(dev)@ == old(
                dev,
            )@,
        },
{
    let mut buf = [0u8; BLOCK_SIZE];
    dev.read_block(bitmap_block_idx, &mut buf);
    match find_free(&buf) {
        None => None,
        Some(k) => {
            put_bit(&mut buf, k, true);
            dev.write_block(bitmap_block_idx, &buf);
            Some(k)
        },
    }
}

/// Finds the inode that the next allocation takes, and takes nothing.
pub fn next_free_inode(dev: &BlockDevice) -> (next: Result<u32, FsError>)
    ensures
        next == next_inode(dev@),
{
    let mut buf = [0u8; BLOCK_SIZE];
    dev.read_block(INODE_BITMAP_BLOCK, &mut buf);
    match find_free(&buf) {
        None => Err(FsError::ResourceExhausted),
        Some(k) => if k >= INODE_COUNT {
            Err(FsError::ResourceExhausted)
        } else if k <= ROOT_INO {
            Err(FsError::Corrupted)
        } else {
            Ok(k)
        },
    }
}

/// Finds the data block that the next allocation takes, and takes nothing.
pub fn next_free_block(dev: &BlockDevice) -> (next: Result<u32, FsError>)
    ensures
        next == next_block(dev@),
{
    let mut buf = [0u8; BLOCK_SIZE];
    dev.read_block(DATA_BITMAP_BLOCK, &mut buf);
    match find_free(&buf) {
        None => Err(FsError::ResourceExhausted),
        Some(k) => if k >= TOTAL_BLOCKS {
            Err(FsError::ResourceExhausted)
        } else if k < DATA_AREA_START {
            Err(FsError::Corrupted)
        } else {
            Ok(k)
        },
    }
}

/// Takes the lowest free inode.
pub fn alloc_inode(dev: &mut BlockDevice) -> (taken: Result<u32, FsError>)
    ensures
        taken == next_inode(old(dev)@),
        match taken {
            Ok(ino) => final(dev)@ == set_bitmap(old(dev)@, INODE_BITMAP_BLOCK, ino, true),
            Err(_) => final(dev)@ == old(dev)@,
        },
{
    match next_free_inode(dev) {
        Err(e) => Err(e),
        Ok(ino) => {
            set_bit(dev, INODE_BITMAP_BLOCK, ino, true);
            Ok(ino)
        },
    }
}

/// Takes the lowest free data block.
pub fn alloc_data_block(dev: &mut BlockDevice) -> (taken: Result<u32, FsError>)
    ensures
        taken == next_block(old(dev)@),
        match taken {
            Ok(b) => final(dev)@ == set_bitmap(old(dev)@, DATA_BITMAP_BLOCK, b, true),
            Err(_) => final(dev)@ == old(dev)@,
        },
{
    match next_free_block(dev) {
        Err(e) => Err(e),
        Ok(b) => {
            set_bit(dev, DATA_BITMAP_BLOCK, b, true);
            Ok(b)
        },
    }
}

/// Marks inode `ino` free. Its record stays as it is.
pub fn free_inode(dev: &mut BlockDevice, ino: u32)
    requires
        ino < BITS_PER_BLOCK,
    ensures
        final(dev)@ == set_bitmap(old(dev)@, INODE_BITMAP_BLOCK, ino, false),
        disk_wf(final(dev)@),
{
    set_bit(dev, INODE_BITMAP_BLOCK, ino, false);
}

/// Marks data block `block_idx` free.
pub fn free_data_block(dev: &mut BlockDevice, block_idx: u32)
    requires
        block_idx < BITS_PER_BLOCK,
    ensures
        final(dev)@ == set_bitmap(old(dev)@, DATA_BITMAP_BLOCK, block_idx, false),
        disk_wf(final(dev)@),
{
    set_bit(dev, DATA_BITMAP_BLOCK, block_idx, false);
}

} // verus!

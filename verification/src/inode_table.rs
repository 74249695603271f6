//! The inode table: fixed-size records packed into the blocks that follow
//! the bitmaps. This module finds a record and reads or replaces it; it
//! never allocates.

use vstd::prelude::*;
use vstd::slice::*;
use crate::device::{BlockDevice, Disk, disk_wf};
use crate::error::FsError;
use crate::layout::{
    Block, BLOCK_SIZE, DATA_AREA_START, decode_inode, encode_inode, Inode, INODE_COUNT, INODE_SIZE,
    INODE_TABLE_START, InodeType, InodeView, put_bytes, splice, TOTAL_BLOCKS,
};

verus! {

/// Inode numbers that name a record of the table. Inode 0 is reserved.
pub open spec fn valid_ino(ino: u32) -> bool {
    1 <= ino < INODE_COUNT
}

/// Block that holds the record of inode `ino`.
pub open spec fn inode_block(ino: u32) -> int {
    INODE_TABLE_START + (ino * INODE_SIZE) / (BLOCK_SIZE as int)
}

/// Offset of the record of inode `ino` inside its block.
pub open spec fn inode_offset(ino: u32) -> int {
    (ino * INODE_SIZE) % (BLOCK_SIZE as int)
}

/// The record bytes of inode `ino`.
pub open spec fn inode_bytes(d: Disk, ino: u32) -> Seq<u8> {
    d[inode_block(ino)].subrange(inode_offset(ino), inode_offset(ino) + INODE_SIZE)
}

/// The record of inode `ino`.
pub open spec fn inode_at(d: Disk, ino: u32) -> InodeView {
    decode_inode(inode_bytes(d, ino))
}

/// The image with the record of inode `ino` replaced by `v`.
pub open spec fn with_inode(d: Disk, ino: u32, v: InodeView) -> Disk {
    d.update(inode_block(ino), splice(d[inode_block(ino)], inode_offset(ino), encode_inode(v)))
}

/// Block numbers that a record may point to: those of the data area.
pub open spec fn valid_ptr(p: u32) -> bool {
    DATA_AREA_START <= p < TOTAL_BLOCKS
}

/// The record of inode `ino`, where `ino` names one.
pub open spec fn inode_of(d: Disk, ino: u32) -> Result<InodeView, FsError> {
    if valid_ino(ino) {
        Ok(inode_at(d, ino))
    } else {
        Err(FsError::Corrupted)
    }
}

/// The mode of inode `ino`; a number that names no record reads as `Unused`.
pub open spec fn mode_of(d: Disk, ino: u32) -> InodeType {
    if valid_ino(ino) {
        inode_at(d, ino).mode
    } else {
        InodeType::Unused
    }
}

/// Checks that `p` points into the data area.
pub fn is_valid_ptr(p: u32) -> (ok: bool)
    ensures
        ok == valid_ptr(p),
{
    DATA_AREA_START <= p && p < TOTAL_BLOCKS
}

/// Checks that `ino` names a record of the table.
pub fn is_valid_ino(ino: u32) -> (ok: bool)
    ensures
        ok == valid_ino(ino),
{
    1 <= ino && ino < INODE_COUNT
}

/// Computes the block and the offset of the record of inode `ino`.
pub fn inode_location(ino: u32) -> (loc: (u32, usize))
    requires
        valid_ino(ino),
    ensures
        loc.0 == inode_block(ino),
        loc.1 == inode_offset(ino),
        INODE_TABLE_START <= loc.0 < DATA_AREA_START,
        loc.1 + INODE_SIZE <= BLOCK_SIZE,
{
    let start: u32 = ino * INODE_SIZE as u32;
    assert(start == ino * 128 && start < 128 * 128);
    let block_idx: u32 = INODE_TABLE_START + start / BLOCK_SIZE as u32;
    let offset: usize = (start % BLOCK_SIZE as u32) as usize;
    (block_idx, offset)
}

/// Reads the record of inode `ino`.
pub fn read_inode(dev: &BlockDevice, ino: u32) -> (inode: Inode)
    requires
        valid_ino(ino),
    ensures
        inode@ == inode_at(dev@, ino),
{
    let (block_idx, offset) = inode_location(ino);
    let mut buf = [0u8; BLOCK_SIZE];
    dev.read_block(block_idx, &mut buf);
    Inode::deserialize(slice_subrange(buf.as_slice(), offset, offset + INODE_SIZE))
}

/// Replaces the record of inode `ino`. The other records of its block stay
/// as they are.
pub fn write_inode_to_disk(dev: &mut BlockDevice, ino: u32, inode: &Inode)
    requires
        valid_ino(ino),
    ensures
        final(dev)@ == with_inode(old(dev)@, ino, inode@),
        disk_wf(final(dev)@),
{
    let (block_idx, offset) = inode_location(ino);
    let mut buf = [0u8; BLOCK_SIZE];
    dev.read_block(block_idx, &mut buf);
    let record = inode.serialize();
    put_bytes(&mut buf, offset, &record);
    dev.write_block(block_idx, &buf);
}

/// A record that was written is the record that is read; the records of all
/// other inodes, and all blocks but the one written, stay as they were.
pub proof fn lemma_with_inode(d: Disk, ino: u32, v: InodeView, other: u32)
    requires
        disk_wf(d),
        valid_ino(ino),
        valid_ino(other),
        v.blocks.len() == 12,
    ensures
        disk_wf(with_inode(d, ino, v)),
        inode_at(with_inode(d, ino, v), ino) == v,
        other != ino ==> inode_bytes(with_inode(d, ino, v), other) == inode_bytes(d, other),
        forall|b: int|
            0 <= b < TOTAL_BLOCKS && b != inode_block(ino) ==> #[trigger] with_inode(d, ino, v)[b]
                == d[b],
{
    let d2 = with_inode(d, ino, v);
    assert(inode_bytes(d2, ino) =~= encode_inode(v));
    crate::layout::law_inode_round_trip(v);
}

} // verus!

//! What the filesystem's operations mean, as functions on disk images.
//!
//! Every operation decides from the image as it finds it whether it can
//! be carried out, and only then writes: an operation that fails leaves
//! the image as it was (copying, which creates the target before it fills
//! it, is the one exception).

use vstd::prelude::*;
use vstd::utf8::*;
use crate::allocator::{next_block, next_inode, set_bitmap};
use crate::device::Disk;
use crate::directory::{
    dir_block, entries, ENTRIES_PER_BLOCK, find_slot, free_slot, insert, live_count, remove,
    slot_bytes, slot_ino, slot_name, with_entry,
};
use crate::error::FsError;
use crate::inode_table::{inode_of, valid_ptr, with_inode};
use crate::layout::{
    BLOCK_SIZE, DATA_AREA_START, DATA_BITMAP_BLOCK, DIR_ENTRY_SIZE, DIRECT_POINTERS, encode_inode,
    encode_superblock, INODE_BITMAP_BLOCK, INODE_COUNT, INODE_SIZE, INODE_TABLE_START, InodeType,
    InodeView, le32_bytes, lemma_entry_name_same, lemma_le32_at, MAGIC, ROOT_INO, splice,
    Superblock, SUPERBLOCK_BLOCK, TOTAL_BLOCKS,
};
use crate::path::{dot, dotdot, root_path, split_parent, split_parent_or_root};
use crate::resolve::resolve;
use crate::text::text_of;

verus! {

/// What listing a path shows.
pub enum ListingView {
    /// The path names something other than a directory: its last name.
    File(Seq<u8>),
    /// The path names a directory: its live entries.
    Directory(Seq<(Seq<u8>, InodeType)>),
}

/// What listing a path shows.
pub open spec fn list_spec(d: Disk, path: Seq<u8>) -> Result<ListingView, FsError> {
    match resolve(d, path) {
        Err(e) => Err(e),
        Ok(ino) => match inode_of(d, ino) {
            Err(e) => Err(e),
            Ok(inode) => if inode.mode != InodeType::Directory {
                Ok(ListingView::File(split_parent_or_root(path).1))
            } else if !valid_ptr(inode.blocks[0]) {
                Err(FsError::Corrupted)
            } else {
                Ok(
                    ListingView::Directory(
                        entries(d, d[inode.blocks[0] as int], ENTRIES_PER_BLOCK as int),
                    ),
                )
            },
        },
    }
}

/// The directory that a change of directory to `path` enters.
pub open spec fn cd_spec(d: Disk, path: Seq<u8>) -> Result<u32, FsError> {
    match resolve(d, path) {
        Err(e) => Err(e),
        Ok(ino) => match inode_of(d, ino) {
            Err(e) => Err(e),
            Ok(inode) => if inode.mode == InodeType::Directory {
                Ok(ino)
            } else {
                Err(FsError::NotADirectory)
            },
        },
    }
}

/// A block of zeros.
pub open spec fn zero_block() -> Seq<u8> {
    Seq::new(BLOCK_SIZE as nat, |i: int| 0u8)
}

/// The block of a directory that was just made: `.` for the directory
/// itself, `..` for its parent, and free slots.
pub open spec fn fresh_dir_block(me: u32, parent: u32) -> Seq<u8> {
    with_entry(with_entry(zero_block(), 0, me, dot()), 1, parent, dotdot())
}

/// Twelve pointers of which only the first is set.
pub open spec fn single_pointer(b: u32) -> Seq<u32> {
    Seq::new(
        DIRECT_POINTERS as nat,
        |i: int|
            if i == 0 {
                b
            } else {
                0u32
            },
    )
}

/// The record of a directory whose entries are in block `b`.
pub open spec fn dir_inode(b: u32) -> InodeView {
    InodeView { mode: InodeType::Directory, size: BLOCK_SIZE as u32, blocks: single_pointer(b) }
}

/// The record of a file that was never written.
pub open spec fn empty_file() -> InodeView {
    InodeView { mode: InodeType::File, size: 0, blocks: single_pointer(0) }
}

/// The superblock of a formatted image.
pub open spec fn fresh_superblock() -> Superblock {
    Superblock {
        magic: MAGIC,
        total_blocks: TOTAL_BLOCKS,
        inode_count: INODE_COUNT,
        data_area_start: DATA_AREA_START,
    }
}

/// A bitmap block whose first two bytes are `b0` and `b1`, the rest zero.
pub open spec fn bitmap_block(b0: u8, b1: u8) -> Seq<u8> {
    Seq::new(
        BLOCK_SIZE as nat,
        |i: int|
            if i == 0 {
                b0
            } else if i == 1 {
                b1
            } else {
                0u8
            },
    )
}

/// The image after formatting: the superblock; the data bitmap with the
/// blocks before the data area and the root's block taken; the inode bitmap
/// with the reserved inode and the root taken; the first block of the inode
/// table, zeroed but for the root's record; and the root's block. All other
/// blocks stay as they are.
pub open spec fn format_spec(d: Disk) -> Disk {
    d.update(SUPERBLOCK_BLOCK as int, encode_superblock(fresh_superblock())).update(
        DATA_BITMAP_BLOCK as int,
        bitmap_block(0xFF, 0x07),
    ).update(INODE_BITMAP_BLOCK as int, bitmap_block(0x03, 0)).update(
        INODE_TABLE_START as int,
        splice(zero_block(), INODE_SIZE as int, encode_inode(dir_inode(DATA_AREA_START))),
    ).update(DATA_AREA_START as int, fresh_dir_block(ROOT_INO, ROOT_INO))
}

/// The image after a directory was made at `path`.
pub open spec fn mkdir_spec(d: Disk, path: Seq<u8>) -> Result<Disk, FsError> {
    match split_parent(path) {
        None => Err(FsError::InvalidPath),
        Some((parent_path, name)) => match resolve(d, parent_path) {
            Err(e) => Err(e),
            Ok(parent) => match dir_block(d, parent) {
                Err(e) => Err(e),
                Ok(pb) => if find_slot(d[pb as int], name) is Some {
                    Err(FsError::AlreadyExists)
                } else {
                    match next_inode(d) {
                        Err(e) => Err(e),
                        Ok(ino) => match next_block(d) {
                            Err(e) => Err(e),
                            Ok(b) => match free_slot(d[pb as int]) {
                                None => Err(FsError::DirectoryFull),
                                Some(slot) => Ok(make_dir(d, parent, pb, slot, name, ino, b)),
                            },
                        },
                    }
                },
            },
        },
    }
}

/// The writes that make a directory: both bitmaps, the new record, the new
/// directory's block, then the entry in the parent's block `pb`.
pub open spec fn make_dir(
    d: Disk,
    parent: u32,
    pb: u32,
    slot: int,
    name: Seq<u8>,
    ino: u32,
    b: u32,
) -> Disk {
    let d1 = set_bitmap(d, INODE_BITMAP_BLOCK, ino, true);
    let d2 = set_bitmap(d1, DATA_BITMAP_BLOCK, b, true);
    let d3 = with_inode(d2, ino, dir_inode(b));
    let d4 = d3.update(b as int, fresh_dir_block(ino, parent));
    d4.update(pb as int, with_entry(d4[pb as int], slot, ino, name))
}

/// The image after an empty file was made at `path`.
pub open spec fn touch_spec(d: Disk, path: Seq<u8>) -> Result<Disk, FsError> {
    match split_parent(path) {
        None => Err(FsError::InvalidPath),
        Some((parent_path, name)) => match resolve(d, parent_path) {
            Err(e) => Err(e),
            Ok(parent) => match dir_block(d, parent) {
                Err(e) => Err(e),
                Ok(pb) => match next_inode(d) {
                    Err(e) => Err(e),
                    Ok(ino) => match free_slot(d[pb as int]) {
                        None => Err(FsError::DirectoryFull),
                        Some(slot) => Ok(make_file(d, pb, slot, name, ino)),
                    },
                },
            },
        },
    }
}

/// The writes that make a file: the inode bitmap, the new record, then the
/// entry in the parent's block `pb`.
pub open spec fn make_file(d: Disk, pb: u32, slot: int, name: Seq<u8>, ino: u32) -> Disk {
    let d1 = set_bitmap(d, INODE_BITMAP_BLOCK, ino, true);
    let d2 = with_inode(d1, ino, empty_file());
    d2.update(pb as int, with_entry(d2[pb as int], slot, ino, name))
}

/// Number of bytes of `content` that a file holds: at most one block.
pub open spec fn written_len(content: Seq<u8>) -> int {
    if content.len() <= BLOCK_SIZE {
        content.len() as int
    } else {
        BLOCK_SIZE as int
    }
}

/// The data block of a file with content `content`: the bytes that fit,
/// then zeros.
pub open spec fn file_data(content: Seq<u8>) -> Seq<u8> {
    Seq::new(
        BLOCK_SIZE as nat,
        |i: int|
            if i < written_len(content) {
                content[i]
            } else {
                0u8
            },
    )
}

/// The writes that store `content` in block `b` as the content of file
/// `ino`, whose record was `inode`.
pub open spec fn store_file(d: Disk, ino: u32, inode: InodeView, b: u32, content: Seq<u8>) -> Disk {
    with_inode(
        d.update(b as int, file_data(content)),
        ino,
        InodeView {
            mode: InodeType::File,
            size: written_len(content) as u32,
            blocks: inode.blocks.update(0, b),
        },
    )
}

/// The image after `content` was written to the file at `path`. A file that
/// has no data block yet gets the lowest free one.
pub open spec fn write_spec(d: Disk, path: Seq<u8>, content: Seq<u8>) -> Result<Disk, FsError> {
    match resolve(d, path) {
        Err(e) => Err(e),
        Ok(ino) => match inode_of(d, ino) {
            Err(e) => Err(e),
            Ok(inode) => if inode.mode != InodeType::File {
                Err(FsError::NotAFile)
            } else if inode.blocks[0] == 0 {
                match next_block(d) {
                    Err(e) => Err(e),
                    Ok(b) => Ok(
                        store_file(set_bitmap(d, DATA_BITMAP_BLOCK, b, true), ino, inode, b, content),
                    ),
                }
            } else if !valid_ptr(inode.blocks[0]) {
                Err(FsError::Corrupted)
            } else {
                Ok(store_file(d, ino, inode, inode.blocks[0], content))
            },
        },
    }
}

/// The bytes that the file with record `inode` holds.
pub open spec fn content_of(d: Disk, inode: InodeView) -> Result<Seq<u8>, FsError> {
    if inode.size == 0 {
        Ok(Seq::empty())
    } else if inode.size > BLOCK_SIZE || !valid_ptr(inode.blocks[0]) {
        Err(FsError::Corrupted)
    } else {
        Ok(d[inode.blocks[0] as int].subrange(0, inode.size as int))
    }
}

/// The bytes of the file at `path`.
pub open spec fn cat_spec(d: Disk, path: Seq<u8>) -> Result<Seq<u8>, FsError> {
    match resolve(d, path) {
        Err(e) => Err(e),
        Ok(ino) => match inode_of(d, ino) {
            Err(e) => Err(e),
            Ok(inode) => if inode.mode != InodeType::File {
                Err(FsError::NotAFile)
            } else {
                content_of(d, inode)
            },
        },
    }
}

/// Every pointer is unset or points into the data area.
pub open spec fn pointers_ok(blocks: Seq<u32>) -> bool {
    forall|i: int| 0 <= i < blocks.len() ==> blocks[i] == 0 || valid_ptr(#[trigger] blocks[i])
}

/// The image after the blocks that the first `n` pointers name were marked
/// free.
pub open spec fn release_blocks(d: Disk, blocks: Seq<u32>, n: int) -> Disk
    decreases n,
{
    if n <= 0 {
        d
    } else if blocks[n - 1] != 0 {
        set_bitmap(release_blocks(d, blocks, n - 1), DATA_BITMAP_BLOCK, blocks[n - 1], false)
    } else {
        release_blocks(d, blocks, n - 1)
    }
}

/// The image after what `path` names was removed: its blocks and its inode
/// marked free, its entry in the parent zeroed. The record itself stays as
/// it is. A directory goes only if it has no more than two live entries.
pub open spec fn rm_spec(d: Disk, path: Seq<u8>) -> Result<Disk, FsError> {
    if path == root_path() {
        Err(FsError::CannotRemoveRoot)
    } else {
        match resolve(d, path) {
            Err(e) => Err(e),
            Ok(ino) => if ino == ROOT_INO {
                Err(FsError::CannotRemoveRoot)
            } else {
                match inode_of(d, ino) {
                    Err(e) => Err(e),
                    Ok(inode) => if inode.mode == InodeType::Directory && !valid_ptr(
                        inode.blocks[0],
                    ) {
                        Err(FsError::Corrupted)
                    } else if inode.mode == InodeType::Directory && live_count(
                        d[inode.blocks[0] as int],
                        ENTRIES_PER_BLOCK as int,
                    ) > 2 {
                        Err(FsError::DirectoryNotEmpty)
                    } else if !pointers_ok(inode.blocks) {
                        Err(FsError::Corrupted)
                    } else {
                        match resolve(d, split_parent_or_root(path).0) {
                            Err(e) => Err(e),
                            Ok(parent) => Ok(
                                remove(
                                    set_bitmap(
                                        release_blocks(d, inode.blocks, DIRECT_POINTERS as int),
                                        INODE_BITMAP_BLOCK,
                                        ino,
                                        false,
                                    ),
                                    parent,
                                    split_parent_or_root(path).1,
                                ),
                            ),
                        }
                    },
                }
            },
        }
    }
}

/// The bytes that copying writes for a source with content `content`: the
/// content read as text, and the text written back as bytes.
pub open spec fn copied_bytes(content: Seq<u8>) -> Seq<u8> {
    encode_utf8(text_of(content))
}

/// The image after the file at `src` was copied to `dst`, and whether the
/// copy succeeded. The target is made as an empty file first and written
/// to, by its path, second; where the second step fails the first is not
/// undone. A source that was never written gives an empty target.
pub open spec fn cp_spec(d: Disk, src: Seq<u8>, dst: Seq<u8>) -> (Disk, Result<(), FsError>) {
    match resolve(d, src) {
        Err(e) => (d, Err(e)),
        Ok(ino) => match inode_of(d, ino) {
            Err(e) => (d, Err(e)),
            Ok(inode) => if inode.mode != InodeType::File {
                (d, Err(FsError::NotAFile))
            } else if inode.blocks[0] == 0 {
                match touch_spec(d, dst) {
                    Err(e) => (d, Err(e)),
                    Ok(d1) => (d1, Ok(())),
                }
            } else if inode.size > BLOCK_SIZE || !valid_ptr(inode.blocks[0]) {
                (d, Err(FsError::Corrupted))
            } else {
                match touch_spec(d, dst) {
                    Err(e) => (d, Err(e)),
                    Ok(d1) => match write_spec(
                        d1,
                        dst,
                        copied_bytes(d[inode.blocks[0] as int].subrange(0, inode.size as int)),
                    ) {
                        Err(e) => (d1, Err(e)),
                        Ok(d2) => (d2, Ok(())),
                    },
                }
            },
        },
    }
}

/// A directory block with the inode number of slot `slot` replaced.
pub open spec fn set_slot_ino(block: Seq<u8>, slot: int, ino: u32) -> Seq<u8> {
    splice(block, slot * DIR_ENTRY_SIZE, le32_bytes(ino))
}

/// Replacing the inode number of a slot keeps the slot's name, and every
/// other slot.
pub proof fn lemma_set_slot_ino(block: Seq<u8>, slot: int, ino: u32)
    requires
        block.len() == BLOCK_SIZE,
        0 <= slot < ENTRIES_PER_BLOCK,
    ensures
        set_slot_ino(block, slot, ino).len() == BLOCK_SIZE,
        slot_ino(set_slot_ino(block, slot, ino), slot) == ino,
        slot_name(set_slot_ino(block, slot, ino), slot) == slot_name(block, slot),
        forall|t: int|
            0 <= t < ENTRIES_PER_BLOCK && t != slot ==> #[trigger] slot_bytes(
                set_slot_ino(block, slot, ino),
                t,
            ) == slot_bytes(block, t),
{
    let after = set_slot_ino(block, slot, ino);
    lemma_le32_at(slot_bytes(after, slot), 0, ino);
    lemma_entry_name_same(slot_bytes(after, slot), slot_bytes(block, slot));
    assert forall|t: int| 0 <= t < ENTRIES_PER_BLOCK && t != slot implies #[trigger] slot_bytes(after, t)
        == slot_bytes(block, t) by {
    }
}

/// The image after what `src` names was moved to `dst`: an entry for the
/// same inode under the new name in the new parent, the old entry zeroed,
/// and, for a directory, its `..` pointing to the new parent. No data is
/// copied.
pub open spec fn mv_spec(d: Disk, src: Seq<u8>, dst: Seq<u8>) -> Result<Disk, FsError> {
    match resolve(d, src) {
        Err(e) => Err(e),
        Ok(ino) => match resolve(d, split_parent_or_root(dst).0) {
            Err(e) => Err(e),
            Ok(dst_parent) => match resolve(d, split_parent_or_root(src).0) {
                Err(e) => Err(e),
                Ok(src_parent) => match inode_of(d, ino) {
                    Err(e) => Err(e),
                    Ok(inode) => if inode.mode == InodeType::Directory && !valid_ptr(
                        inode.blocks[0],
                    ) {
                        Err(FsError::Corrupted)
                    } else {
                        match insert(d, dst_parent, ino, split_parent_or_root(dst).1) {
                            Err(e) => Err(e),
                            Ok(d1) => Ok(
                                relink(
                                    remove(d1, src_parent, split_parent_or_root(src).1),
                                    inode,
                                    dst_parent,
                                ),
                            ),
                        }
                    },
                },
            },
        },
    }
}

/// For a directory, the image with the directory's `..` entry pointing to
/// `parent`; for anything else, the image as it is.
pub open spec fn relink(d: Disk, inode: InodeView, parent: u32) -> Disk {
    if inode.mode == InodeType::Directory {
        d.update(
            inode.blocks[0] as int,
            set_slot_ino(d[inode.blocks[0] as int], 1, parent),
        )
    } else {
        d
    }
}

} // verus!

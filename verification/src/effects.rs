//! What each operation changes in a consistent image, and that it leaves
//! the image consistent.

use vstd::prelude::*;
use crate::allocator::{next_block, next_inode, set_bitmap};
use crate::consistency::{
    block_taken, consistent, dir_ok, lemma_fresh_dir_block, lemma_inode_block_range,
    lemma_linked_is_live, lemma_links_added, lemma_links_kept, lemma_resolve_live, lemma_set_bitmap,
    lemma_update_data_block, lemma_walk_push, links, links_unique, live, named_by, record_ok, sound,
};
use crate::device::{Disk, disk_wf};
use crate::directory::{
    dir_block, ENTRIES_PER_BLOCK, find_slot, free_slot, lemma_first_hit_some,
    lemma_with_entry_slots, lemma_without_entry_slots, lookup, slot_ino, SlotQuery, with_entry,
    without_entry,
};
use crate::error::FsError;
use crate::inode_table::{inode_at, lemma_with_inode, valid_ino, valid_ptr, with_inode};
use crate::layout::{
    BLOCK_SIZE, DATA_AREA_START, DATA_BITMAP_BLOCK, DIRECT_POINTERS, INODE_BITMAP_BLOCK, InodeType,
    InodeView, ROOT_INO, TOTAL_BLOCKS,
};
use crate::model::{
    copied_bytes, cp_spec, dir_inode, empty_file, file_data, fresh_dir_block, mkdir_spec,
    release_blocks, rm_spec, touch_spec, write_spec, written_len,
};
use crate::path::{
    components, lemma_components_split, plain_name, plain_path, split_parent, split_parent_or_root,
};
use crate::resolve::resolve;

verus! {

/// The parent of a path of plain names is a path of plain names; the last
/// name of the path, where it is not empty, is plain and is the path's last
/// component.
pub proof fn lemma_parent_plain(path: Seq<u8>)
    requires
        plain_path(path),
    ensures
        plain_path(split_parent_or_root(path).0),
        split_parent_or_root(path).1.len() > 0 ==> plain_name(split_parent_or_root(path).1)
            && components(path) == components(split_parent_or_root(path).0).push(
            split_parent_or_root(path).1,
        ),
{
    let (pp, name) = split_parent_or_root(path);
    lemma_components_split(path);
    let all = components(path);
    let before = components(pp);
    if name.len() > 0 {
        assert forall|k: int| 0 <= k < before.len() implies plain_name(#[trigger] before[k]) by {
            assert(before[k] == all[k]);
        }
        assert(all[before.len() as int] == name);
    }
}

/// What making a file changes: one more inode is live, with the record of
/// an empty file, and the parent's block holds one more entry. Nothing else
/// changes.
pub proof fn lemma_touch_effect(d: Disk, path: Seq<u8>)
    requires
        consistent(d),
        plain_path(path),
        touch_spec(d, path) is Ok,
    ensures
        ({
            let d2 = touch_spec(d, path).unwrap();
            let (pp, name) = split_parent(path).unwrap();
            let parent = resolve(d, pp).unwrap();
            let pb = dir_block(d, parent).unwrap();
            let ino = next_inode(d).unwrap();
            let slot = free_slot(d[pb as int]).unwrap();
            &&& disk_wf(d2)
            &&& live(d, parent)
            &&& valid_ino(ino)
            &&& !live(d, ino)
            &&& 2 <= slot < ENTRIES_PER_BLOCK
            &&& forall|i: u32| #[trigger] live(d2, i) == (live(d, i) || i == ino)
            &&& forall|i: u32| valid_ino(i) && i != ino ==> #[trigger] inode_at(d2, i) == inode_at(d, i)
            &&& inode_at(d2, ino) == empty_file()
            &&& d2[DATA_BITMAP_BLOCK as int] == d[DATA_BITMAP_BLOCK as int]
            &&& forall|x: int|
                DATA_AREA_START <= x < TOTAL_BLOCKS && x != pb ==> #[trigger] d2[x] == d[x]
            &&& d2[pb as int] == with_entry(d[pb as int], slot, ino, name)
        }),
{
    let d2 = touch_spec(d, path).unwrap();
    let (pp, name) = split_parent(path).unwrap();
    let parent = resolve(d, pp).unwrap();
    let pb = dir_block(d, parent).unwrap();
    let ino = next_inode(d).unwrap();
    let slot = free_slot(d[pb as int]).unwrap();
    lemma_parent_plain(path);
    lemma_resolve_live(d, pp);
    lemma_first_hit_some(d[pb as int], SlotQuery::Free);
    let d1 = set_bitmap(d, INODE_BITMAP_BLOCK, ino, true);
    lemma_set_bitmap(d, INODE_BITMAP_BLOCK, ino, true);
    let da = with_inode(d1, ino, empty_file());
    lemma_with_inode(d1, ino, empty_file(), ino);
    lemma_inode_block_range(ino);
    assert forall|i: u32| valid_ino(i) && i != ino implies #[trigger] inode_at(da, i) == inode_at(d, i) by {
        lemma_with_inode(d1, ino, empty_file(), i);
    }
    lemma_with_entry_slots(d[pb as int], slot, ino, name);
    lemma_update_data_block(da, pb, with_entry(d[pb as int], slot, ino, name));
    assert forall|i: u32| #[trigger] live(d2, i) == (live(d, i) || i == ino) by {
    }
}

/// Making a file leaves a consistent image consistent.
pub proof fn lemma_touch_consistent(d: Disk, path: Seq<u8>)
    requires
        consistent(d),
        plain_path(path),
        touch_spec(d, path) is Ok,
    ensures
        consistent(touch_spec(d, path).unwrap()),
{
    lemma_touch_sound(d, path);
    lemma_touch_links(d, path);
}

/// The links of an image to which an inode with no links of its own, and
/// an entry for it, were added.
pub proof fn lemma_grown_links(d: Disk, d2: Disk, parent: u32, pb: u32, slot: int, ino: u32, name: Seq<u8>)
    requires
        consistent(d),
        live(d, parent),
        dir_block(d, parent) == Ok::<u32, FsError>(pb),
        2 <= slot < ENTRIES_PER_BLOCK,
        valid_ino(ino),
        !live(d, ino),
        forall|i: u32| #[trigger] live(d2, i) == (live(d, i) || i == ino),
        forall|i: u32| valid_ino(i) && i != ino ==> #[trigger] inode_at(d2, i) == inode_at(d, i),
        forall|s: int| !#[trigger] links(d2, ino, s),
        d2[pb as int] == with_entry(d[pb as int], slot, ino, name),
        forall|i: u32|
            live(d, i) && inode_at(d, i).mode == InodeType::Directory && inode_at(d, i).blocks[0]
                != pb ==> #[trigger] d2[inode_at(d, i).blocks[0] as int] == d[inode_at(d, i).blocks[0] as int],
    ensures
        links_unique(d2),
{
    lemma_with_entry_slots(d[pb as int], slot, ino, name);
    assert forall|i: u32, s: int|
        #[trigger] links(d2, i, s) && !(i == parent && s == slot) implies links(d, i, s) && named_by(
        d2,
        i,
        s,
    ) == named_by(d, i, s) by {
    }
    assert forall|i: u32, s: int| #[trigger] links(d, i, s) implies named_by(d, i, s) != ino by {
        lemma_linked_is_live(d, i, s);
    }
    lemma_links_added(d, d2, parent, slot, ino);
}

/// Making a file leaves the links of a consistent image unique.
pub proof fn lemma_touch_links(d: Disk, path: Seq<u8>)
    requires
        consistent(d),
        plain_path(path),
        touch_spec(d, path) is Ok,
    ensures
        links_unique(touch_spec(d, path).unwrap()),
{
    let d2 = touch_spec(d, path).unwrap();
    let (pp, name) = split_parent(path).unwrap();
    let parent = resolve(d, pp).unwrap();
    let pb = dir_block(d, parent).unwrap();
    let ino = next_inode(d).unwrap();
    let slot = free_slot(d[pb as int]).unwrap();
    lemma_touch_effect(d, path);
    assert forall|i: u32|
        live(d, i) && inode_at(d, i).mode == InodeType::Directory && inode_at(d, i).blocks[0]
            != pb implies #[trigger] d2[inode_at(d, i).blocks[0] as int] == d[inode_at(d, i).blocks[0] as int] by {
    }
    lemma_grown_links(d, d2, parent, pb, slot, ino, name);
}

/// Making a file leaves a sound image sound.
pub proof fn lemma_touch_sound(d: Disk, path: Seq<u8>)
    requires
        consistent(d),
        plain_path(path),
        touch_spec(d, path) is Ok,
    ensures
        sound(touch_spec(d, path).unwrap()),
{
    let d2 = touch_spec(d, path).unwrap();
    let (pp, name) = split_parent(path).unwrap();
    let parent = resolve(d, pp).unwrap();
    let pb = dir_block(d, parent).unwrap();
    let ino = next_inode(d).unwrap();
    let slot = free_slot(d[pb as int]).unwrap();
    lemma_touch_effect(d, path);
    assert forall|i: u32| #[trigger] live(d2, i) implies record_ok(d2, i) by {
    }
    assert forall|i: u32, j: u32|
        #![trigger live(d2, i), live(d2, j)]
        live(d2, i) && live(d2, j) && i != j && inode_at(d2, i).blocks[0] != 0 implies inode_at(
        d2,
        i,
    ).blocks[0] != inode_at(d2, j).blocks[0] by {
    }
    assert forall|i: u32| #[trigger] live(d2, i) && inode_at(d2, i).mode == InodeType::Directory implies dir_ok(
        d2,
        i,
    ) by {
        lemma_entry_keeps_dir(d, d2, i, pb, slot, ino, name);
    }
}

/// A sound directory block stays sound when the liveness of inodes only
/// grows and the block either stays as it is or gets an entry for a live
/// inode in a slot other than the first two.
pub proof fn lemma_entry_keeps_dir(d: Disk, d2: Disk, i: u32, pb: u32, slot: int, ino: u32, name: Seq<u8>)
    requires
        disk_wf(d),
        dir_ok(d, i),
        valid_ptr(inode_at(d, i).blocks[0]),
        valid_ptr(pb),
        inode_at(d2, i) == inode_at(d, i),
        2 <= slot < ENTRIES_PER_BLOCK,
        live(d2, ino),
        forall|c: u32| live(d, c) ==> live(d2, c),
        d2[pb as int] == with_entry(d[pb as int], slot, ino, name),
        inode_at(d, i).blocks[0] != pb ==> d2[inode_at(d, i).blocks[0] as int] == d[inode_at(
            d,
            i,
        ).blocks[0] as int],
    ensures
        dir_ok(d2, i),
{
    let bi = inode_at(d, i).blocks[0];
    let before = d[bi as int];
    let after = d2[bi as int];
    if bi == pb {
        lemma_with_entry_slots(before, slot, ino, name);
        assert forall|s: int| 2 <= s < ENTRIES_PER_BLOCK && slot_ino(after, s) != 0 implies live(
            d2,
            #[trigger] slot_ino(after, s),
        ) by {
            if s != slot {
                assert(live(d, slot_ino(before, s)));
            }
        }
    } else {
        assert forall|s: int| 2 <= s < ENTRIES_PER_BLOCK && slot_ino(after, s) != 0 implies live(
            d2,
            #[trigger] slot_ino(after, s),
        ) by {
        }
    }
}

/// What making a directory changes: one more inode is live, with the
/// record of a directory; one more block is taken, and holds `.` and `..`;
/// and the parent's block holds one more entry. Nothing else changes.
pub proof fn lemma_mkdir_effect(d: Disk, path: Seq<u8>)
    requires
        consistent(d),
        plain_path(path),
        mkdir_spec(d, path) is Ok,
    ensures
        ({
            let d2 = mkdir_spec(d, path).unwrap();
            let (pp, name) = split_parent(path).unwrap();
            let parent = resolve(d, pp).unwrap();
            let pb = dir_block(d, parent).unwrap();
            let ino = next_inode(d).unwrap();
            let b = next_block(d).unwrap();
            let slot = free_slot(d[pb as int]).unwrap();
            &&& disk_wf(d2)
            &&& live(d, parent)
            &&& valid_ino(ino)
            &&& !live(d, ino)
            &&& valid_ptr(b)
            &&& !block_taken(d, b)
            &&& b != pb
            &&& 2 <= slot < ENTRIES_PER_BLOCK
            &&& forall|i: u32| #[trigger] live(d2, i) == (live(d, i) || i == ino)
            &&& forall|x: u32|
                x < 8 * BLOCK_SIZE ==> #[trigger] block_taken(d2, x) == (block_taken(d, x) || x == b)
            &&& forall|i: u32| valid_ino(i) && i != ino ==> #[trigger] inode_at(d2, i) == inode_at(d, i)
            &&& inode_at(d2, ino) == dir_inode(b)
            &&& forall|x: int|
                DATA_AREA_START <= x < TOTAL_BLOCKS && x != pb && x != b ==> #[trigger] d2[x] == d[x]
            &&& d2[b as int] == fresh_dir_block(ino, parent)
            &&& d2[pb as int] == with_entry(d[pb as int], slot, ino, name)
        }),
{
    let d5 = mkdir_spec(d, path).unwrap();
    let (pp, name) = split_parent(path).unwrap();
    let parent = resolve(d, pp).unwrap();
    let pb = dir_block(d, parent).unwrap();
    let ino = next_inode(d).unwrap();
    let b = next_block(d).unwrap();
    let slot = free_slot(d[pb as int]).unwrap();
    lemma_parent_plain(path);
    lemma_resolve_live(d, pp);
    lemma_first_hit_some(d[pb as int], SlotQuery::Free);
    let d1 = set_bitmap(d, INODE_BITMAP_BLOCK, ino, true);
    lemma_set_bitmap(d, INODE_BITMAP_BLOCK, ino, true);
    let d2 = set_bitmap(d1, DATA_BITMAP_BLOCK, b, true);
    lemma_set_bitmap(d1, DATA_BITMAP_BLOCK, b, true);
    let d3 = with_inode(d2, ino, dir_inode(b));
    lemma_with_inode(d2, ino, dir_inode(b), ino);
    lemma_inode_block_range(ino);
    assert forall|i: u32| valid_ino(i) && i != ino implies #[trigger] inode_at(d3, i) == inode_at(d, i) by {
        lemma_with_inode(d2, ino, dir_inode(b), i);
    }
    lemma_fresh_dir_block(ino, parent);
    let d4 = d3.update(b as int, fresh_dir_block(ino, parent));
    lemma_update_data_block(d3, b, fresh_dir_block(ino, parent));
    lemma_with_entry_slots(d[pb as int], slot, ino, name);
    lemma_update_data_block(d4, pb, with_entry(d[pb as int], slot, ino, name));
    assert forall|i: u32| #[trigger] live(d5, i) == (live(d, i) || i == ino) by {
    }
    assert forall|x: u32| x < 8 * BLOCK_SIZE implies #[trigger] block_taken(d5, x) == (block_taken(d, x)
        || x == b) by {
    }
}

/// Making a directory leaves a consistent image consistent.
pub proof fn lemma_mkdir_consistent(d: Disk, path: Seq<u8>)
    requires
        consistent(d),
        plain_path(path),
        mkdir_spec(d, path) is Ok,
    ensures
        consistent(mkdir_spec(d, path).unwrap()),
{
    lemma_mkdir_sound(d, path);
    lemma_mkdir_links(d, path);
}

/// Making a directory leaves the links of a consistent image unique.
pub proof fn lemma_mkdir_links(d: Disk, path: Seq<u8>)
    requires
        consistent(d),
        plain_path(path),
        mkdir_spec(d, path) is Ok,
    ensures
        links_unique(mkdir_spec(d, path).unwrap()),
{
    let d2 = mkdir_spec(d, path).unwrap();
    let (pp, name) = split_parent(path).unwrap();
    let parent = resolve(d, pp).unwrap();
    let pb = dir_block(d, parent).unwrap();
    let ino = next_inode(d).unwrap();
    let slot = free_slot(d[pb as int]).unwrap();
    lemma_mkdir_effect(d, path);
    lemma_fresh_dir_block(ino, parent);
    assert forall|i: u32|
        live(d, i) && inode_at(d, i).mode == InodeType::Directory && inode_at(d, i).blocks[0]
            != pb implies #[trigger] d2[inode_at(d, i).blocks[0] as int] == d[inode_at(d, i).blocks[0] as int] by {
    }
    assert forall|s: int| !#[trigger] links(d2, ino, s) by {
    }
    lemma_grown_links(d, d2, parent, pb, slot, ino, name);
}

/// Making a directory leaves a sound image sound.
pub proof fn lemma_mkdir_sound(d: Disk, path: Seq<u8>)
    requires
        consistent(d),
        plain_path(path),
        mkdir_spec(d, path) is Ok,
    ensures
        sound(mkdir_spec(d, path).unwrap()),
{
    let d2 = mkdir_spec(d, path).unwrap();
    let (pp, name) = split_parent(path).unwrap();
    let parent = resolve(d, pp).unwrap();
    let pb = dir_block(d, parent).unwrap();
    let ino = next_inode(d).unwrap();
    let slot = free_slot(d[pb as int]).unwrap();
    lemma_mkdir_effect(d, path);
    lemma_fresh_dir_block(ino, parent);
    assert forall|i: u32| #[trigger] live(d2, i) implies record_ok(d2, i) by {
    }
    assert forall|i: u32, j: u32|
        #![trigger live(d2, i), live(d2, j)]
        live(d2, i) && live(d2, j) && i != j && inode_at(d2, i).blocks[0] != 0 implies inode_at(
        d2,
        i,
    ).blocks[0] != inode_at(d2, j).blocks[0] by {
    }
    assert forall|i: u32| #[trigger] live(d2, i) && inode_at(d2, i).mode == InodeType::Directory implies dir_ok(
        d2,
        i,
    ) by {
        if i != ino {
            lemma_entry_keeps_dir(d, d2, i, pb, slot, ino, name);
        }
    }
}

/// The block that a write to the file with record `inode` fills: the file's
/// own, or the lowest free one where the file has none.
pub open spec fn write_target(d: Disk, inode: InodeView) -> u32 {
    if inode.blocks[0] == 0 {
        next_block(d).unwrap()
    } else {
        inode.blocks[0]
    }
}

/// A write to a file changes no lookup: every name stands in every live
/// inode for what it stood for before. The file's record afterwards gives
/// the written length and the block written, and that block holds the
/// content.
pub proof fn lemma_write_effect(d: Disk, path: Seq<u8>, content: Seq<u8>)
    requires
        consistent(d),
        plain_path(path),
        write_spec(d, path, content) is Ok,
    ensures
        ({
            let d2 = write_spec(d, path, content).unwrap();
            let ino = resolve(d, path).unwrap();
            let b = write_target(d, inode_at(d, ino));
            &&& disk_wf(d2)
            &&& live(d, ino)
            &&& inode_at(d, ino).mode == InodeType::File
            &&& valid_ptr(b)
            &&& inode_at(d, ino).blocks[0] == 0 ==> !block_taken(d, b)
            &&& d2[INODE_BITMAP_BLOCK as int] == d[INODE_BITMAP_BLOCK as int]
            &&& forall|x: u32|
                x < 8 * BLOCK_SIZE ==> #[trigger] block_taken(d2, x) == (block_taken(d, x) || x == b)
            &&& forall|i: u32, name: Seq<u8>|
                live(d, i) ==> #[trigger] lookup(d2, i, name) == lookup(d, i, name)
            &&& forall|i: u32| live(d, i) && i != ino ==> #[trigger] inode_at(d2, i) == inode_at(d, i)
            &&& forall|x: int|
                0 <= x < d.len() && x != b && valid_ptr(x as u32) ==> #[trigger] d2[x] == d[x]
            &&& inode_at(d2, ino) == InodeView {
                mode: InodeType::File,
                size: written_len(content) as u32,
                blocks: inode_at(d, ino).blocks.update(0, b),
            }
            &&& d2[b as int] == file_data(content)
        }),
{
    let d2 = write_spec(d, path, content).unwrap();
    let ino = resolve(d, path).unwrap();
    lemma_resolve_live(d, path);
    let inode = inode_at(d, ino);
    let b = write_target(d, inode);
    let fresh = inode.blocks[0] == 0;
    let d1 = if fresh {
        set_bitmap(d, DATA_BITMAP_BLOCK, b, true)
    } else {
        d
    };
    let da = d1.update(b as int, file_data(content));
    let new = InodeView {
        mode: InodeType::File,
        size: written_len(content) as u32,
        blocks: inode.blocks.update(0, b),
    };
    if fresh {
        lemma_set_bitmap(d, DATA_BITMAP_BLOCK, b, true);
    }
    assert forall|x: u32| x < 8 * BLOCK_SIZE implies #[trigger] block_taken(d1, x) == (block_taken(d, x)
        || x == b) by {}
    lemma_update_data_block(d1, b, file_data(content));
    lemma_inode_block_range(ino);
    lemma_with_inode(da, ino, new, ino);
    assert forall|i: u32| live(d, i) && i != ino implies #[trigger] inode_at(d2, i) == inode_at(d, i) by {
        lemma_with_inode(da, ino, new, i);
    }
    assert forall|i: u32, name: Seq<u8>| live(d, i) implies #[trigger] lookup(d2, i, name) == lookup(
        d,
        i,
        name,
    ) by {
        if i != ino {
            lemma_with_inode(da, ino, new, i);
        }
    }
}

/// Writing to a file leaves a consistent image consistent.
pub proof fn lemma_write_consistent(d: Disk, path: Seq<u8>, content: Seq<u8>)
    requires
        consistent(d),
        plain_path(path),
        write_spec(d, path, content) is Ok,
    ensures
        consistent(write_spec(d, path, content).unwrap()),
{
    lemma_write_sound(d, path, content);
    let d2 = write_spec(d, path, content).unwrap();
    lemma_write_effect(d, path, content);
    assert forall|i: u32, s: int| #[trigger] links(d2, i, s) implies links(d, i, s) && named_by(d2, i, s)
        == named_by(d, i, s) by {
        assert(live(d, i));
    }
    lemma_links_kept(d, d2);
}

/// Writing to a file leaves a sound image sound.
pub proof fn lemma_write_sound(d: Disk, path: Seq<u8>, content: Seq<u8>)
    requires
        consistent(d),
        plain_path(path),
        write_spec(d, path, content) is Ok,
    ensures
        sound(write_spec(d, path, content).unwrap()),
{
    let d2 = write_spec(d, path, content).unwrap();
    lemma_write_effect(d, path, content);
    assert forall|i: u32| #[trigger] live(d2, i) implies record_ok(d2, i) by {
        assert(live(d, i));
    }
    assert forall|i: u32, j: u32|
        #![trigger live(d2, i), live(d2, j)]
        live(d2, i) && live(d2, j) && i != j && inode_at(d2, i).blocks[0] != 0 implies inode_at(
        d2,
        i,
    ).blocks[0] != inode_at(d2, j).blocks[0] by {
        assert(live(d, i) && live(d, j));
    }
    assert forall|i: u32| #[trigger] live(d2, i) && inode_at(d2, i).mode == InodeType::Directory implies dir_ok(
        d2,
        i,
    ) by {
        assert(live(d, i));
        let bi = inode_at(d, i).blocks[0];
        assert forall|s: int|
            2 <= s < ENTRIES_PER_BLOCK && slot_ino(d2[bi as int], s) != 0 implies live(
            d2,
            #[trigger] slot_ino(d2[bi as int], s),
        ) by {
        }
    }
}

/// Releasing the blocks of a sound record releases its first block, if it
/// has one, and nothing else.
pub proof fn lemma_release_blocks(d: Disk, blocks: Seq<u32>, n: int)
    requires
        blocks.len() == DIRECT_POINTERS,
        1 <= n <= DIRECT_POINTERS,
        forall|k: int| 1 <= k < DIRECT_POINTERS ==> blocks[k] == 0,
    ensures
        release_blocks(d, blocks, n) == (if blocks[0] != 0 {
            set_bitmap(d, DATA_BITMAP_BLOCK, blocks[0], false)
        } else {
            d
        }),
    decreases n,
{
    if n > 1 {
        lemma_release_blocks(d, blocks, n - 1);
    } else {
        assert(release_blocks(d, blocks, 0) == d);
    }
}

/// The path names an entry: its last name is not empty.
pub open spec fn names_entry(path: Seq<u8>) -> bool {
    split_parent_or_root(path).1.len() > 0
}

/// A path that names an entry resolves through its parent: to what its last
/// name stands for in the directory that the parent's path resolves to.
pub proof fn lemma_resolve_through_parent(d: Disk, path: Seq<u8>)
    requires
        names_entry(path),
    ensures
        resolve(d, path) == match resolve(d, split_parent_or_root(path).0) {
            Ok(parent) => lookup(d, parent, split_parent_or_root(path).1),
            Err(e) => Err(e),
        },
{
    let (pp, name) = split_parent_or_root(path);
    lemma_components_split(path);
    lemma_walk_push(d, ROOT_INO, components(pp), name);
}

/// What removing changes: the inode is no longer live, its block is no
/// longer taken, and its entry in the parent is zeroed. Nothing else
/// changes; the records stay as they are.
pub proof fn lemma_rm_effect(d: Disk, path: Seq<u8>)
    requires
        consistent(d),
        plain_path(path),
        names_entry(path),
        rm_spec(d, path) is Ok,
    ensures
        ({
            let d2 = rm_spec(d, path).unwrap();
            let (pp, name) = split_parent_or_root(path);
            let ino = resolve(d, path).unwrap();
            let parent = resolve(d, pp).unwrap();
            let pb = dir_block(d, parent).unwrap();
            let slot = find_slot(d[pb as int], name).unwrap();
            &&& disk_wf(d2)
            &&& live(d, parent)
            &&& live(d, ino)
            &&& ino != ROOT_INO
            &&& dir_block(d, parent) is Ok
            &&& find_slot(d[pb as int], name) is Some
            &&& slot_ino(d[pb as int], slot) == ino
            &&& 2 <= slot < ENTRIES_PER_BLOCK
            &&& forall|i: u32| valid_ino(i) ==> #[trigger] inode_at(d2, i) == inode_at(d, i)
            &&& forall|i: u32| #[trigger] live(d2, i) == (live(d, i) && i != ino)
            &&& forall|x: u32|
                x < 8 * BLOCK_SIZE ==> #[trigger] block_taken(d2, x) == (block_taken(d, x) && (x
                    != inode_at(d, ino).blocks[0] || x == 0))
            &&& forall|x: int|
                DATA_AREA_START <= x < TOTAL_BLOCKS && x != pb ==> #[trigger] d2[x] == d[x]
            &&& d2[pb as int] == without_entry(d[pb as int], slot)
        }),
{
    let d2 = rm_spec(d, path).unwrap();
    let (pp, name) = split_parent_or_root(path);
    let ino = resolve(d, path).unwrap();
    let parent = resolve(d, pp).unwrap();
    lemma_parent_plain(path);
    lemma_resolve_live(d, pp);
    lemma_resolve_live(d, path);
    lemma_resolve_through_parent(d, path);
    let pb = dir_block(d, parent).unwrap();
    let slot = find_slot(d[pb as int], name).unwrap();
    lemma_first_hit_some(d[pb as int], SlotQuery::Named(name));
    let inode = inode_at(d, ino);
    lemma_release_blocks(d, inode.blocks, DIRECT_POINTERS as int);
    let b = inode.blocks[0];
    let d0 = release_blocks(d, inode.blocks, DIRECT_POINTERS as int);
    if b != 0 {
        lemma_set_bitmap(d, DATA_BITMAP_BLOCK, b, false);
    }
    let d1 = set_bitmap(d0, INODE_BITMAP_BLOCK, ino, false);
    lemma_set_bitmap(d0, INODE_BITMAP_BLOCK, ino, false);
    lemma_without_entry_slots(d[pb as int], slot);
    lemma_update_data_block(d1, pb, without_entry(d[pb as int], slot));
    assert forall|i: u32| #[trigger] live(d2, i) == (live(d, i) && i != ino) by {
    }
    assert forall|x: u32| x < 8 * BLOCK_SIZE implies #[trigger] block_taken(d2, x) == (block_taken(d, x)
        && (x != inode_at(d, ino).blocks[0] || x == 0)) by {
    }
}

/// In a consistent image, the entry through which a path resolves is the
/// only link to what the path names.
pub proof fn lemma_only_link(d: Disk, path: Seq<u8>, i: u32, s: int)
    requires
        consistent(d),
        plain_path(path),
        names_entry(path),
        resolve(d, path) is Ok,
        links(d, i, s),
        named_by(d, i, s) == resolve(d, path).unwrap(),
    ensures
        resolve(d, split_parent_or_root(path).0) == Ok::<u32, FsError>(i),
        find_slot(d[inode_at(d, i).blocks[0] as int], split_parent_or_root(path).1) == Some(s),
{
    let (pp, name) = split_parent_or_root(path);
    lemma_parent_plain(path);
    lemma_resolve_through_parent(d, path);
    let parent = resolve(d, pp).unwrap();
    lemma_resolve_live(d, pp);
    let pb = dir_block(d, parent).unwrap();
    lemma_first_hit_some(d[pb as int], SlotQuery::Named(name));
    let slot = find_slot(d[pb as int], name).unwrap();
    assert(links(d, parent, slot));
}

/// Removing leaves a consistent image consistent.
pub proof fn lemma_rm_consistent(d: Disk, path: Seq<u8>)
    requires
        consistent(d),
        plain_path(path),
        names_entry(path),
        rm_spec(d, path) is Ok,
    ensures
        consistent(rm_spec(d, path).unwrap()),
{
    lemma_rm_sound(d, path);
    let d2 = rm_spec(d, path).unwrap();
    let (pp, name) = split_parent_or_root(path);
    let parent = resolve(d, pp).unwrap();
    let pb = dir_block(d, parent).unwrap();
    let slot = find_slot(d[pb as int], name).unwrap();
    lemma_rm_effect(d, path);
    lemma_without_entry_slots(d[pb as int], slot);
    assert forall|i: u32, s: int| #[trigger] links(d2, i, s) implies links(d, i, s) && named_by(d2, i, s)
        == named_by(d, i, s) by {
    }
    lemma_links_kept(d, d2);
}

/// Removing leaves a sound image sound.
pub proof fn lemma_rm_sound(d: Disk, path: Seq<u8>)
    requires
        consistent(d),
        plain_path(path),
        names_entry(path),
        rm_spec(d, path) is Ok,
    ensures
        sound(rm_spec(d, path).unwrap()),
{
    let d2 = rm_spec(d, path).unwrap();
    let (pp, name) = split_parent_or_root(path);
    let ino = resolve(d, path).unwrap();
    let parent = resolve(d, pp).unwrap();
    let pb = dir_block(d, parent).unwrap();
    let slot = find_slot(d[pb as int], name).unwrap();
    lemma_rm_effect(d, path);
    lemma_without_entry_slots(d[pb as int], slot);
    assert forall|i: u32| #[trigger] live(d2, i) implies record_ok(d2, i) by {
    }
    assert forall|i: u32, j: u32|
        #![trigger live(d2, i), live(d2, j)]
        live(d2, i) && live(d2, j) && i != j && inode_at(d2, i).blocks[0] != 0 implies inode_at(
        d2,
        i,
    ).blocks[0] != inode_at(d2, j).blocks[0] by {
    }
    assert forall|i: u32| #[trigger] live(d2, i) && inode_at(d2, i).mode == InodeType::Directory implies dir_ok(
        d2,
        i,
    ) by {
        let bi = inode_at(d, i).blocks[0];
        let before = d[bi as int];
        let after = d2[bi as int];
        assert forall|s: int| 2 <= s < ENTRIES_PER_BLOCK && slot_ino(after, s) != 0 implies live(
            d2,
            #[trigger] slot_ino(after, s),
        ) by {
            if slot_ino(before, s) == ino {
                lemma_only_link(d, path, i, s);
            }
        }
    }
}

/// Copying leaves a consistent image consistent, whether it succeeds or
/// fails after it has made the target.
pub proof fn lemma_cp_consistent(d: Disk, src: Seq<u8>, dst: Seq<u8>)
    requires
        consistent(d),
        plain_path(dst),
    ensures
        consistent(cp_spec(d, src, dst).0),
{
    if touch_spec(d, dst) is Ok {
        let dt = touch_spec(d, dst).unwrap();
        lemma_touch_consistent(d, dst);
        if resolve(d, src) is Ok {
            let inode = inode_at(d, resolve(d, src).unwrap());
            let bytes = copied_bytes(d[inode.blocks[0] as int].subrange(0, inode.size as int));
            if write_spec(dt, dst, bytes) is Ok {
                lemma_write_consistent(dt, dst, bytes);
            }
        }
    }
}

} // verus!

//! What makes an image a consistent filesystem, and what follows from it.
//!
//! The inode bitmap decides which inodes are live. In a consistent image
//! every live record points to blocks that are marked taken, no two live
//! records share a block, the entries of a live directory name live inodes,
//! and no inode is linked from two entries. Formatting makes an image
//! consistent, and the operations keep it so.

use vstd::prelude::*;
use crate::allocator::set_bitmap;
use crate::bitmap::{bit_at, bit_of, lemma_with_bit, lemma_zero_byte};
use crate::device::{Disk, disk_wf};
use crate::directory::{
    dir_block, ENTRIES_PER_BLOCK, find_slot, lemma_first_hit_some, lemma_with_entry, lookup,
    slot_bytes, slot_ino, slot_name, SlotQuery, with_entry,
};
use crate::error::FsError;
use crate::inode_table::{inode_at, inode_block, inode_bytes, inode_offset, valid_ino, valid_ptr};
use crate::layout::{
    BLOCK_SIZE, cut_name, DATA_AREA_START, DATA_BITMAP_BLOCK, DIRECT_POINTERS, encode_inode,
    INODE_BITMAP_BLOCK, INODE_SIZE, INODE_TABLE_START, InodeType, law_inode_round_trip,
    lemma_entry_bytes, lemma_le32_zero, ROOT_INO, storable_name, TOTAL_BLOCKS,
};
use crate::model::{dir_inode, format_spec, fresh_dir_block, zero_block};
use crate::path::{components, dot, dotdot, plain_name, plain_names, plain_path};
use crate::resolve::{resolve, walk};

verus! {

/// Inode `i` is live: it names a record, and the inode bitmap marks it.
pub open spec fn live(d: Disk, i: u32) -> bool {
    valid_ino(i) && bit_at(d[INODE_BITMAP_BLOCK as int], i as int)
}

/// Block `b` is marked taken in the data bitmap.
pub open spec fn block_taken(d: Disk, b: u32) -> bool {
    bit_at(d[DATA_BITMAP_BLOCK as int], b as int)
}

/// The record of inode `i` is sound: a directory has a block; the first
/// pointer, if set, points into the data area at a block marked taken; no
/// other pointer is set.
pub open spec fn record_ok(d: Disk, i: u32) -> bool {
    let r = inode_at(d, i);
    &&& r.mode == InodeType::Directory ==> r.blocks[0] != 0
    &&& r.blocks[0] != 0 ==> valid_ptr(r.blocks[0]) && block_taken(d, r.blocks[0])
    &&& forall|k: int| 1 <= k < DIRECT_POINTERS ==> r.blocks[k] == 0
}

/// The block of directory `i` is sound: its first two slots hold `.` and
/// `..`, and every other live entry names a live inode.
pub open spec fn dir_ok(d: Disk, i: u32) -> bool {
    let block = d[inode_at(d, i).blocks[0] as int];
    &&& slot_ino(block, 0) != 0 && slot_name(block, 0) == dot()
    &&& slot_ino(block, 1) != 0 && slot_name(block, 1) == dotdot()
    &&& forall|s: int|
        2 <= s < ENTRIES_PER_BLOCK && slot_ino(block, s) != 0 ==> live(d, #[trigger] slot_ino(block, s))
}

/// The inode that slot `s` of directory `i` names.
pub open spec fn named_by(d: Disk, i: u32, s: int) -> u32 {
    slot_ino(d[inode_at(d, i).blocks[0] as int], s)
}

/// Slot `s` of inode `i` links a child: `i` is a live directory, and the
/// slot is a live one other than the first two.
pub open spec fn links(d: Disk, i: u32, s: int) -> bool {
    &&& live(d, i)
    &&& inode_at(d, i).mode == InodeType::Directory
    &&& 2 <= s < ENTRIES_PER_BLOCK
    &&& named_by(d, i, s) != 0
}

/// No inode is linked twice, and the root is not linked at all.
pub open spec fn links_unique(d: Disk) -> bool {
    &&& forall|i: u32, s: int, j: u32, t: int|
        #![trigger links(d, i, s), links(d, j, t)]
        links(d, i, s) && links(d, j, t) && named_by(d, i, s) == named_by(d, j, t) ==> i == j && s
            == t
    &&& forall|i: u32, s: int| #[trigger] links(d, i, s) ==> named_by(d, i, s) != ROOT_INO
}

/// The image is a consistent filesystem: it is sound, no inode is linked
/// twice, and the root is not linked at all.
pub open spec fn consistent(d: Disk) -> bool {
    sound(d) && links_unique(d)
}

/// The image is sound: the root is a live directory; the records of live
/// inodes are sound and share no block; and the blocks of live directories
/// are sound.
pub open spec fn sound(d: Disk) -> bool {
    &&& disk_wf(d)
    &&& live(d, ROOT_INO)
    &&& inode_at(d, ROOT_INO).mode == InodeType::Directory
    &&& forall|i: u32| #[trigger] live(d, i) ==> record_ok(d, i)
    &&& forall|i: u32, j: u32|
        #![trigger live(d, i), live(d, j)]
        live(d, i) && live(d, j) && i != j && inode_at(d, i).blocks[0] != 0 ==> inode_at(
            d,
            i,
        ).blocks[0] != inode_at(d, j).blocks[0]
    &&& forall|i: u32|
        #[trigger] live(d, i) && inode_at(d, i).mode == InodeType::Directory ==> dir_ok(d, i)
}

/// Links stay unique where no link is added: every link of the later image
/// was a link of the earlier one, to the same inode.
pub proof fn lemma_links_kept(d: Disk, d2: Disk)
    requires
        links_unique(d),
        forall|i: u32, s: int|
            #[trigger] links(d2, i, s) ==> links(d, i, s) && named_by(d2, i, s) == named_by(d, i, s),
    ensures
        links_unique(d2),
{
    assert forall|i: u32, s: int, j: u32, t: int|
        #![trigger links(d2, i, s), links(d2, j, t)]
        links(d2, i, s) && links(d2, j, t) && named_by(d2, i, s) == named_by(d2, j, t) implies i == j
        && s == t by {
    }
    assert forall|i: u32, s: int| #[trigger] links(d2, i, s) implies named_by(d2, i, s) != ROOT_INO by {
    }
}

/// Links stay unique where one link is added, to an inode other than the
/// root that was not linked before.
pub proof fn lemma_links_added(d: Disk, d2: Disk, p: u32, slot: int, n: u32)
    requires
        links_unique(d),
        forall|i: u32, s: int|
            #[trigger] links(d2, i, s) && !(i == p && s == slot) ==> links(d, i, s) && named_by(
                d2,
                i,
                s,
            ) == named_by(d, i, s),
        links(d2, p, slot) ==> named_by(d2, p, slot) == n,
        n != ROOT_INO,
        forall|i: u32, s: int| #[trigger] links(d, i, s) ==> named_by(d, i, s) != n,
    ensures
        links_unique(d2),
{
    assert forall|i: u32, s: int, j: u32, t: int|
        #![trigger links(d2, i, s), links(d2, j, t)]
        links(d2, i, s) && links(d2, j, t) && named_by(d2, i, s) == named_by(d2, j, t) implies i == j
        && s == t by {
    }
    assert forall|i: u32, s: int| #[trigger] links(d2, i, s) implies named_by(d2, i, s) != ROOT_INO by {
    }
}

/// The records of the inode table lie before the data area.
pub proof fn lemma_inode_block_range(i: u32)
    requires
        valid_ino(i),
    ensures
        INODE_TABLE_START <= inode_block(i) < DATA_AREA_START,
        0 <= inode_offset(i),
        inode_offset(i) + INODE_SIZE <= BLOCK_SIZE,
{
}

/// Setting a bit of a bitmap block changes that bit, and nothing else of
/// the image.
pub proof fn lemma_set_bitmap(d: Disk, bitmap: u32, k: u32, v: bool)
    requires
        disk_wf(d),
        bitmap == INODE_BITMAP_BLOCK || bitmap == DATA_BITMAP_BLOCK,
        k < 8 * BLOCK_SIZE,
    ensures
        disk_wf(set_bitmap(d, bitmap, k, v)),
        forall|b: int| 0 <= b < TOTAL_BLOCKS && b != bitmap ==> set_bitmap(d, bitmap, k, v)[b] == d[b],
        forall|i: int|
            0 <= i < 8 * BLOCK_SIZE ==> #[trigger] bit_at(set_bitmap(d, bitmap, k, v)[bitmap as int], i)
                == (if i == k {
                v
            } else {
                bit_at(d[bitmap as int], i)
            }),
        forall|i: u32| valid_ino(i) ==> #[trigger] inode_at(set_bitmap(d, bitmap, k, v), i) == inode_at(d, i),
{
    let d2 = set_bitmap(d, bitmap, k, v);
    assert forall|i: int| 0 <= i < 8 * BLOCK_SIZE implies #[trigger] bit_at(d2[bitmap as int], i) == (if i
        == k {
        v
    } else {
        bit_at(d[bitmap as int], i)
    }) by {
        lemma_with_bit(d[bitmap as int], k as int, v, i);
    }
    lemma_with_bit(d[bitmap as int], k as int, v, 0);
    assert forall|i: u32| valid_ino(i) implies #[trigger] inode_at(d2, i) == inode_at(d, i) by {
        lemma_inode_block_range(i);
    }
}

/// Replacing a block of the data area changes no bitmap and no record.
pub proof fn lemma_update_data_block(d: Disk, b: u32, block: Seq<u8>)
    requires
        disk_wf(d),
        valid_ptr(b),
        block.len() == BLOCK_SIZE,
    ensures
        disk_wf(d.update(b as int, block)),
        forall|i: u32| valid_ino(i) ==> #[trigger] inode_at(d.update(b as int, block), i) == inode_at(d, i),
{
    let d2 = d.update(b as int, block);
    assert forall|i: u32| valid_ino(i) implies #[trigger] inode_at(d2, i) == inode_at(d, i) by {
        lemma_inode_block_range(i);
    }
}

/// The names `.` and `..` are stored whole.
pub proof fn lemma_dot_names()
    ensures
        storable_name(dot()),
        storable_name(dotdot()),
        cut_name(dot()) == dot(),
        cut_name(dotdot()) == dotdot(),
        dot() != dotdot(),
{
}

/// What the block of a directory that was just made holds.
pub proof fn lemma_fresh_dir_block(me: u32, parent: u32)
    ensures
        fresh_dir_block(me, parent).len() == BLOCK_SIZE,
        slot_ino(fresh_dir_block(me, parent), 0) == me,
        slot_name(fresh_dir_block(me, parent), 0) == dot(),
        slot_ino(fresh_dir_block(me, parent), 1) == parent,
        slot_name(fresh_dir_block(me, parent), 1) == dotdot(),
        forall|s: int|
            2 <= s < ENTRIES_PER_BLOCK ==> #[trigger] slot_ino(fresh_dir_block(me, parent), s) == 0,
{
    lemma_dot_names();
    let z = zero_block();
    let b1 = with_entry(z, 0, me, dot());
    let b2 = with_entry(b1, 1, parent, dotdot());
    lemma_with_entry(z, 0, me, dot(), 0);
    lemma_with_entry(b1, 1, parent, dotdot(), 0);
    lemma_with_entry(b1, 1, parent, dotdot(), 1);
    lemma_entry_bytes(me, dot());
    lemma_entry_bytes(parent, dotdot());
    assert forall|s: int| 2 <= s < ENTRIES_PER_BLOCK implies #[trigger] slot_ino(b2, s) == 0 by {
        lemma_with_entry(z, 0, me, dot(), s);
        lemma_with_entry(b1, 1, parent, dotdot(), s);
        lemma_le32_zero(slot_bytes(z, s), 0);
    }
}

/// In a consistent image, what a plain name stands for in a live directory
/// is live.
pub proof fn lemma_lookup_live(d: Disk, dir: u32, name: Seq<u8>)
    requires
        consistent(d),
        live(d, dir),
        plain_name(name),
        lookup(d, dir, name) is Ok,
    ensures
        live(d, lookup(d, dir, name).unwrap()),
{
    let b = dir_block(d, dir).unwrap();
    let block = d[b as int];
    lemma_first_hit_some(block, SlotQuery::Named(name));
}

/// A walk along names of which the last is `last` ends where the lookup of
/// `last` leads from the end of the walk along the others.
pub proof fn lemma_walk_push(d: Disk, from: u32, names: Seq<Seq<u8>>, last: Seq<u8>)
    ensures
        walk(d, from, names.push(last)) == match walk(d, from, names) {
            Ok(at) => lookup(d, at, last),
            Err(e) => Err(e),
        },
    decreases names.len(),
{
    let all = names.push(last);
    if names.len() == 0 {
        match lookup(d, from, last) {
            Ok(next) => {
                assert(walk(d, next, all.drop_first()) == Ok::<u32, FsError>(next));
            },
            Err(_) => {},
        }
    } else {
        assert(all.drop_first() =~= names.drop_first().push(last));
        match lookup(d, from, names[0]) {
            Ok(next) => {
                lemma_walk_push(d, next, names.drop_first(), last);
            },
            Err(_) => {},
        }
    }
}

/// The inode that a walk has reached after its first `j` names.
pub open spec fn reached(d: Disk, from: u32, names: Seq<Seq<u8>>, j: int) -> Result<u32, FsError> {
    walk(d, from, names.take(j))
}

/// One more step of a walk: a lookup from where the walk has got to.
pub proof fn lemma_reached_step(d: Disk, from: u32, names: Seq<Seq<u8>>, j: int)
    requires
        0 <= j < names.len(),
    ensures
        reached(d, from, names, j + 1) == match reached(d, from, names, j) {
            Ok(at) => lookup(d, at, names[j]),
            Err(e) => Err(e),
        },
        reached(d, from, names, names.len() as int) == walk(d, from, names),
{
    assert(names.take(j + 1) =~= names.take(j).push(names[j]));
    assert(names.take(names.len() as int) =~= names);
    lemma_walk_push(d, from, names.take(j), names[j]);
}

/// A walk that succeeds has succeeded at every step; in a consistent
/// image, a walk along plain names from a live inode passes live inodes
/// only.
pub proof fn lemma_reached_live(d: Disk, from: u32, names: Seq<Seq<u8>>, j: int)
    requires
        consistent(d),
        live(d, from),
        plain_names(names),
        walk(d, from, names) is Ok,
        0 <= j <= names.len(),
    ensures
        reached(d, from, names, j) is Ok,
        live(d, reached(d, from, names, j).unwrap()),
        j < names.len() ==> lookup(d, reached(d, from, names, j).unwrap(), names[j]) == reached(
            d,
            from,
            names,
            j + 1,
        ),
        j < names.len() ==> reached(d, from, names, j + 1) is Ok,
    decreases names.len() - j,
{
    if j < names.len() {
        lemma_reached_live(d, from, names, j + 1);
        lemma_reached_step(d, from, names, j);
    }
    if j > 0 {
        lemma_reached_step(d, from, names, j - 1);
        lemma_reached_up_to(d, from, names, j - 1);
        lemma_lookup_live(d, reached(d, from, names, j - 1).unwrap(), names[j - 1]);
    }
}

/// A walk that succeeds has succeeded at every step, and has passed live
/// inodes only.
proof fn lemma_reached_up_to(d: Disk, from: u32, names: Seq<Seq<u8>>, j: int)
    requires
        consistent(d),
        live(d, from),
        plain_names(names),
        0 <= j <= names.len(),
        reached(d, from, names, j) is Ok,
    ensures
        live(d, reached(d, from, names, j).unwrap()),
    decreases j,
{
    if j > 0 {
        lemma_reached_step(d, from, names, j - 1);
        lemma_reached_up_to(d, from, names, j - 1);
        lemma_lookup_live(d, reached(d, from, names, j - 1).unwrap(), names[j - 1]);
    }
}

/// Where every lookup that a walk makes in one image has the same answer
/// in another, the walk ends in the same place in both.
pub proof fn lemma_walk_same(d: Disk, d2: Disk, from: u32, names: Seq<Seq<u8>>)
    requires
        forall|j: int|
            0 <= j < names.len() ==> (#[trigger] reached(d, from, names, j) matches Ok(at) ==> lookup(
                d2,
                at,
                names[j],
            ) == lookup(d, at, names[j])),
    ensures
        walk(d2, from, names) == walk(d, from, names),
{
    lemma_walk_same_up_to(d, d2, from, names, names.len() as int);
    assert(names.take(names.len() as int) =~= names);
}

proof fn lemma_walk_same_up_to(d: Disk, d2: Disk, from: u32, names: Seq<Seq<u8>>, k: int)
    requires
        0 <= k <= names.len(),
        forall|j: int|
            0 <= j < names.len() ==> (#[trigger] reached(d, from, names, j) matches Ok(at) ==> lookup(
                d2,
                at,
                names[j],
            ) == lookup(d, at, names[j])),
    ensures
        reached(d2, from, names, k) == reached(d, from, names, k),
    decreases k,
{
    if k > 0 {
        lemma_walk_same_up_to(d, d2, from, names, k - 1);
        lemma_reached_step(d, from, names, k - 1);
        lemma_reached_step(d2, from, names, k - 1);
        assert(reached(d, from, names, k - 1) is Ok ==> lookup(
            d2,
            reached(d, from, names, k - 1).unwrap(),
            names[k - 1],
        ) == lookup(d, reached(d, from, names, k - 1).unwrap(), names[k - 1]));
    }
}

/// A walk along plain names from a live inode, if it succeeds, ends at a
/// live inode.
pub proof fn lemma_walk_live(d: Disk, from: u32, names: Seq<Seq<u8>>)
    requires
        consistent(d),
        live(d, from),
        plain_names(names),
        walk(d, from, names) is Ok,
    ensures
        live(d, walk(d, from, names).unwrap()),
{
    lemma_reached_live(d, from, names, names.len() as int);
    assert(names.take(names.len() as int) =~= names);
}

/// What a plain name stands for in a live directory is linked there, by
/// the slot that holds the name.
pub proof fn lemma_lookup_link(d: Disk, dir: u32, name: Seq<u8>)
    requires
        consistent(d),
        live(d, dir),
        plain_name(name),
        lookup(d, dir, name) is Ok,
    ensures
        ({
            let block = d[inode_at(d, dir).blocks[0] as int];
            let s = find_slot(block, name).unwrap();
            &&& dir_block(d, dir) == Ok::<u32, FsError>(inode_at(d, dir).blocks[0])
            &&& find_slot(block, name) is Some
            &&& links(d, dir, s)
            &&& named_by(d, dir, s) == lookup(d, dir, name).unwrap()
            &&& slot_name(block, s) == name
        }),
{
    let block = d[inode_at(d, dir).blocks[0] as int];
    lemma_first_hit_some(block, SlotQuery::Named(name));
}

/// In a consistent image no two paths of plain names lead to the same
/// inode: walks from the root that end in the same place went along the
/// same names.
pub proof fn lemma_walk_unique(d: Disk, a: Seq<Seq<u8>>, b: Seq<Seq<u8>>)
    requires
        consistent(d),
        plain_names(a),
        plain_names(b),
        walk(d, ROOT_INO, a) is Ok,
        walk(d, ROOT_INO, b) == walk(d, ROOT_INO, a),
    ensures
        a == b,
    decreases a.len() + b.len(),
{
    if a.len() == 0 && b.len() == 0 {
        assert(a =~= b);
    } else if a.len() == 0 {
        lemma_walk_ends_off_root(d, b);
    } else if b.len() == 0 {
        lemma_walk_ends_off_root(d, a);
    } else {
        let a0 = a.drop_last();
        let b0 = b.drop_last();
        assert(a =~= a0.push(a.last()));
        assert(b =~= b0.push(b.last()));
        lemma_walk_push(d, ROOT_INO, a0, a.last());
        lemma_walk_push(d, ROOT_INO, b0, b.last());
        lemma_walk_live(d, ROOT_INO, a0);
        lemma_walk_live(d, ROOT_INO, b0);
        let ya = walk(d, ROOT_INO, a0).unwrap();
        let yb = walk(d, ROOT_INO, b0).unwrap();
        lemma_lookup_link(d, ya, a.last());
        lemma_lookup_link(d, yb, b.last());
        lemma_walk_unique(d, a0, b0);
    }
}

/// A walk from the root along at least one plain name does not end at the
/// root.
proof fn lemma_walk_ends_off_root(d: Disk, names: Seq<Seq<u8>>)
    requires
        consistent(d),
        plain_names(names),
        names.len() > 0,
        walk(d, ROOT_INO, names) is Ok,
    ensures
        walk(d, ROOT_INO, names).unwrap() != ROOT_INO,
{
    let before = names.drop_last();
    assert(names =~= before.push(names.last()));
    lemma_walk_push(d, ROOT_INO, before, names.last());
    lemma_walk_live(d, ROOT_INO, before);
    let at = walk(d, ROOT_INO, before).unwrap();
    lemma_lookup_link(d, at, names.last());
}

/// A path of plain names resolves to a live inode.
pub proof fn lemma_resolve_live(d: Disk, path: Seq<u8>)
    requires
        consistent(d),
        plain_path(path),
        resolve(d, path) is Ok,
    ensures
        live(d, resolve(d, path).unwrap()),
{
    let names = components(path);
    lemma_reached_live(d, ROOT_INO, names, names.len() as int);
    assert(names.take(names.len() as int) =~= names);
}

/// Links stay unique where one link is replaced by another to the same
/// inode.
pub proof fn lemma_links_moved(d: Disk, d2: Disk, p: u32, s0: int, q: u32, s1: int, x: u32)
    requires
        links_unique(d),
        links(d, p, s0),
        named_by(d, p, s0) == x,
        forall|i: u32, s: int|
            #[trigger] links(d2, i, s) && !(i == q && s == s1) ==> links(d, i, s) && named_by(
                d2,
                i,
                s,
            ) == named_by(d, i, s) && !(i == p && s == s0),
        links(d2, q, s1) ==> named_by(d2, q, s1) == x,
    ensures
        links_unique(d2),
{
    assert forall|i: u32, s: int, j: u32, t: int|
        #![trigger links(d2, i, s), links(d2, j, t)]
        links(d2, i, s) && links(d2, j, t) && named_by(d2, i, s) == named_by(d2, j, t) implies i == j
        && s == t by {
    }
    assert forall|i: u32, s: int| #[trigger] links(d2, i, s) implies named_by(d2, i, s) != ROOT_INO by {
    }
}

/// In a sound image, what a link names is live.
pub proof fn lemma_linked_is_live(d: Disk, i: u32, s: int)
    requires
        sound(d),
        links(d, i, s),
    ensures
        live(d, named_by(d, i, s)),
{
}

/// A formatted image is a consistent filesystem.
pub proof fn lemma_format_consistent(d: Disk)
    requires
        disk_wf(d),
    ensures
        consistent(format_spec(d)),
{
    let f = format_spec(d);
    lemma_fresh_dir_block(ROOT_INO, ROOT_INO);
    assert forall|i: u32| #[trigger] live(f, i) implies i == ROOT_INO by {
        let j: u8 = (i as int % 8) as u8;
        if i >= 8 {
            lemma_zero_byte(j);
        } else {
            assert(bit_of(0x03u8, j) ==> j <= 1) by (bit_vector)
                requires
                    j < 8,
            ;
        }
    }
    assert(bit_of(0x03u8, 1u8)) by (bit_vector);
    assert(bit_of(0x07u8, 2u8)) by (bit_vector);
    lemma_inode_block_range(ROOT_INO);
    assert(inode_bytes(f, ROOT_INO) =~= encode_inode(dir_inode(DATA_AREA_START)));
    law_inode_round_trip(dir_inode(DATA_AREA_START));
    assert forall|i: u32, s: int| !#[trigger] links(f, i, s) by {
    }
}

} // verus!

//! What moving changes in a consistent image: an entry is added, an entry
//! is zeroed, and a moved directory's `..` is pointed at its new parent.
//! Records and bitmaps stay as they are.

use vstd::prelude::*;
use crate::consistency::{
    consistent, dir_ok, lemma_dot_names, lemma_links_kept, lemma_links_moved, lemma_resolve_live,
    lemma_update_data_block, links, live, named_by, record_ok, sound,
};
use crate::device::{Disk, disk_wf};
use crate::directory::{
    dir_block, ENTRIES_PER_BLOCK, find_slot, free_slot, insert, lemma_first_hit_some,
    lemma_insert_then_find, lemma_with_entry_slots, lemma_without_entry_slots, remove, slot_ino,
    SlotQuery, with_entry, without_entry,
};
use crate::effects::{
    lemma_entry_keeps_dir, lemma_parent_plain, lemma_resolve_through_parent, names_entry,
};
use crate::error::FsError;
use crate::inode_table::{inode_at, valid_ino, valid_ptr};
use crate::layout::{
    DATA_AREA_START, DATA_BITMAP_BLOCK, INODE_BITMAP_BLOCK, InodeType, TOTAL_BLOCKS,
};
use crate::model::{lemma_set_slot_ino, mv_spec, relink, set_slot_ino};
use crate::path::{dot, dotdot, plain_name, plain_path, split_parent_or_root};
use crate::resolve::resolve;

verus! {

/// The later image has the bitmaps and the records of the earlier one.
pub open spec fn same_meta(d: Disk, d2: Disk) -> bool {
    &&& disk_wf(d2)
    &&& d2[INODE_BITMAP_BLOCK as int] == d[INODE_BITMAP_BLOCK as int]
    &&& d2[DATA_BITMAP_BLOCK as int] == d[DATA_BITMAP_BLOCK as int]
    &&& forall|i: u32| valid_ino(i) ==> #[trigger] inode_at(d2, i) == inode_at(d, i)
}

/// An image with the bitmaps and the records of a sound one is sound if
/// the blocks of its live directories are.
pub proof fn lemma_same_meta_sound(d: Disk, d2: Disk)
    requires
        sound(d),
        same_meta(d, d2),
        forall|i: u32|
            #[trigger] live(d, i) && inode_at(d, i).mode == InodeType::Directory ==> dir_ok(d2, i),
    ensures
        sound(d2),
{
    assert forall|i: u32| #[trigger] live(d2, i) implies record_ok(d2, i) by {
        assert(live(d, i));
    }
    assert forall|i: u32, j: u32|
        #![trigger live(d2, i), live(d2, j)]
        live(d2, i) && live(d2, j) && i != j && inode_at(d2, i).blocks[0] != 0 implies inode_at(
        d2,
        i,
    ).blocks[0] != inode_at(d2, j).blocks[0] by {
        assert(live(d, i) && live(d, j));
    }
    assert forall|i: u32| #[trigger] live(d2, i) && inode_at(d2, i).mode == InodeType::Directory implies dir_ok(
        d2,
        i,
    ) by {
        assert(live(d, i));
    }
}

/// Putting an entry for a live inode into a live directory leaves a sound
/// image sound, and changes one slot of one block.
pub proof fn lemma_insert_step(d: Disk, q: u32, x: u32, name: Seq<u8>)
    requires
        sound(d),
        live(d, q),
        live(d, x),
        insert(d, q, x, name) is Ok,
    ensures
        ({
            let d1 = insert(d, q, x, name).unwrap();
            let qb = dir_block(d, q).unwrap();
            let s1 = free_slot(d[qb as int]).unwrap();
            &&& same_meta(d, d1)
            &&& sound(d1)
            &&& valid_ptr(qb)
            &&& 2 <= s1 < ENTRIES_PER_BLOCK
            &&& slot_ino(d[qb as int], s1) == 0
            &&& d1[qb as int] == with_entry(d[qb as int], s1, x, name)
            &&& forall|y: int|
                DATA_AREA_START <= y < TOTAL_BLOCKS && y != qb ==> #[trigger] d1[y] == d[y]
        }),
{
    let d1 = insert(d, q, x, name).unwrap();
    let qb = dir_block(d, q).unwrap();
    let s1 = free_slot(d[qb as int]).unwrap();
    lemma_first_hit_some(d[qb as int], SlotQuery::Free);
    lemma_with_entry_slots(d[qb as int], s1, x, name);
    lemma_update_data_block(d, qb, with_entry(d[qb as int], s1, x, name));
    assert forall|i: u32|
        #[trigger] live(d, i) && inode_at(d, i).mode == InodeType::Directory implies dir_ok(d1, i) by {
        lemma_entry_keeps_dir(d, d1, i, qb, s1, x, name);
    }
    lemma_same_meta_sound(d, d1);
}

/// Zeroing the first entry of a live directory under a name other than `.`
/// and `..` leaves a sound image sound, and changes at most one slot of one
/// block.
pub proof fn lemma_remove_step(d: Disk, p: u32, name: Seq<u8>)
    requires
        sound(d),
        live(d, p),
        name != dot(),
        name != dotdot(),
    ensures
        ({
            let d2 = remove(d, p, name);
            &&& same_meta(d, d2)
            &&& sound(d2)
            &&& match dir_block(d, p) {
                Ok(pb) => match find_slot(d[pb as int], name) {
                    Some(f) => {
                        &&& 2 <= f < ENTRIES_PER_BLOCK
                        &&& d2[pb as int] == without_entry(d[pb as int], f)
                        &&& forall|y: int|
                            DATA_AREA_START <= y < TOTAL_BLOCKS && y != pb ==> #[trigger] d2[y]
                                == d[y]
                    },
                    None => d2 == d,
                },
                Err(_) => d2 == d,
            }
        }),
{
    let d2 = remove(d, p, name);
    if dir_block(d, p) is Ok {
        let pb = dir_block(d, p).unwrap();
        if find_slot(d[pb as int], name) is Some {
            let f = find_slot(d[pb as int], name).unwrap();
            lemma_first_hit_some(d[pb as int], SlotQuery::Named(name));
            lemma_without_entry_slots(d[pb as int], f);
            lemma_update_data_block(d, pb, without_entry(d[pb as int], f));
            assert forall|i: u32|
                #[trigger] live(d, i) && inode_at(d, i).mode == InodeType::Directory implies dir_ok(
                d2,
                i,
            ) by {
                let bi = inode_at(d, i).blocks[0];
                let before = d[bi as int];
                let after = d2[bi as int];
                assert forall|s: int|
                    2 <= s < ENTRIES_PER_BLOCK && slot_ino(after, s) != 0 implies live(
                    d2,
                    #[trigger] slot_ino(after, s),
                ) by {
                    assert(live(d, slot_ino(before, s)));
                }
            }
            lemma_same_meta_sound(d, d2);
        }
    }
}

/// Pointing the `..` of a moved directory at a live inode leaves a sound
/// image sound, and changes the inode number of one slot of one block.
pub proof fn lemma_relink_step(d: Disk, x: u32, q: u32)
    requires
        sound(d),
        live(d, x),
        valid_ino(q),
    ensures
        ({
            let d3 = relink(d, inode_at(d, x), q);
            let bx = inode_at(d, x).blocks[0];
            &&& same_meta(d, d3)
            &&& sound(d3)
            &&& inode_at(d, x).mode != InodeType::Directory ==> d3 == d
            &&& inode_at(d, x).mode == InodeType::Directory ==> d3[bx as int] == set_slot_ino(
                d[bx as int],
                1,
                q,
            )
            &&& forall|y: int|
                DATA_AREA_START <= y < TOTAL_BLOCKS && y != bx ==> #[trigger] d3[y] == d[y]
        }),
{
    let d3 = relink(d, inode_at(d, x), q);
    let bx = inode_at(d, x).blocks[0];
    if inode_at(d, x).mode == InodeType::Directory {
        lemma_set_slot_ino(d[bx as int], 1, q);
        lemma_update_data_block(d, bx, set_slot_ino(d[bx as int], 1, q));
        assert forall|i: u32|
            #[trigger] live(d, i) && inode_at(d, i).mode == InodeType::Directory implies dir_ok(d3, i) by {
            let bi = inode_at(d, i).blocks[0];
            let before = d[bi as int];
            let after = d3[bi as int];
            assert forall|s: int|
                2 <= s < ENTRIES_PER_BLOCK && slot_ino(after, s) != 0 implies live(
                d3,
                #[trigger] slot_ino(after, s),
            ) by {
                assert(live(d, slot_ino(before, s)));
            }
        }
        lemma_same_meta_sound(d, d3);
    }
}

/// The three images that a move passes through: after the entry was
/// added, after the old entry was zeroed, and after the `..` was pointed at
/// the new parent.
pub open spec fn mv_stages(d: Disk, src: Seq<u8>, dst: Seq<u8>) -> (Disk, Disk, Disk) {
    let x = resolve(d, src).unwrap();
    let q = resolve(d, split_parent_or_root(dst).0).unwrap();
    let p = resolve(d, split_parent_or_root(src).0).unwrap();
    let d1 = insert(d, q, x, split_parent_or_root(dst).1).unwrap();
    let d2 = remove(d1, p, split_parent_or_root(src).1);
    (d1, d2, relink(d2, inode_at(d, x), q))
}

/// What moving changes, stage by stage. Every stage is sound and has the
/// bitmaps and the records of the image before.
pub proof fn lemma_mv_effect(d: Disk, src: Seq<u8>, dst: Seq<u8>)
    requires
        consistent(d),
        plain_path(src),
        plain_path(dst),
        names_entry(src),
        mv_spec(d, src, dst) is Ok,
    ensures
        ({
            let x = resolve(d, src).unwrap();
            let q = resolve(d, split_parent_or_root(dst).0).unwrap();
            let p = resolve(d, split_parent_or_root(src).0).unwrap();
            let sname = split_parent_or_root(src).1;
            let dname = split_parent_or_root(dst).1;
            let (d1, d2, d3) = mv_stages(d, src, dst);
            let qb = dir_block(d, q).unwrap();
            let pb = dir_block(d, p).unwrap();
            let s1 = free_slot(d[qb as int]).unwrap();
            let s0 = find_slot(d[pb as int], sname).unwrap();
            let f = find_slot(d1[pb as int], sname).unwrap();
            let bx = inode_at(d, x).blocks[0];
            &&& mv_spec(d, src, dst) == Ok::<Disk, FsError>(d3)
            &&& live(d, x) && live(d, q) && live(d, p)
            &&& plain_name(sname)
            &&& dir_block(d, q) is Ok && dir_block(d, p) is Ok
            &&& find_slot(d[pb as int], sname) is Some
            &&& links(d, p, s0) && named_by(d, p, s0) == x
            &&& same_meta(d, d1) && same_meta(d, d2) && same_meta(d, d3)
            &&& sound(d1) && sound(d2) && sound(d3)
            &&& 2 <= s1 < ENTRIES_PER_BLOCK && slot_ino(d[qb as int], s1) == 0
            &&& d1[qb as int] == with_entry(d[qb as int], s1, x, dname)
            &&& forall|y: int|
                DATA_AREA_START <= y < TOTAL_BLOCKS && y != qb ==> #[trigger] d1[y] == d[y]
            &&& find_slot(d1[pb as int], sname) is Some
            &&& f == s0 || (f == s1 && pb == qb)
            &&& d2[pb as int] == without_entry(d1[pb as int], f)
            &&& forall|y: int|
                DATA_AREA_START <= y < TOTAL_BLOCKS && y != pb ==> #[trigger] d2[y] == d1[y]
            &&& inode_at(d, x).mode != InodeType::Directory ==> d3 == d2
            &&& inode_at(d, x).mode == InodeType::Directory ==> valid_ptr(bx) && d3[bx as int]
                == set_slot_ino(d2[bx as int], 1, q)
            &&& forall|y: int|
                DATA_AREA_START <= y < TOTAL_BLOCKS && y != bx ==> #[trigger] d3[y] == d2[y]
        }),
{
    let x = resolve(d, src).unwrap();
    let (dpp, dname) = split_parent_or_root(dst);
    let (spp, sname) = split_parent_or_root(src);
    let q = resolve(d, dpp).unwrap();
    let p = resolve(d, spp).unwrap();
    let (d1, d2, d3) = mv_stages(d, src, dst);
    lemma_parent_plain(src);
    lemma_parent_plain(dst);
    lemma_resolve_live(d, src);
    lemma_resolve_live(d, dpp);
    lemma_resolve_live(d, spp);
    lemma_resolve_through_parent(d, src);
    let qb = dir_block(d, q).unwrap();
    let pb = dir_block(d, p).unwrap();
    lemma_first_hit_some(d[pb as int], SlotQuery::Named(sname));
    lemma_dot_names();
    lemma_insert_step(d, q, x, dname);
    let s1 = free_slot(d[qb as int]).unwrap();
    if pb == qb {
        lemma_insert_then_find(d[pb as int], s1, x, dname, sname);
    }
    lemma_remove_step(d1, p, sname);
    lemma_relink_step(d2, x, q);
}

/// Moving leaves a consistent image consistent.
pub proof fn lemma_mv_consistent(d: Disk, src: Seq<u8>, dst: Seq<u8>)
    requires
        consistent(d),
        plain_path(src),
        plain_path(dst),
        names_entry(src),
        mv_spec(d, src, dst) is Ok,
    ensures
        consistent(mv_spec(d, src, dst).unwrap()),
{
    let x = resolve(d, src).unwrap();
    let q = resolve(d, split_parent_or_root(dst).0).unwrap();
    let p = resolve(d, split_parent_or_root(src).0).unwrap();
    let sname = split_parent_or_root(src).1;
    let dname = split_parent_or_root(dst).1;
    let (d1, d2, d3) = mv_stages(d, src, dst);
    let qb = dir_block(d, q).unwrap();
    let pb = dir_block(d, p).unwrap();
    let s1 = free_slot(d[qb as int]).unwrap();
    let s0 = find_slot(d[pb as int], sname).unwrap();
    let f = find_slot(d1[pb as int], sname).unwrap();
    let bx = inode_at(d, x).blocks[0];
    lemma_mv_effect(d, src, dst);
    lemma_with_entry_slots(d[qb as int], s1, x, dname);
    lemma_without_entry_slots(d1[pb as int], f);
    if inode_at(d, x).mode == InodeType::Directory {
        lemma_set_slot_ino(d2[bx as int], 1, q);
    }
    assert forall|i: u32, s: int|
        live(d, i) && inode_at(d, i).mode == InodeType::Directory && 2 <= s < ENTRIES_PER_BLOCK implies #[trigger] named_by(
        d3,
        i,
        s,
    ) == (if i == p && s == f {
        0
    } else if i == q && s == s1 {
        x
    } else {
        named_by(d, i, s)
    }) by {
    }
    if f == s0 {
        assert forall|i: u32, s: int|
            #[trigger] links(d3, i, s) && !(i == q && s == s1) implies links(d, i, s) && named_by(
            d3,
            i,
            s,
        ) == named_by(d, i, s) && !(i == p && s == s0) by {
        }
        assert(links(d3, q, s1) ==> named_by(d3, q, s1) == x);
        lemma_links_moved(d, d3, p, s0, q, s1, x);
    } else {
        assert forall|i: u32, s: int| #[trigger] links(d3, i, s) implies links(d, i, s) && named_by(
            d3,
            i,
            s,
        ) == named_by(d, i, s) by {
        }
        lemma_links_kept(d, d3);
    }
}

} // verus!

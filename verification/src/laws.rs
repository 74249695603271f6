//! Laws that relate the operations to one another, proved from what the
//! operations mean on a consistent image.

use vstd::prelude::*;
use vstd::utf8::*;
use crate::allocator::{next_block, next_inode, set_bitmap};
use crate::consistency::{
    consistent, lemma_fresh_dir_block, lemma_inode_block_range, lemma_reached_live,
    lemma_reached_step, lemma_resolve_live, lemma_set_bitmap, lemma_update_data_block,
    lemma_walk_same, lemma_walk_unique, live, reached, record_ok,
};
use crate::device::{Disk, disk_wf};
use crate::directory::{
    dir_block, entries, ENTRIES_PER_BLOCK, find_slot, free_slot, lemma_first_hit_some,
    lemma_insert_found, lemma_live_count, lemma_remove_found, lemma_with_entry_slots, lookup,
    name_is_unique, slot_bytes, slot_hit, slot_ino, slot_name, SlotQuery, with_entry,
};
use crate::effects::{
    lemma_mkdir_effect, lemma_parent_plain, lemma_resolve_through_parent, lemma_rm_effect,
    lemma_touch_consistent, lemma_touch_effect, lemma_write_consistent, lemma_write_effect,
    names_entry, write_target,
};
use crate::error::FsError;
use crate::inode_table::{inode_at, inode_of, lemma_with_inode, mode_of, with_inode};
use crate::layout::{
    BLOCK_SIZE, DATA_BITMAP_BLOCK, DIRECT_POINTERS, INODE_BITMAP_BLOCK, InodeType, InodeView,
    ROOT_INO, storable_name,
};
use crate::model::{
    cat_spec, copied_bytes, cp_spec, dir_inode, empty_file, file_data, format_spec, fresh_dir_block,
    list_spec, ListingView, mkdir_spec, mv_spec, pointers_ok, release_blocks, rm_spec, touch_spec,
    write_spec, written_len,
};
use crate::moving::{lemma_mv_effect, mv_stages};
use crate::path::{
    components, dot, dotdot, plain_name, plain_names, plain_path, split_parent,
    split_parent_or_root,
};
use crate::resolve::{resolve, walk};
use crate::text::text_of;

verus! {

/// A write to a file changes what no path of plain names resolves to.
pub proof fn lemma_write_keeps_resolve(d: Disk, path: Seq<u8>, content: Seq<u8>, other: Seq<u8>)
    requires
        consistent(d),
        plain_path(path),
        write_spec(d, path, content) is Ok,
        plain_path(other),
        resolve(d, other) is Ok,
    ensures
        resolve(write_spec(d, path, content).unwrap(), other) == resolve(d, other),
{
    let d2 = write_spec(d, path, content).unwrap();
    lemma_write_effect(d, path, content);
    let names = components(other);
    assert forall|j: int| 0 <= j < names.len() implies (#[trigger] reached(d, ROOT_INO, names, j) matches Ok(
        at,
    ) ==> lookup(d2, at, names[j]) == lookup(d, at, names[j])) by {
        lemma_reached_live(d, ROOT_INO, names, j);
    }
    lemma_walk_same(d, d2, ROOT_INO, names);
}

/// Reading a file right after writing it gives what was written: the whole
/// content where it fits into one block, and its first block's worth where
/// it does not.
pub proof fn law_write_then_cat(d: Disk, path: Seq<u8>, content: Seq<u8>)
    requires
        consistent(d),
        plain_path(path),
        write_spec(d, path, content) is Ok,
    ensures
        content.len() <= BLOCK_SIZE ==> cat_spec(write_spec(d, path, content).unwrap(), path) == Ok::<
            Seq<u8>,
            FsError,
        >(content),
        content.len() > BLOCK_SIZE ==> cat_spec(write_spec(d, path, content).unwrap(), path) == Ok::<
            Seq<u8>,
            FsError,
        >(content.take(BLOCK_SIZE as int)),
{
    let d2 = write_spec(d, path, content).unwrap();
    let ino = resolve(d, path).unwrap();
    lemma_write_effect(d, path, content);
    lemma_write_keeps_resolve(d, path, content, path);
    let b = write_target(d, inode_at(d, ino));
    let n = written_len(content);
    if content.len() <= BLOCK_SIZE {
        if n > 0 {
            assert(d2[b as int].subrange(0, n) =~= content);
        } else {
            assert(content =~= Seq::<u8>::empty());
        }
    } else {
        assert(d2[b as int].subrange(0, n) =~= content.take(BLOCK_SIZE as int));
    }
}

/// Text that was written as UTF-8 reads back as the same text.
pub proof fn law_text_round_trip(text: Seq<char>)
    ensures
        text_of(encode_utf8(text)) == text,
{
    encode_utf8_valid_utf8(text);
    encode_utf8_decode_utf8(text);
}

/// Reading a file as text right after text was written to it gives the
/// text back, where its UTF-8 form fits into one block.
pub proof fn law_write_then_cat_text(d: Disk, path: Seq<u8>, text: Seq<char>)
    requires
        consistent(d),
        plain_path(path),
        encode_utf8(text).len() <= BLOCK_SIZE,
        write_spec(d, path, encode_utf8(text)) is Ok,
    ensures
        cat_spec(write_spec(d, path, encode_utf8(text)).unwrap(), path) is Ok,
        text_of(cat_spec(write_spec(d, path, encode_utf8(text)).unwrap(), path).unwrap()) == text,
{
    law_write_then_cat(d, path, encode_utf8(text));
    law_text_round_trip(text);
}

/// The listing of a block in which only the first two slots are live.
proof fn lemma_entries_of_two(d: Disk, block: Seq<u8>, n: int)
    requires
        2 <= n <= ENTRIES_PER_BLOCK,
        slot_ino(block, 0) != 0,
        slot_ino(block, 1) != 0,
        forall|s: int| 2 <= s < ENTRIES_PER_BLOCK ==> #[trigger] slot_ino(block, s) == 0,
    ensures
        entries(d, block, n) == seq![
            (slot_name(block, 0), mode_of(d, slot_ino(block, 0))),
            (slot_name(block, 1), mode_of(d, slot_ino(block, 1))),
        ],
    decreases n,
{
    if n > 2 {
        lemma_entries_of_two(d, block, n - 1);
    } else {
        reveal_with_fuel(entries, 3);
        assert(entries(d, block, 2) =~= seq![
            (slot_name(block, 0), mode_of(d, slot_ino(block, 0))),
            (slot_name(block, 1), mode_of(d, slot_ino(block, 1))),
        ]);
    }
}

/// After a directory was made, its path resolves to the new inode, and
/// the path of its parent to what it resolved to before.
proof fn lemma_mkdir_makes(d: Disk, path: Seq<u8>)
    requires
        consistent(d),
        plain_path(path),
        mkdir_spec(d, path) is Ok,
        names_entry(path),
        storable_name(split_parent_or_root(path).1),
    ensures
        resolve(mkdir_spec(d, path).unwrap(), path) == Ok::<u32, FsError>(next_inode(d).unwrap()),
        resolve(mkdir_spec(d, path).unwrap(), split_parent_or_root(path).0) == resolve(
            d,
            split_parent_or_root(path).0,
        ),
{
    let d2 = mkdir_spec(d, path).unwrap();
    let (pp, name) = split_parent(path).unwrap();
    let parent = resolve(d, pp).unwrap();
    let pb = dir_block(d, parent).unwrap();
    let ino = next_inode(d).unwrap();
    lemma_mkdir_effect(d, path);
    lemma_parent_plain(path);
    let names = components(pp);
    assert forall|j: int| 0 <= j < names.len() implies (#[trigger] reached(d, ROOT_INO, names, j) matches Ok(
        at,
    ) ==> lookup(d2, at, names[j]) == lookup(d, at, names[j])) by {
        lemma_reached_live(d, ROOT_INO, names, j);
        let at = reached(d, ROOT_INO, names, j).unwrap();
        if dir_block(d, at).unwrap() == pb {
            lemma_insert_found(d[pb as int], ino, name, names[j]);
        }
    }
    lemma_walk_same(d, d2, ROOT_INO, names);
    lemma_resolve_through_parent(d2, path);
    lemma_insert_found(d[pb as int], ino, name, name);
}

/// A directory that was just made lists exactly `.` and `..`, both
/// directories. The path's last name must be one that an entry stores
/// whole.
pub proof fn law_mkdir_then_list(d: Disk, path: Seq<u8>)
    requires
        consistent(d),
        plain_path(path),
        mkdir_spec(d, path) is Ok,
        names_entry(path),
        storable_name(split_parent_or_root(path).1),
    ensures
        list_spec(mkdir_spec(d, path).unwrap(), path) == Ok::<ListingView, FsError>(
            ListingView::Directory(
                seq![(dot(), InodeType::Directory), (dotdot(), InodeType::Directory)],
            ),
        ),
{
    let d2 = mkdir_spec(d, path).unwrap();
    let parent = resolve(d, split_parent(path).unwrap().0).unwrap();
    let ino = next_inode(d).unwrap();
    lemma_mkdir_effect(d, path);
    lemma_mkdir_makes(d, path);
    lemma_fresh_dir_block(ino, parent);
    lemma_entries_of_two(d2, fresh_dir_block(ino, parent), ENTRIES_PER_BLOCK as int);
}

/// Making a directory where one was just made is refused: the name is
/// taken. Nothing is made a second time.
pub proof fn law_mkdir_twice(d: Disk, path: Seq<u8>)
    requires
        consistent(d),
        plain_path(path),
        mkdir_spec(d, path) is Ok,
        names_entry(path),
        storable_name(split_parent_or_root(path).1),
    ensures
        mkdir_spec(mkdir_spec(d, path).unwrap(), path) == Err::<Disk, FsError>(
            FsError::AlreadyExists,
        ),
{
    let (pp, name) = split_parent(path).unwrap();
    let parent = resolve(d, pp).unwrap();
    let pb = dir_block(d, parent).unwrap();
    lemma_mkdir_effect(d, path);
    lemma_mkdir_makes(d, path);
    lemma_insert_found(d[pb as int], next_inode(d).unwrap(), name, name);
}

/// Formatting twice gives what formatting once gives.
pub proof fn law_format_is_idempotent(d: Disk)
    requires
        disk_wf(d),
    ensures
        format_spec(format_spec(d)) == format_spec(d),
{
}

/// The entry that the path names is the only one of its name in its
/// directory.
pub open spec fn entry_is_unique(d: Disk, path: Seq<u8>) -> bool {
    match resolve(d, split_parent_or_root(path).0) {
        Ok(parent) => match dir_block(d, parent) {
            Ok(pb) => name_is_unique(d[pb as int], split_parent_or_root(path).1),
            Err(_) => true,
        },
        Err(_) => true,
    }
}

/// After a path was removed, it resolves to nothing. The path must name an
/// entry that is the only one of its name in its directory.
pub proof fn law_rm_then_resolve(d: Disk, path: Seq<u8>)
    requires
        consistent(d),
        plain_path(path),
        names_entry(path),
        entry_is_unique(d, path),
        rm_spec(d, path) is Ok,
    ensures
        resolve(rm_spec(d, path).unwrap(), path) == Err::<u32, FsError>(FsError::NotFound),
{
    let d2 = rm_spec(d, path).unwrap();
    let (pp, name) = split_parent_or_root(path);
    let parent = resolve(d, pp).unwrap();
    let pb = dir_block(d, parent).unwrap();
    let slot = find_slot(d[pb as int], name).unwrap();
    lemma_rm_effect(d, path);
    lemma_parent_plain(path);
    lemma_first_hit_some(d[pb as int], SlotQuery::Named(name));
    let names = components(pp);
    assert forall|j: int| 0 <= j < names.len() implies (#[trigger] reached(d, ROOT_INO, names, j) matches Ok(
        at,
    ) ==> lookup(d2, at, names[j]) == lookup(d, at, names[j])) by {
        lemma_reached_live(d, ROOT_INO, names, j);
        lemma_reached_step(d, ROOT_INO, names, j);
        let at = reached(d, ROOT_INO, names, j).unwrap();
        let bi = dir_block(d, at).unwrap();
        if bi == pb {
            lemma_remove_found(d[pb as int], name, names[j]);
            if names[j] == name {
                // the walk passes the inode that is removed, and goes on from it
                if j + 1 < names.len() {
                    lemma_reached_live(d, ROOT_INO, names, j + 1);
                    lemma_removed_is_passed_by_nothing(d, path, names[j + 1]);
                } else {
                    lemma_removed_is_passed_by_nothing(d, path, name);
                }
            }
        }
    }
    lemma_walk_same(d, d2, ROOT_INO, names);
    lemma_resolve_through_parent(d2, path);
    lemma_remove_found(d[pb as int], name, name);
    assert forall|t: int| 0 <= t < ENTRIES_PER_BLOCK && t != slot implies !slot_hit(
        d[pb as int],
        t,
        SlotQuery::Named(name),
    ) by {
    }
}

/// What can be removed holds no entry under a plain name: it is a file, or
/// a directory with no entry but `.` and `..`.
proof fn lemma_removed_is_passed_by_nothing(d: Disk, path: Seq<u8>, q: Seq<u8>)
    requires
        consistent(d),
        plain_path(path),
        names_entry(path),
        rm_spec(d, path) is Ok,
        plain_name(q),
    ensures
        lookup(d, resolve(d, path).unwrap(), q) is Err,
{
    let ino = resolve(d, path).unwrap();
    lemma_resolve_live(d, path);
    if lookup(d, ino, q) is Ok {
        let b = dir_block(d, ino).unwrap();
        let block = d[b as int];
        lemma_first_hit_some(block, SlotQuery::Named(q));
        let s = find_slot(block, q).unwrap();
        lemma_live_count(block, 1, 0);
        lemma_live_count(block, 2, 1);
        lemma_live_count(block, s + 1, s);
        if s > 2 {
            lemma_live_count(block, s, 2);
        }
        if s + 1 < ENTRIES_PER_BLOCK {
            lemma_live_count(block, ENTRIES_PER_BLOCK as int, s + 1);
        }
    }
}

/// Making a file under a new name changes what no path of plain names
/// resolves to, and the new path resolves to the new inode.
pub proof fn lemma_touch_keeps_resolve(d: Disk, path: Seq<u8>, other: Seq<u8>)
    requires
        consistent(d),
        plain_path(path),
        names_entry(path),
        storable_name(split_parent_or_root(path).1),
        resolve(d, path) is Err,
        touch_spec(d, path) is Ok,
        plain_path(other),
        resolve(d, other) is Ok,
    ensures
        resolve(touch_spec(d, path).unwrap(), other) == resolve(d, other),
        resolve(touch_spec(d, path).unwrap(), path) == Ok::<u32, FsError>(next_inode(d).unwrap()),
{
    let d2 = touch_spec(d, path).unwrap();
    let (pp, name) = split_parent(path).unwrap();
    let parent = resolve(d, pp).unwrap();
    let pb = dir_block(d, parent).unwrap();
    let ino = next_inode(d).unwrap();
    lemma_touch_effect(d, path);
    lemma_parent_plain(path);
    lemma_resolve_through_parent(d, path);
    lemma_resolve_through_parent(d2, path);
    let names = components(other);
    assert forall|j: int| 0 <= j < names.len() implies (#[trigger] reached(d, ROOT_INO, names, j) matches Ok(
        at,
    ) ==> lookup(d2, at, names[j]) == lookup(d, at, names[j])) by {
        lemma_reached_live(d, ROOT_INO, names, j);
        let at = reached(d, ROOT_INO, names, j).unwrap();
        if dir_block(d, at).unwrap() == pb {
            lemma_insert_found(d[pb as int], ino, name, names[j]);
        }
    }
    lemma_walk_same(d, d2, ROOT_INO, names);
    let before = components(pp);
    assert forall|j: int| 0 <= j < before.len() implies (#[trigger] reached(d, ROOT_INO, before, j) matches Ok(
        at,
    ) ==> lookup(d2, at, before[j]) == lookup(d, at, before[j])) by {
        lemma_reached_live(d, ROOT_INO, before, j);
        let at = reached(d, ROOT_INO, before, j).unwrap();
        if dir_block(d, at).unwrap() == pb {
            lemma_insert_found(d[pb as int], ino, name, before[j]);
        }
    }
    lemma_walk_same(d, d2, ROOT_INO, before);
    lemma_insert_found(d[pb as int], ino, name, name);
}

/// Copying to a new name leaves a consistent image consistent; the source
/// and the target then resolve to different inodes.
pub proof fn lemma_cp_effect(d: Disk, src: Seq<u8>, dst: Seq<u8>)
    requires
        consistent(d),
        plain_path(src),
        plain_path(dst),
        names_entry(dst),
        storable_name(split_parent_or_root(dst).1),
        resolve(d, dst) is Err,
        cp_spec(d, src, dst).1 is Ok,
    ensures
        consistent(cp_spec(d, src, dst).0),
        resolve(cp_spec(d, src, dst).0, src) == resolve(d, src),
        resolve(cp_spec(d, src, dst).0, dst) == Ok::<u32, FsError>(next_inode(d).unwrap()),
        resolve(d, src) is Ok,
        live(d, resolve(d, src).unwrap()),
        !live(d, next_inode(d).unwrap()),
        live(cp_spec(d, src, dst).0, next_inode(d).unwrap()),
{
    let dt = touch_spec(d, dst).unwrap();
    let x = resolve(d, src).unwrap();
    let inode = inode_at(d, x);
    lemma_resolve_live(d, src);
    lemma_touch_effect(d, dst);
    lemma_touch_consistent(d, dst);
    lemma_touch_keeps_resolve(d, dst, src);
    if inode.blocks[0] != 0 {
        let bytes = copied_bytes(d[inode.blocks[0] as int].subrange(0, inode.size as int));
        lemma_write_effect(dt, dst, bytes);
        lemma_write_consistent(dt, dst, bytes);
        lemma_write_keeps_resolve(dt, dst, bytes, src);
        lemma_write_keeps_resolve(dt, dst, bytes, dst);
    }
}

/// A copy has storage of its own: writing to the source afterwards does
/// not change what the copy reads as. The copy must have been made under a
/// new name, one that an entry stores whole.
pub proof fn law_copy_is_independent(d: Disk, src: Seq<u8>, dst: Seq<u8>, content: Seq<u8>)
    requires
        consistent(d),
        plain_path(src),
        plain_path(dst),
        names_entry(dst),
        storable_name(split_parent_or_root(dst).1),
        resolve(d, dst) is Err,
        cp_spec(d, src, dst).1 is Ok,
        write_spec(cp_spec(d, src, dst).0, src, content) is Ok,
    ensures
        cat_spec(write_spec(cp_spec(d, src, dst).0, src, content).unwrap(), dst) == cat_spec(
            cp_spec(d, src, dst).0,
            dst,
        ),
{
    let d1 = cp_spec(d, src, dst).0;
    lemma_cp_effect(d, src, dst);
    lemma_write_effect(d1, src, content);
    lemma_write_keeps_resolve(d1, src, content, dst);
}

/// The names start with the names of `prefix`.
pub open spec fn starts_with(names: Seq<Seq<u8>>, prefix: Seq<Seq<u8>>) -> bool {
    prefix.len() <= names.len() && names.take(prefix.len() as int) == prefix
}

/// What a move requires for its laws: paths of plain names that name
/// entries; a source that is the only entry of its name; a target that is
/// new, under a name that an entry stores whole, and not inside the source.
pub open spec fn plain_move(d: Disk, src: Seq<u8>, dst: Seq<u8>) -> bool {
    &&& plain_path(src)
    &&& plain_path(dst)
    &&& names_entry(src)
    &&& names_entry(dst)
    &&& storable_name(split_parent_or_root(dst).1)
    &&& entry_is_unique(d, src)
    &&& resolve(d, dst) is Err
    &&& !starts_with(components(dst), components(src))
}

/// A walk that does not pass what is moved ends after the move where it
/// ended before.
proof fn lemma_mv_keeps_walk(d: Disk, src: Seq<u8>, dst: Seq<u8>, names: Seq<Seq<u8>>)
    requires
        consistent(d),
        plain_move(d, src, dst),
        mv_spec(d, src, dst) is Ok,
        plain_names(names),
        walk(d, ROOT_INO, names) is Ok,
        forall|j: int|
            0 <= j <= names.len() ==> #[trigger] reached(d, ROOT_INO, names, j) != Ok::<u32, FsError>(
                resolve(d, src).unwrap(),
            ),
    ensures
        walk(mv_spec(d, src, dst).unwrap(), ROOT_INO, names) == walk(d, ROOT_INO, names),
{
    let x = resolve(d, src).unwrap();
    let q = resolve(d, split_parent_or_root(dst).0).unwrap();
    let p = resolve(d, split_parent_or_root(src).0).unwrap();
    let sname = split_parent_or_root(src).1;
    let dname = split_parent_or_root(dst).1;
    let (d1, d2, d3) = mv_stages(d, src, dst);
    let qb = dir_block(d, q).unwrap();
    let pb = dir_block(d, p).unwrap();
    lemma_mv_effect(d, src, dst);
    lemma_resolve_through_parent(d, src);
    lemma_resolve_through_parent(d, dst);
    assert forall|j: int| 0 <= j < names.len() implies (#[trigger] reached(d, ROOT_INO, names, j) matches Ok(
        at,
    ) ==> lookup(d3, at, names[j]) == lookup(d, at, names[j])) by {
        lemma_reached_live(d, ROOT_INO, names, j);
        lemma_reached_step(d, ROOT_INO, names, j);
        let at = reached(d, ROOT_INO, names, j).unwrap();
        let name = names[j];
        let bi = dir_block(d, at).unwrap();
        if bi == qb {
            lemma_insert_found(d[qb as int], x, dname, name);
        }
        if bi == pb {
            lemma_remove_found(d1[pb as int], sname, name);
        }
    }
    lemma_walk_same(d, d3, ROOT_INO, names);
}

/// Moving keeps the identity of what is moved: the target resolves to the
/// inode that the source resolved to, whose record is as it was; the source
/// resolves to nothing; and a file reads at the target as it read at the
/// source.
pub proof fn law_mv_keeps_identity(d: Disk, src: Seq<u8>, dst: Seq<u8>)
    requires
        consistent(d),
        plain_move(d, src, dst),
        mv_spec(d, src, dst) is Ok,
    ensures
        resolve(mv_spec(d, src, dst).unwrap(), dst) == resolve(d, src),
        resolve(mv_spec(d, src, dst).unwrap(), src) == Err::<u32, FsError>(FsError::NotFound),
        inode_of(mv_spec(d, src, dst).unwrap(), resolve(d, src).unwrap()) == inode_of(
            d,
            resolve(d, src).unwrap(),
        ),
        inode_at(d, resolve(d, src).unwrap()).mode == InodeType::File ==> cat_spec(
            mv_spec(d, src, dst).unwrap(),
            dst,
        ) == cat_spec(d, src),
{
    let x = resolve(d, src).unwrap();
    let (dpp, dname) = split_parent_or_root(dst);
    let (spp, sname) = split_parent_or_root(src);
    let q = resolve(d, dpp).unwrap();
    let p = resolve(d, spp).unwrap();
    let (d1, d2, d3) = mv_stages(d, src, dst);
    let qb = dir_block(d, q).unwrap();
    let pb = dir_block(d, p).unwrap();
    let s0 = find_slot(d[pb as int], sname).unwrap();
    let bx = inode_at(d, x).blocks[0];
    lemma_mv_effect(d, src, dst);
    lemma_parent_plain(src);
    lemma_parent_plain(dst);
    lemma_resolve_through_parent(d, src);
    lemma_resolve_through_parent(d, dst);
    lemma_resolve_through_parent(d3, src);
    lemma_resolve_through_parent(d3, dst);
    let an = components(src);
    let bn = components(dst);
    let a0 = components(spp);
    let b0 = components(dpp);
    // the walk to the target's parent does not pass what is moved
    assert forall|j: int| 0 <= j <= b0.len() implies #[trigger] reached(d, ROOT_INO, b0, j) != Ok::<
        u32,
        FsError,
    >(x) by {
        if reached(d, ROOT_INO, b0, j) == Ok::<u32, FsError>(x) {
            assert forall|k: int| 0 <= k < b0.take(j).len() implies plain_name(
                #[trigger] b0.take(j)[k],
            ) by {
                assert(b0.take(j)[k] == b0[k]);
            }
            lemma_walk_unique(d, an, b0.take(j));
            assert(bn.take(j) =~= b0.take(j));
        }
    }
    lemma_mv_keeps_walk(d, src, dst, b0);
    // nor does the walk to the source's parent
    assert forall|j: int| 0 <= j <= a0.len() implies #[trigger] reached(d, ROOT_INO, a0, j) != Ok::<
        u32,
        FsError,
    >(x) by {
        if reached(d, ROOT_INO, a0, j) == Ok::<u32, FsError>(x) {
            assert forall|k: int| 0 <= k < a0.take(j).len() implies plain_name(
                #[trigger] a0.take(j)[k],
            ) by {
                assert(a0.take(j)[k] == a0[k]);
            }
            lemma_walk_unique(d, an, a0.take(j));
        }
    }
    lemma_mv_keeps_walk(d, src, dst, a0);
    assert(b0.take(b0.len() as int) =~= b0);
    assert(a0.take(a0.len() as int) =~= a0);
    assert(reached(d, ROOT_INO, b0, b0.len() as int) == Ok::<u32, FsError>(q));
    assert(reached(d, ROOT_INO, a0, a0.len() as int) == Ok::<u32, FsError>(p));
    assert(q != x && p != x);
    assert(record_ok(d, x));
    assert(record_ok(d, p));
    assert(record_ok(d, q));
    assert(live(d, q) && live(d, x));
    assert(live(d, p) && live(d, x));
    assert(live(d, p) && live(d, q));
    assert(qb != bx && pb != bx);
    assert(lookup(d, q, dname) is Err);
    assert(dname != sname || pb != qb);
    // the target's parent finds the moved inode under the new name
    lemma_insert_found(d[qb as int], x, dname, dname);
    lemma_first_hit_some(d[pb as int], SlotQuery::Named(sname));
    if pb == qb {
        lemma_insert_found(d[qb as int], x, dname, sname);
        lemma_remove_found(d1[pb as int], sname, dname);
    }
    assert(d3[qb as int] == d2[qb as int]);
    assert(lookup(d3, q, dname) == Ok::<u32, FsError>(x));
    // the source's parent finds nothing under the old name
    lemma_remove_found(d1[pb as int], sname, sname);
    assert(name_is_unique(d[pb as int], sname));
    lemma_with_entry_slots(d[qb as int], free_slot(d[qb as int]).unwrap(), x, dname);
    assert forall|t: int| 0 <= t < ENTRIES_PER_BLOCK && t != s0 implies !slot_hit(
        d1[pb as int],
        t,
        SlotQuery::Named(sname),
    ) by {
        if pb == qb && t == free_slot(d[qb as int]).unwrap() {
            assert(slot_name(d1[pb as int], t) == dname);
        } else {
            if pb == qb {
                assert(slot_bytes(d1[pb as int], t) == slot_bytes(d[pb as int], t));
            }
            if slot_hit(d[pb as int], t, SlotQuery::Named(sname)) {
                assert(slot_name(d[pb as int], t) == slot_name(d[pb as int], s0));
            }
        }
    }
    assert(d3[pb as int] == d2[pb as int]);
    assert(lookup(d3, p, sname) == Err::<u32, FsError>(FsError::NotFound));
    // a file's block is as it was
    if inode_at(d, x).mode == InodeType::File && bx != 0 {
        assert(d3[bx as int] == d[bx as int]);
    }
}

/// Releasing blocks writes the data bitmap only.
proof fn lemma_release_keeps_superblock(d: Disk, blocks: Seq<u32>, n: int)
    requires
        disk_wf(d),
        pointers_ok(blocks),
        0 <= n <= blocks.len(),
    ensures
        disk_wf(release_blocks(d, blocks, n)),
        forall|x: int|
            0 <= x < d.len() && x != DATA_BITMAP_BLOCK ==> #[trigger] release_blocks(d, blocks, n)[x]
                == d[x],
    decreases n,
{
    if n > 0 {
        lemma_release_keeps_superblock(d, blocks, n - 1);
        if blocks[n - 1] != 0 {
            lemma_set_bitmap(release_blocks(d, blocks, n - 1), DATA_BITMAP_BLOCK, blocks[n - 1], false);
        }
    }
}

/// Making a file or a directory leaves the superblock as it is, and the
/// image well formed.
proof fn lemma_making_keeps_superblock(d: Disk, path: Seq<u8>)
    requires
        disk_wf(d),
    ensures
        mkdir_spec(d, path) matches Ok(d2) ==> disk_wf(d2) && d2[0] == d[0],
        touch_spec(d, path) matches Ok(d2) ==> disk_wf(d2) && d2[0] == d[0],
{
    if split_parent(path) is Some && resolve(d, split_parent(path).unwrap().0) is Ok {
        let (pp, name) = split_parent(path).unwrap();
        let parent = resolve(d, pp).unwrap();
        if dir_block(d, parent) is Ok && next_inode(d) is Ok && free_slot(
            d[dir_block(d, parent).unwrap() as int],
        ) is Some {
            let pb = dir_block(d, parent).unwrap();
            let slot = free_slot(d[pb as int]).unwrap();
            let ino = next_inode(d).unwrap();
            lemma_first_hit_some(d[pb as int], SlotQuery::Free);
            lemma_inode_block_range(ino);
            let d1 = set_bitmap(d, INODE_BITMAP_BLOCK, ino, true);
            lemma_set_bitmap(d, INODE_BITMAP_BLOCK, ino, true);
            if touch_spec(d, path) is Ok {
                let da = with_inode(d1, ino, empty_file());
                lemma_with_inode(d1, ino, empty_file(), ino);
                lemma_with_entry_slots(da[pb as int], slot, ino, name);
                lemma_update_data_block(da, pb, with_entry(da[pb as int], slot, ino, name));
            }
            if mkdir_spec(d, path) is Ok {
                let b = next_block(d).unwrap();
                let d2 = set_bitmap(d1, DATA_BITMAP_BLOCK, b, true);
                lemma_set_bitmap(d1, DATA_BITMAP_BLOCK, b, true);
                let d3 = with_inode(d2, ino, dir_inode(b));
                lemma_with_inode(d2, ino, dir_inode(b), ino);
                lemma_fresh_dir_block(ino, parent);
                let d4 = d3.update(b as int, fresh_dir_block(ino, parent));
                lemma_update_data_block(d3, b, fresh_dir_block(ino, parent));
                lemma_with_entry_slots(d4[pb as int], slot, ino, name);
                lemma_update_data_block(d4, pb, with_entry(d4[pb as int], slot, ino, name));
            }
        }
    }
}

/// Writing to a file leaves the superblock as it is, and the image well
/// formed.
proof fn lemma_writing_keeps_superblock(d: Disk, path: Seq<u8>, content: Seq<u8>)
    requires
        disk_wf(d),
    ensures
        write_spec(d, path, content) matches Ok(d2) ==> disk_wf(d2) && d2[0] == d[0],
{
    if write_spec(d, path, content) is Ok {
        let ino = resolve(d, path).unwrap();
        let inode = inode_at(d, ino);
        let b = write_target(d, inode);
        let d1 = if inode.blocks[0] == 0 {
            set_bitmap(d, DATA_BITMAP_BLOCK, b, true)
        } else {
            d
        };
        if inode.blocks[0] == 0 {
            lemma_set_bitmap(d, DATA_BITMAP_BLOCK, b, true);
        }
        lemma_update_data_block(d1, b, file_data(content));
        lemma_inode_block_range(ino);
        let new = InodeView {
            mode: InodeType::File,
            size: written_len(content) as u32,
            blocks: inode.blocks.update(0, b),
        };
        lemma_with_inode(d1.update(b as int, file_data(content)), ino, new, ino);
    }
}

/// The superblock is written by formatting only: whatever another
/// operation does to an image, the superblock stays as it is.
pub proof fn law_superblock_is_kept(d: Disk, path: Seq<u8>, other: Seq<u8>, content: Seq<u8>)
    requires
        disk_wf(d),
    ensures
        mkdir_spec(d, path) matches Ok(d2) ==> d2[0] == d[0],
        touch_spec(d, path) matches Ok(d2) ==> d2[0] == d[0],
        write_spec(d, path, content) matches Ok(d2) ==> d2[0] == d[0],
        rm_spec(d, path) matches Ok(d2) ==> d2[0] == d[0],
        mv_spec(d, path, other) matches Ok(d2) ==> d2[0] == d[0],
        cp_spec(d, path, other).0[0] == d[0],
{
    lemma_making_keeps_superblock(d, path);
    lemma_making_keeps_superblock(d, other);
    lemma_writing_keeps_superblock(d, path, content);
    if rm_spec(d, path) is Ok {
        let ino = resolve(d, path).unwrap();
        let inode = inode_at(d, ino);
        lemma_release_keeps_superblock(d, inode.blocks, DIRECT_POINTERS as int);
        let d0 = release_blocks(d, inode.blocks, DIRECT_POINTERS as int);
        lemma_set_bitmap(d0, INODE_BITMAP_BLOCK, ino, false);
    }
    if touch_spec(d, other) is Ok && resolve(d, path) is Ok {
        let inode = inode_at(d, resolve(d, path).unwrap());
        lemma_writing_keeps_superblock(
            touch_spec(d, other).unwrap(),
            other,
            copied_bytes(d[inode.blocks[0] as int].subrange(0, inode.size as int)),
        );
    }
}

} // verus!

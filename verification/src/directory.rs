//! Directory blocks: a fixed number of entry slots, scanned in stored order.
//! A slot whose inode number is 0 is free, whether it was ever used or not;
//! entries are never moved, so a slot that was zeroed is the next one filled.
//!
//! A directory keeps its entries in one block, the first that its record
//! points to. Lookup, insertion, removal and listing all work on that block;
//! the other pointers of the record hold no entries. Names are compared as
//! bytes.

use vstd::prelude::*;
use vstd::slice::*;
use crate::device::{BlockDevice, Disk};
use crate::error::{FsError, outcome};
use crate::inode_table::{
    inode_at, is_valid_ino, is_valid_ptr, mode_of, read_inode, valid_ino, valid_ptr,
};
use crate::layout::{
    Block, BLOCK_SIZE, cut_name, DIR_ENTRY_SIZE, entry_bytes, entry_name, get_le32, InodeType, le32,
    lemma_entry_bytes, lemma_entry_bytes_ino, lemma_le32_zero, make_entry, NAME_CAPACITY, name_len,
    put_bytes, splice, storable_name, stored_name_len,
};

verus! {

/// Number of entry slots in one directory block.
pub const ENTRIES_PER_BLOCK: usize = 64;

/// The record bytes of slot `slot`.
pub open spec fn slot_bytes(block: Seq<u8>, slot: int) -> Seq<u8> {
    block.subrange(slot * DIR_ENTRY_SIZE, slot * DIR_ENTRY_SIZE + DIR_ENTRY_SIZE)
}

/// The inode number stored in slot `slot`.
pub open spec fn slot_ino(block: Seq<u8>, slot: int) -> u32 {
    le32(slot_bytes(block, slot), 0)
}

/// The name stored in slot `slot`.
pub open spec fn slot_name(block: Seq<u8>, slot: int) -> Seq<u8> {
    entry_name(slot_bytes(block, slot))
}

/// What a scan of a directory block looks for: a live entry with a given
/// name, or a free slot.
pub enum SlotQuery {
    Named(Seq<u8>),
    Free,
}

/// Slot `slot` is what the query looks for.
pub open spec fn slot_hit(block: Seq<u8>, slot: int, query: SlotQuery) -> bool {
    match query {
        SlotQuery::Named(name) => slot_ino(block, slot) != 0 && slot_name(block, slot) == name,
        SlotQuery::Free => slot_ino(block, slot) == 0,
    }
}

/// Slot `slot` is the first one that the query hits.
pub open spec fn is_first_hit(block: Seq<u8>, query: SlotQuery, slot: int) -> bool {
    &&& 0 <= slot < ENTRIES_PER_BLOCK
    &&& slot_hit(block, slot, query)
    &&& forall|t: int| 0 <= t < slot ==> !slot_hit(block, t, query)
}

/// The first slot that the query hits, if any.
pub open spec fn first_hit(block: Seq<u8>, query: SlotQuery) -> Option<int> {
    if exists|slot: int| is_first_hit(block, query, slot) {
        Some(choose|slot: int| is_first_hit(block, query, slot))
    } else {
        None
    }
}

/// The first live entry named `name`, if any.
pub open spec fn find_slot(block: Seq<u8>, name: Seq<u8>) -> Option<int> {
    first_hit(block, SlotQuery::Named(name))
}

/// The first free slot, if any.
pub open spec fn free_slot(block: Seq<u8>) -> Option<int> {
    first_hit(block, SlotQuery::Free)
}

/// Number of live entries among the first `n` slots.
pub open spec fn live_count(block: Seq<u8>, n: int) -> int
    decreases n,
{
    if n <= 0 {
        0
    } else {
        live_count(block, n - 1) + if slot_ino(block, n - 1) != 0 {
            1int
        } else {
            0int
        }
    }
}

/// The block with slot `slot` holding an entry for `ino` under `name`.
pub open spec fn with_entry(block: Seq<u8>, slot: int, ino: u32, name: Seq<u8>) -> Seq<u8> {
    splice(block, slot * DIR_ENTRY_SIZE, entry_bytes(ino, cut_name(name)))
}

/// An entry record of zeros.
pub open spec fn zero_entry() -> Seq<u8> {
    Seq::new(DIR_ENTRY_SIZE as nat, |i: int| 0u8)
}

/// The block with slot `slot` zeroed.
pub open spec fn without_entry(block: Seq<u8>, slot: int) -> Seq<u8> {
    splice(block, slot * DIR_ENTRY_SIZE, zero_entry())
}

/// The block that holds the entries of directory `ino`: the first block
/// that its record points to.
pub open spec fn dir_block(d: Disk, ino: u32) -> Result<u32, FsError> {
    if !valid_ino(ino) {
        Err(FsError::Corrupted)
    } else if inode_at(d, ino).mode != InodeType::Directory {
        Err(FsError::NotADirectory)
    } else if !valid_ptr(inode_at(d, ino).blocks[0]) {
        Err(FsError::Corrupted)
    } else {
        Ok(inode_at(d, ino).blocks[0])
    }
}

/// The inode that `name` stands for in directory `dir`: that of the first
/// live entry with this name. Looking into what is no directory finds
/// nothing.
pub open spec fn lookup(d: Disk, dir: u32, name: Seq<u8>) -> Result<u32, FsError> {
    match dir_block(d, dir) {
        Err(FsError::NotADirectory) => Err(FsError::NotFound),
        Err(e) => Err(e),
        Ok(b) => match find_slot(d[b as int], name) {
            Some(slot) => Ok(slot_ino(d[b as int], slot)),
            None => Err(FsError::NotFound),
        },
    }
}

/// The image after an entry for `child` under `name` was put into the first
/// free slot of directory `dir`.
pub open spec fn insert(d: Disk, dir: u32, child: u32, name: Seq<u8>) -> Result<Disk, FsError> {
    match dir_block(d, dir) {
        Err(e) => Err(e),
        Ok(b) => match free_slot(d[b as int]) {
            None => Err(FsError::DirectoryFull),
            Some(slot) => Ok(d.update(b as int, with_entry(d[b as int], slot, child, name))),
        },
    }
}

/// The image after the first live entry named `name` of directory `dir` was
/// zeroed. Where there is no such entry, nothing changes.
pub open spec fn remove(d: Disk, dir: u32, name: Seq<u8>) -> Disk {
    match dir_block(d, dir) {
        Err(_) => d,
        Ok(b) => match find_slot(d[b as int], name) {
            None => d,
            Some(slot) => d.update(b as int, without_entry(d[b as int], slot)),
        },
    }
}

/// The live entries among the first `n` slots of a directory block, in
/// stored order, each with its name and the mode of its inode.
pub open spec fn entries(d: Disk, block: Seq<u8>, n: int) -> Seq<(Seq<u8>, InodeType)>
    decreases n,
{
    if n <= 0 {
        Seq::empty()
    } else if slot_ino(block, n - 1) != 0 {
        entries(d, block, n - 1).push(
            (slot_name(block, n - 1), mode_of(d, slot_ino(block, n - 1))),
        )
    } else {
        entries(d, block, n - 1)
    }
}

/// A query has at most one first hit, and `first_hit` names it.
pub proof fn lemma_first_hit_is(block: Seq<u8>, query: SlotQuery, slot: int)
    requires
        is_first_hit(block, query, slot),
    ensures
        first_hit(block, query) == Some(slot),
{
    let c = choose|c: int| is_first_hit(block, query, c);
    if c < slot {
        assert(!slot_hit(block, c, query));
    } else if slot < c {
        assert(!slot_hit(block, slot, query));
    }
}

/// What `first_hit` returns is a first hit.
pub proof fn lemma_first_hit_some(block: Seq<u8>, query: SlotQuery)
    ensures
        first_hit(block, query) matches Some(slot) ==> is_first_hit(block, query, slot),
{
}

/// `first_hit` is `None` exactly when the query hits no slot.
pub proof fn lemma_first_hit_none(block: Seq<u8>, query: SlotQuery)
    ensures
        first_hit(block, query) is None <==> forall|t: int|
            0 <= t < ENTRIES_PER_BLOCK ==> !slot_hit(block, t, query),
{
    if first_hit(block, query) is None {
        lemma_no_hit_below(block, query, ENTRIES_PER_BLOCK as int);
    }
}

proof fn lemma_no_hit_below(block: Seq<u8>, query: SlotQuery, n: int)
    requires
        0 <= n <= ENTRIES_PER_BLOCK,
        first_hit(block, query) is None,
    ensures
        forall|t: int| 0 <= t < n ==> !slot_hit(block, t, query),
    decreases n,
{
    if n > 0 {
        lemma_no_hit_below(block, query, n - 1);
        if slot_hit(block, n - 1, query) {
            assert(is_first_hit(block, query, n - 1));
        }
    }
}

/// Writing a slot changes that slot and no other.
pub proof fn lemma_with_entry(block: Seq<u8>, slot: int, ino: u32, name: Seq<u8>, t: int)
    requires
        block.len() == BLOCK_SIZE,
        0 <= slot < ENTRIES_PER_BLOCK,
        0 <= t < ENTRIES_PER_BLOCK,
    ensures
        with_entry(block, slot, ino, name).len() == BLOCK_SIZE,
        slot_bytes(with_entry(block, slot, ino, name), t) == (if t == slot {
            entry_bytes(ino, cut_name(name))
        } else {
            slot_bytes(block, t)
        }),
{
}

/// Zeroing a slot frees that slot and changes no other.
pub proof fn lemma_without_entry(block: Seq<u8>, slot: int, t: int)
    requires
        block.len() == BLOCK_SIZE,
        0 <= slot < ENTRIES_PER_BLOCK,
        0 <= t < ENTRIES_PER_BLOCK,
    ensures
        without_entry(block, slot).len() == BLOCK_SIZE,
        t != slot ==> slot_bytes(without_entry(block, slot), t) == slot_bytes(block, t),
        slot_ino(without_entry(block, slot), slot) == 0,
{
    let b2 = without_entry(block, slot);
    assert(slot_bytes(b2, slot) =~= zero_entry());
    lemma_le32_zero(zero_entry(), 0);
}

/// Writing an entry into a slot: the slot holds the new entry, and every
/// other slot holds what it held.
pub proof fn lemma_with_entry_slots(block: Seq<u8>, slot: int, ino: u32, name: Seq<u8>)
    requires
        block.len() == BLOCK_SIZE,
        0 <= slot < ENTRIES_PER_BLOCK,
    ensures
        with_entry(block, slot, ino, name).len() == BLOCK_SIZE,
        slot_ino(with_entry(block, slot, ino, name), slot) == ino,
        storable_name(name) ==> slot_name(with_entry(block, slot, ino, name), slot) == name,
        forall|t: int|
            0 <= t < ENTRIES_PER_BLOCK && t != slot ==> #[trigger] slot_bytes(
                with_entry(block, slot, ino, name),
                t,
            ) == slot_bytes(block, t),
{
    lemma_with_entry(block, slot, ino, name, slot);
    lemma_entry_bytes_ino(ino, cut_name(name));
    if storable_name(name) {
        lemma_entry_bytes(ino, name);
    }
    assert forall|t: int| 0 <= t < ENTRIES_PER_BLOCK && t != slot implies #[trigger] slot_bytes(
        with_entry(block, slot, ino, name),
        t,
    ) == slot_bytes(block, t) by {
        lemma_with_entry(block, slot, ino, name, t);
    }
}

/// Zeroing a slot: the slot is free, and every other slot holds what it
/// held.
pub proof fn lemma_without_entry_slots(block: Seq<u8>, slot: int)
    requires
        block.len() == BLOCK_SIZE,
        0 <= slot < ENTRIES_PER_BLOCK,
    ensures
        without_entry(block, slot).len() == BLOCK_SIZE,
        slot_ino(without_entry(block, slot), slot) == 0,
        forall|t: int|
            0 <= t < ENTRIES_PER_BLOCK && t != slot ==> #[trigger] slot_bytes(
                without_entry(block, slot),
                t,
            ) == slot_bytes(block, t),
{
    lemma_without_entry(block, slot, slot);
    assert forall|t: int| 0 <= t < ENTRIES_PER_BLOCK && t != slot implies #[trigger] slot_bytes(
        without_entry(block, slot),
        t,
    ) == slot_bytes(block, t) by {
        lemma_without_entry(block, slot, t);
    }
}

/// What a directory block finds after an entry was put into its first free
/// slot: under the new name the new entry, where the name was not there
/// before; under every other name what it found before.
pub proof fn lemma_insert_found(block: Seq<u8>, ino: u32, name: Seq<u8>, q: Seq<u8>)
    requires
        block.len() == BLOCK_SIZE,
        free_slot(block) is Some,
        ino != 0,
        storable_name(name),
    ensures
        ({
            let slot = free_slot(block).unwrap();
            let after = with_entry(block, slot, ino, name);
            &&& q != name ==> find_slot(after, q) == find_slot(block, q)
            &&& q != name ==> (find_slot(block, q) matches Some(s) ==> slot_ino(after, s) == slot_ino(
                block,
                s,
            ))
            &&& find_slot(block, name) is None ==> find_slot(after, name) == Some(slot)
            &&& slot_ino(after, slot) == ino
        }),
{
    let slot = free_slot(block).unwrap();
    let after = with_entry(block, slot, ino, name);
    lemma_first_hit_some(block, SlotQuery::Free);
    lemma_with_entry_slots(block, slot, ino, name);
    assert forall|t: int| 0 <= t < ENTRIES_PER_BLOCK && t != slot implies slot_ino(after, t) == slot_ino(
        block,
        t,
    ) && slot_name(after, t) == slot_name(block, t) by {
    }
    if q != name {
        let query = SlotQuery::Named(q);
        assert forall|t: int| 0 <= t < ENTRIES_PER_BLOCK implies slot_hit(after, t, query) == slot_hit(
            block,
            t,
            query,
        ) by {
        }
        lemma_first_hit_some(block, query);
        lemma_first_hit_none(block, query);
        lemma_first_hit_none(after, query);
        match find_slot(block, q) {
            Some(s) => {
                lemma_first_hit_is(after, query, s);
            },
            None => {},
        }
    }
    if find_slot(block, name) is None {
        let query = SlotQuery::Named(name);
        lemma_first_hit_none(block, query);
        assert forall|t: int| 0 <= t < slot implies !slot_hit(after, t, query) by {
            assert(!slot_hit(block, t, query));
        }
        lemma_first_hit_is(after, query, slot);
    }
}

/// What a directory block finds after the first entry under `name` was
/// zeroed: under `name` nothing, where no other entry had that name; under
/// every other name what it found before.
pub proof fn lemma_remove_found(block: Seq<u8>, name: Seq<u8>, q: Seq<u8>)
    requires
        block.len() == BLOCK_SIZE,
        find_slot(block, name) is Some,
    ensures
        ({
            let slot = find_slot(block, name).unwrap();
            let after = without_entry(block, slot);
            &&& q != name ==> find_slot(after, q) == find_slot(block, q)
            &&& q != name ==> (find_slot(block, q) matches Some(s) ==> slot_ino(after, s) == slot_ino(
                block,
                s,
            ))
            &&& (forall|t: int|
                0 <= t < ENTRIES_PER_BLOCK && t != slot ==> !slot_hit(block, t, SlotQuery::Named(name)))
                ==> find_slot(after, name) is None
        }),
{
    let slot = find_slot(block, name).unwrap();
    let after = without_entry(block, slot);
    lemma_first_hit_some(block, SlotQuery::Named(name));
    lemma_without_entry_slots(block, slot);
    assert forall|t: int| 0 <= t < ENTRIES_PER_BLOCK && t != slot implies slot_ino(after, t) == slot_ino(
        block,
        t,
    ) && slot_name(after, t) == slot_name(block, t) by {
    }
    if q != name {
        let query = SlotQuery::Named(q);
        assert forall|t: int| 0 <= t < ENTRIES_PER_BLOCK implies slot_hit(after, t, query) == slot_hit(
            block,
            t,
            query,
        ) by {
        }
        lemma_first_hit_some(block, query);
        lemma_first_hit_none(block, query);
        lemma_first_hit_none(after, query);
        match find_slot(block, q) {
            Some(s) => {
                lemma_first_hit_is(after, query, s);
            },
            None => {},
        }
    }
    if forall|t: int|
        0 <= t < ENTRIES_PER_BLOCK && t != slot ==> !slot_hit(block, t, SlotQuery::Named(name)) {
        let query = SlotQuery::Named(name);
        assert forall|t: int| 0 <= t < ENTRIES_PER_BLOCK implies !slot_hit(after, t, query) by {
            if t != slot {
                assert(!slot_hit(block, t, query));
            }
        }
        lemma_first_hit_none(after, query);
    }
}

/// After an entry was written into a free slot, a name that the block
/// found before is found where it was, or in the slot written.
pub proof fn lemma_insert_then_find(block: Seq<u8>, slot: int, ino: u32, name: Seq<u8>, q: Seq<u8>)
    requires
        block.len() == BLOCK_SIZE,
        0 <= slot < ENTRIES_PER_BLOCK,
        slot_ino(block, slot) == 0,
        find_slot(block, q) is Some,
    ensures
        find_slot(with_entry(block, slot, ino, name), q) == find_slot(block, q) || find_slot(
            with_entry(block, slot, ino, name),
            q,
        ) == Some(slot),
{
    let after = with_entry(block, slot, ino, name);
    let query = SlotQuery::Named(q);
    let s0 = find_slot(block, q).unwrap();
    lemma_first_hit_some(block, query);
    lemma_with_entry_slots(block, slot, ino, name);
    assert forall|t: int| 0 <= t < ENTRIES_PER_BLOCK && t != slot implies slot_hit(after, t, query)
        == slot_hit(block, t, query) by {
    }
    if slot < s0 && slot_hit(after, slot, query) {
        lemma_first_hit_is(after, query, slot);
    } else {
        lemma_first_hit_is(after, query, s0);
    }
}

/// At most one live entry of the block has this name.
pub open spec fn name_is_unique(block: Seq<u8>, name: Seq<u8>) -> bool {
    forall|s: int, t: int|
        #![trigger slot_name(block, s), slot_name(block, t)]
        0 <= s < ENTRIES_PER_BLOCK && 0 <= t < ENTRIES_PER_BLOCK && slot_hit(
            block,
            s,
            SlotQuery::Named(name),
        ) && slot_hit(block, t, SlotQuery::Named(name)) ==> s == t
}

/// The count of live entries does not fall as more slots are counted, and
/// counts every live slot.
pub proof fn lemma_live_count(block: Seq<u8>, n: int, s: int)
    requires
        0 <= s < n,
    ensures
        live_count(block, s) <= live_count(block, n),
        slot_ino(block, s) != 0 ==> live_count(block, s) < live_count(block, n),
    decreases n,
{
    if s < n - 1 {
        lemma_live_count(block, n - 1, s);
    }
}

/// Reads the inode number stored in a slot.
pub fn entry_ino(block: &Block, slot: usize) -> (ino: u32)
    requires
        slot < ENTRIES_PER_BLOCK,
    ensures
        ino == slot_ino(block@, slot as int),
{
    let off: usize = slot * DIR_ENTRY_SIZE;
    get_le32(slice_subrange(block.as_slice(), off, off + DIR_ENTRY_SIZE), 0)
}

/// Compares the name stored in a slot with `name`.
pub fn entry_name_is(block: &Block, slot: usize, name: &[u8]) -> (same: bool)
    requires
        slot < ENTRIES_PER_BLOCK,
    ensures
        same == (slot_name(block@, slot as int) == name@),
{
    let off: usize = slot * DIR_ENTRY_SIZE;
    let record = slice_subrange(block.as_slice(), off, off + DIR_ENTRY_SIZE);
    let n: usize = stored_name_len(record);
    if n != name.len() {
        return false;
    }
    let mut j: usize = 0;
    while j < n
        invariant
            j <= n,
            n == name@.len(),
            n == name_len(record@),
            record@ == slot_bytes(block@, slot as int),
            n <= NAME_CAPACITY,
            record@.len() == DIR_ENTRY_SIZE,
            forall|t: int| 0 <= t < j ==> record@[4 + t] == #[trigger] name@[t],
        decreases n - j,
    {
        if record[4 + j] != name[j] {
            return false;
        }
        j += 1;
    }
    proof {
        assert(entry_name(record@) =~= name@);
    }
    true
}

/// Finds the first live entry named `name`.
pub fn find_entry(block: &Block, name: &[u8]) -> (found: Option<usize>)
    ensures
        find_slot(block@, name@) == match found {
            Some(slot) => Some(slot as int),
            None => None,
        },
{
    let ghost query = SlotQuery::Named(name@);
    let mut i: usize = 0;
    while i < ENTRIES_PER_BLOCK
        invariant
            i <= ENTRIES_PER_BLOCK,
            query == SlotQuery::Named(name@),
            forall|t: int| 0 <= t < i ==> !slot_hit(block@, t, query),
        decreases ENTRIES_PER_BLOCK - i,
    {
        if entry_ino(block, i) != 0 && entry_name_is(block, i, name) {
            proof {
                lemma_first_hit_is(block@, query, i as int);
            }
            return Some(i);
        }
        i += 1;
    }
    proof {
        lemma_first_hit_none(block@, query);
    }
    None
}

/// Finds the first free slot.
pub fn find_free_slot(block: &Block) -> (found: Option<usize>)
    ensures
        free_slot(block@) == match found {
            Some(slot) => Some(slot as int),
            None => None,
        },
{
    let mut i: usize = 0;
    while i < ENTRIES_PER_BLOCK
        invariant
            i <= ENTRIES_PER_BLOCK,
            forall|t: int| 0 <= t < i ==> !slot_hit(block@, t, SlotQuery::Free),
        decreases ENTRIES_PER_BLOCK - i,
    {
        if entry_ino(block, i) == 0 {
            proof {
                lemma_first_hit_is(block@, SlotQuery::Free, i as int);
            }
            return Some(i);
        }
        i += 1;
    }
    proof {
        lemma_first_hit_none(block@, SlotQuery::Free);
    }
    None
}

/// Counts the live entries of a block.
pub fn count_live(block: &Block) -> (n: usize)
    ensures
        n == live_count(block@, ENTRIES_PER_BLOCK as int),
{
    let mut n: usize = 0;
    let mut i: usize = 0;
    while i < ENTRIES_PER_BLOCK
        invariant
            i <= ENTRIES_PER_BLOCK,
            n <= i,
            n == live_count(block@, i as int),
        decreases ENTRIES_PER_BLOCK - i,
    {
        if entry_ino(block, i) != 0 {
            n += 1;
        }
        i += 1;
    }
    n
}

/// Stores an entry for `ino` under `name` in a slot. A name longer than the
/// entry can hold is cut.
pub fn put_entry(block: &mut Block, slot: usize, ino: u32, name: &[u8])
    requires
        slot < ENTRIES_PER_BLOCK,
    ensures
        final(block)@ == with_entry(old(block)@, slot as int, ino, name@),
{
    let record = make_entry(ino, name);
    put_bytes(block, slot * DIR_ENTRY_SIZE, &record);
}

/// Zeroes a slot.
pub fn clear_entry(block: &mut Block, slot: usize)
    requires
        slot < ENTRIES_PER_BLOCK,
    ensures
        final(block)@ == without_entry(old(block)@, slot as int),
{
    let record = [0u8; DIR_ENTRY_SIZE];
    put_bytes(block, slot * DIR_ENTRY_SIZE, &record);
}

/// Loads the block that holds the entries of directory `ino`.
pub fn load_dir(dev: &BlockDevice, ino: u32) -> (loaded: Result<(u32, Block), FsError>)
    ensures
        match loaded {
            Ok((b, block)) => dir_block(dev@, ino) == Ok::<u32, FsError>(b) && block@ == dev@[b as int],
            Err(e) => dir_block(dev@, ino) == Err::<u32, FsError>(e),
        },
{
    if !is_valid_ino(ino) {
        return Err(FsError::Corrupted);
    }
    let inode = read_inode(dev, ino);
    if inode.mode != InodeType::Directory {
        return Err(FsError::NotADirectory);
    }
    let b: u32 = inode.blocks[0];
    if !is_valid_ptr(b) {
        return Err(FsError::Corrupted);
    }
    let mut block = [0u8; BLOCK_SIZE];
    dev.read_block(b, &mut block);
    Ok((b, block))
}

/// Looks `name` up in directory `dir_ino`.
pub fn find_in_dir(dev: &BlockDevice, dir_ino: u32, name: &[u8]) -> (found: Result<u32, FsError>)
    ensures
        found == lookup(dev@, dir_ino, name@),
{
    match load_dir(dev, dir_ino) {
        Err(FsError::NotADirectory) => Err(FsError::NotFound),
        Err(e) => Err(e),
        Ok((_, block)) => match find_entry(&block, name) {
            Some(slot) => Ok(entry_ino(&block, slot)),
            None => Err(FsError::NotFound),
        },
    }
}

/// Puts an entry for `child_ino` under `name` into the first free slot of
/// directory `parent_ino`.
pub fn add_dir_entry(dev: &mut BlockDevice, parent_ino: u32, child_ino: u32, name: &[u8]) -> (done:
    Result<(), FsError>)
    ensures
        outcome(done, insert(old(dev)@, parent_ino, child_ino, name@), old(dev)@, final(dev)@),
{
    match load_dir(dev, parent_ino) {
        Err(e) => Err(e),
        Ok((b, mut block)) => match find_free_slot(&block) {
            None => Err(FsError::DirectoryFull),
            Some(slot) => {
                put_entry(&mut block, slot, child_ino, name);
                dev.write_block(b, &block);
                Ok(())
            },
        },
    }
}

/// Zeroes the first live entry named `name` of directory `parent_ino`.
/// Where there is none, nothing happens.
pub fn remove_dir_entry(dev: &mut BlockDevice, parent_ino: u32, name: &[u8])
    ensures
        final(dev)@ == remove(old(dev)@, parent_ino, name@),
{
    match load_dir(dev, parent_ino) {
        Err(_) => {},
        Ok((b, mut block)) => match find_entry(&block, name) {
            None => {},
            Some(slot) => {
                clear_entry(&mut block, slot);
                dev.write_block(b, &block);
            },
        },
    }
}

} // verus!

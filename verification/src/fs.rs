//! The filesystem: shell-like operations over a disk image. Paths are
//! absolute; making them so is the caller's part.

use vstd::prelude::*;
use vstd::slice::*;
use vstd::string::*;
use crate::allocator::{free_data_block, free_inode, next_free_block, next_free_inode, set_bit};
use crate::consistency::{consistent, lemma_format_consistent};
use crate::device::{BlockDevice, Disk};
use crate::directory::{
    add_dir_entry, count_live, entries, ENTRIES_PER_BLOCK, find_entry, find_free_slot, load_dir,
    put_entry, remove_dir_entry,
};
use crate::effects::{
    lemma_cp_consistent, lemma_mkdir_consistent, lemma_rm_consistent, lemma_touch_consistent,
    lemma_write_consistent, names_entry,
};
use crate::error::{FsError, outcome};
use crate::inode_table::{is_valid_ino, is_valid_ptr, read_inode, valid_ptr, write_inode_to_disk};
use crate::layout::{
    Block, BLOCK_SIZE, DATA_AREA_START, DATA_BITMAP_BLOCK, DIR_ENTRY_SIZE, DIRECT_POINTERS,
    DirEntry, Inode, INODE_BITMAP_BLOCK, INODE_COUNT, INODE_SIZE, INODE_TABLE_START, InodeType,
    MAGIC, put_bytes, put_le32, ROOT_INO, Superblock, SUPERBLOCK_BLOCK, TOTAL_BLOCKS,
};
use crate::model::{
    bitmap_block, cat_spec, cd_spec, cp_spec, file_data, format_spec, fresh_dir_block, list_spec,
    ListingView, mkdir_spec, mv_spec, pointers_ok, release_blocks, rm_spec, single_pointer,
    touch_spec, write_spec, written_len, zero_block,
};
use crate::moving::lemma_mv_consistent;
use crate::path::{is_root_path, plain_path, root_path, SEPARATOR, split_parent_or_root, split_path};
use crate::resolve::{resolve, resolve_path};
use crate::text::{decode_text, text_of};

verus! {

/// A filesystem on a disk image, with the session's current directory.
pub struct MyFileSystem {
    /// The disk image under the filesystem.
    pub device: BlockDevice,
    /// Inode number of the current directory.
    pub cwd_ino: u32,
    /// Path of the current directory.
    pub cwd_path: String,
}

/// One line of a directory listing.
#[derive(Debug, PartialEq, Eq, Clone)]
pub struct ListedEntry {
    /// The entry's name, as text.
    pub name: String,
    /// The mode of the entry's inode.
    pub mode: InodeType,
}

/// What listing a path shows.
#[derive(Debug, PartialEq, Eq, Clone)]
pub enum Listing {
    /// The path names something other than a directory: its last name.
    File(String),
    /// The path names a directory: its live entries, in stored order.
    Directory(Vec<ListedEntry>),
}

/// The lines show the entries: as many, in the same order, each name as
/// text.
pub open spec fn lines_show(lines: Seq<ListedEntry>, shown: Seq<(Seq<u8>, InodeType)>) -> bool {
    &&& lines.len() == shown.len()
    &&& forall|i: int|
        0 <= i < lines.len() ==> (#[trigger] lines[i]).name@ == text_of(shown[i].0) && lines[i].mode
            == shown[i].1
}

/// The listing shows what the path's listing is.
pub open spec fn listing_shows(listing: Listing, shown: ListingView) -> bool {
    match (listing, shown) {
        (Listing::File(name), ListingView::File(bytes)) => name@ == text_of(bytes),
        (Listing::Directory(lines), ListingView::Directory(seq)) => lines_show(lines@, seq),
        _ => false,
    }
}

/// Resolves the parent of a path and gives the path's last name. A path
/// without a separator names an entry of the root.
fn resolve_parent<'a>(dev: &BlockDevice, path: &'a [u8]) -> (found: (Result<u32, FsError>, &'a [u8]))
    ensures
        found.0 == resolve(dev@, split_parent_or_root(path@).0),
        found.1@ == split_parent_or_root(path@).1,
{
    match split_path(path) {
        Some((parent_path, name)) => (resolve_path(dev, parent_path), name),
        None => {
            let root = [SEPARATOR];
            proof {
                assert(root@ =~= root_path());
            }
            (resolve_path(dev, root.as_slice()), path)
        },
    }
}

/// Checks that every pointer is unset or points into the data area.
fn check_pointers(blocks: &[u32; 12]) -> (ok: bool)
    ensures
        ok == pointers_ok(blocks@),
{
    let mut i: usize = 0;
    while i < DIRECT_POINTERS
        invariant
            i <= DIRECT_POINTERS,
            forall|j: int| 0 <= j < i ==> blocks@[j] == 0 || valid_ptr(#[trigger] blocks@[j]),
        decreases DIRECT_POINTERS - i,
    {
        if blocks[i] != 0 && !is_valid_ptr(blocks[i]) {
            return false;
        }
        i += 1;
    }
    true
}

/// Twelve pointers of which only the first is set.
fn first_pointer(b: u32) -> (blocks: [u32; 12])
    ensures
        blocks@ == single_pointer(b),
{
    let mut blocks = [0u32; 12];
    blocks[0] = b;
    blocks
}

/// Builds the block of a directory that holds nothing but `.` and `..`.
fn new_dir_block(me: u32, parent: u32) -> (block: Block)
    ensures
        block@ == fresh_dir_block(me, parent),
{
    let mut block = [0u8; BLOCK_SIZE];
    let dot_name = [0x2eu8];
    let dotdot_name = [0x2eu8, 0x2eu8];
    put_entry(&mut block, 0, me, dot_name.as_slice());
    put_entry(&mut block, 1, parent, dotdot_name.as_slice());
    block
}

/// Builds a bitmap block from its first two bytes.
fn new_bitmap_block(b0: u8, b1: u8) -> (block: Block)
    ensures
        block@ == bitmap_block(b0, b1),
{
    let mut block = [0u8; BLOCK_SIZE];
    block[0] = b0;
    block[1] = b1;
    block
}

impl MyFileSystem {
    /// The disk image under the filesystem.
    pub open spec fn disk(&self) -> Disk {
        self.device@
    }

    /// The session's current directory: its inode number and its path.
    pub open spec fn session(&self) -> (u32, Seq<char>) {
        (self.cwd_ino, self.cwd_path@)
    }

    /// A filesystem on `device`, with the root as current directory. The
    /// image is taken as it is.
    pub fn new(device: BlockDevice) -> (fs: MyFileSystem)
        ensures
            fs.disk() == device@,
            fs.session() == (ROOT_INO, "/"@),
    {
        MyFileSystem { device, cwd_ino: ROOT_INO, cwd_path: "/".to_owned() }
    }

    /// Formats the image and makes the root the current directory.
    pub fn format(&mut self)
        ensures
            final(self).disk() == format_spec(old(self).disk()),
            final(self).session() == (ROOT_INO, "/"@),
            consistent(final(self).disk()),
    {
        proof {
            self.device.lemma_wf();
            lemma_format_consistent(self.disk());
        }
        let sb = Superblock {
            magic: MAGIC,
            total_blocks: TOTAL_BLOCKS,
            inode_count: INODE_COUNT,
            data_area_start: DATA_AREA_START,
        };
        self.device.write_block(SUPERBLOCK_BLOCK, &sb.serialize());

        let data_bitmap = new_bitmap_block(0xFF, 0x07);
        self.device.write_block(DATA_BITMAP_BLOCK, &data_bitmap);

        let inode_bitmap = new_bitmap_block(0x03, 0);
        self.device.write_block(INODE_BITMAP_BLOCK, &inode_bitmap);

        let root_inode = Inode {
            mode: InodeType::Directory,
            size: BLOCK_SIZE as u32,
            blocks: first_pointer(DATA_AREA_START),
        };
        let mut table_block = [0u8; BLOCK_SIZE];
        proof {
            assert(table_block@ =~= zero_block());
        }
        put_bytes(&mut table_block, INODE_SIZE, &root_inode.serialize());
        self.device.write_block(INODE_TABLE_START, &table_block);

        let root_block = new_dir_block(ROOT_INO, ROOT_INO);
        self.device.write_block(DATA_AREA_START, &root_block);

        self.cwd_ino = ROOT_INO;
        self.cwd_path = "/".to_owned();
    }

    /// Resolves a path to the inode that it names.
    pub fn resolve_path(&self, path: &str) -> (found: Result<u32, FsError>)
        ensures
            found == resolve(self.disk(), path.spec_bytes()),
    {
        resolve_path(&self.device, path.as_bytes())
    }

    /// Makes a directory at `path`, with its `.` and `..` entries.
    pub fn mkdir(&mut self, path: &str) -> (done: Result<(), FsError>)
        ensures
            outcome(
                done,
                mkdir_spec(old(self).disk(), path.spec_bytes()),
                old(self).disk(),
                final(self).disk(),
            ),
            final(self).session() == old(self).session(),
            consistent(old(self).disk()) && plain_path(path.spec_bytes()) ==> consistent(
                final(self).disk(),
            ),
    {
        let (parent_path, name) = match split_path(path.as_bytes()) {
            None => {
                return Err(FsError::InvalidPath);
            },
            Some(parts) => parts,
        };
        let parent: u32 = match resolve_path(&self.device, parent_path) {
            Err(e) => {
                return Err(e);
            },
            Ok(ino) => ino,
        };
        let (pb, listed) = match load_dir(&self.device, parent) {
            Err(e) => {
                return Err(e);
            },
            Ok(loaded) => loaded,
        };
        if find_entry(&listed, name).is_some() {
            return Err(FsError::AlreadyExists);
        }
        let ino: u32 = match next_free_inode(&self.device) {
            Err(e) => {
                return Err(e);
            },
            Ok(ino) => ino,
        };
        let b: u32 = match next_free_block(&self.device) {
            Err(e) => {
                return Err(e);
            },
            Ok(b) => b,
        };
        let slot: usize = match find_free_slot(&listed) {
            None => {
                return Err(FsError::DirectoryFull);
            },
            Some(slot) => slot,
        };

        set_bit(&mut self.device, INODE_BITMAP_BLOCK, ino, true);
        set_bit(&mut self.device, DATA_BITMAP_BLOCK, b, true);
        let inode = Inode {
            mode: InodeType::Directory,
            size: BLOCK_SIZE as u32,
            blocks: first_pointer(b),
        };
        write_inode_to_disk(&mut self.device, ino, &inode);
        let block = new_dir_block(ino, parent);
        self.device.write_block(b, &block);
        let mut parent_block = [0u8; BLOCK_SIZE];
        self.device.read_block(pb, &mut parent_block);
        put_entry(&mut parent_block, slot, ino, name);
        self.device.write_block(pb, &parent_block);
        proof {
            if consistent(old(self).disk()) && plain_path(path.spec_bytes()) {
                lemma_mkdir_consistent(old(self).disk(), path.spec_bytes());
            }
        }
        Ok(())
    }

    /// Makes an empty file at `path`. A name that is already taken is taken
    /// once more.
    pub fn touch(&mut self, path: &str) -> (done: Result<(), FsError>)
        ensures
            outcome(
                done,
                touch_spec(old(self).disk(), path.spec_bytes()),
                old(self).disk(),
                final(self).disk(),
            ),
            final(self).session() == old(self).session(),
            consistent(old(self).disk()) && plain_path(path.spec_bytes()) ==> consistent(
                final(self).disk(),
            ),
    {
        let (parent_path, name) = match split_path(path.as_bytes()) {
            None => {
                return Err(FsError::InvalidPath);
            },
            Some(parts) => parts,
        };
        let parent: u32 = match resolve_path(&self.device, parent_path) {
            Err(e) => {
                return Err(e);
            },
            Ok(ino) => ino,
        };
        let (pb, listed) = match load_dir(&self.device, parent) {
            Err(e) => {
                return Err(e);
            },
            Ok(loaded) => loaded,
        };
        let ino: u32 = match next_free_inode(&self.device) {
            Err(e) => {
                return Err(e);
            },
            Ok(ino) => ino,
        };
        let slot: usize = match find_free_slot(&listed) {
            None => {
                return Err(FsError::DirectoryFull);
            },
            Some(slot) => slot,
        };

        set_bit(&mut self.device, INODE_BITMAP_BLOCK, ino, true);
        let inode = Inode { mode: InodeType::File, size: 0, blocks: first_pointer(0) };
        write_inode_to_disk(&mut self.device, ino, &inode);
        let mut parent_block = [0u8; BLOCK_SIZE];
        self.device.read_block(pb, &mut parent_block);
        put_entry(&mut parent_block, slot, ino, name);
        self.device.write_block(pb, &parent_block);
        proof {
            if consistent(old(self).disk()) && plain_path(path.spec_bytes()) {
                lemma_touch_consistent(old(self).disk(), path.spec_bytes());
            }
        }
        Ok(())
    }

    /// Writes `content` to the file at `path` and returns the number of
    /// bytes written. What does not fit into one block is dropped.
    pub fn write_file(&mut self, path: &str, content: &str) -> (written: Result<usize, FsError>)
        ensures
            match written {
                Ok(n) => write_spec(old(self).disk(), path.spec_bytes(), content.spec_bytes())
                    == Ok::<Disk, FsError>(final(self).disk()) && n == written_len(
                    content.spec_bytes(),
                ),
                Err(e) => write_spec(old(self).disk(), path.spec_bytes(), content.spec_bytes())
                    == Err::<Disk, FsError>(e) && final(self).disk() == old(self).disk(),
            },
            final(self).session() == old(self).session(),
            consistent(old(self).disk()) && plain_path(path.spec_bytes()) ==> consistent(
                final(self).disk(),
            ),
    {
        let ino: u32 = match resolve_path(&self.device, path.as_bytes()) {
            Err(e) => {
                return Err(e);
            },
            Ok(ino) => ino,
        };
        if !is_valid_ino(ino) {
            return Err(FsError::Corrupted);
        }
        let inode = read_inode(&self.device, ino);
        if inode.mode != InodeType::File {
            return Err(FsError::NotAFile);
        }
        let fresh: bool = inode.blocks[0] == 0;
        let b: u32 = if fresh {
            match next_free_block(&self.device) {
                Err(e) => {
                    return Err(e);
                },
                Ok(b) => b,
            }
        } else if !is_valid_ptr(inode.blocks[0]) {
            return Err(FsError::Corrupted);
        } else {
            inode.blocks[0]
        };
        let bytes = content.as_bytes();
        let n: usize = if bytes.len() <= BLOCK_SIZE {
            bytes.len()
        } else {
            BLOCK_SIZE
        };
        let mut data = [0u8; BLOCK_SIZE];
        let mut i: usize = 0;
        while i < n
            invariant
                i <= n,
                n == written_len(bytes@),
                forall|j: int| 0 <= j < i ==> (#[trigger] data@[j]) == bytes@[j],
                forall|j: int| i <= j < BLOCK_SIZE ==> (#[trigger] data@[j]) == 0,
            decreases n - i,
        {
            data[i] = bytes[i];
            i += 1;
        }
        proof {
            assert(data@ =~= file_data(bytes@));
        }
        if fresh {
            set_bit(&mut self.device, DATA_BITMAP_BLOCK, b, true);
        }
        self.device.write_block(b, &data);
        let mut blocks = inode.blocks;
        blocks[0] = b;
        let updated = Inode { mode: InodeType::File, size: n as u32, blocks };
        write_inode_to_disk(&mut self.device, ino, &updated);
        proof {
            if consistent(old(self).disk()) && plain_path(path.spec_bytes()) {
                lemma_write_consistent(old(self).disk(), path.spec_bytes(), bytes@);
            }
        }
        Ok(n)
    }

    /// Reads the bytes of the file at `path`.
    pub fn read_file(&self, path: &str) -> (content: Result<Vec<u8>, FsError>)
        ensures
            match content {
                Ok(bytes) => cat_spec(self.disk(), path.spec_bytes()) == Ok::<Seq<u8>, FsError>(
                    bytes@,
                ),
                Err(e) => cat_spec(self.disk(), path.spec_bytes()) == Err::<Seq<u8>, FsError>(e),
            },
    {
        let ino: u32 = match resolve_path(&self.device, path.as_bytes()) {
            Err(e) => {
                return Err(e);
            },
            Ok(ino) => ino,
        };
        if !is_valid_ino(ino) {
            return Err(FsError::Corrupted);
        }
        let inode = read_inode(&self.device, ino);
        if inode.mode != InodeType::File {
            return Err(FsError::NotAFile);
        }
        if inode.size == 0 {
            let empty: Vec<u8> = Vec::new();
            return Ok(empty);
        }
        if inode.size as usize > BLOCK_SIZE || !is_valid_ptr(inode.blocks[0]) {
            return Err(FsError::Corrupted);
        }
        let mut block = [0u8; BLOCK_SIZE];
        self.device.read_block(inode.blocks[0], &mut block);
        Ok(slice_to_vec(slice_subrange(block.as_slice(), 0, inode.size as usize)))
    }

    /// Reads the file at `path` as text.
    pub fn cat(&self, path: &str) -> (content: Result<String, FsError>)
        ensures
            match (content, cat_spec(self.disk(), path.spec_bytes())) {
                (Ok(text), Ok(bytes)) => text@ == text_of(bytes),
                (Err(e), Err(meant)) => e == meant,
                _ => false,
            },
    {
        match self.read_file(path) {
            Ok(bytes) => Ok(decode_text(bytes.as_slice())),
            Err(e) => Err(e),
        }
    }

    /// Removes the file or the empty directory at `path`.
    pub fn rm(&mut self, path: &str) -> (done: Result<(), FsError>)
        ensures
            outcome(
                done,
                rm_spec(old(self).disk(), path.spec_bytes()),
                old(self).disk(),
                final(self).disk(),
            ),
            final(self).session() == old(self).session(),
            consistent(old(self).disk()) && plain_path(path.spec_bytes()) && names_entry(
                path.spec_bytes(),
            ) ==> consistent(final(self).disk()),
    {
        let bytes = path.as_bytes();
        if is_root_path(bytes) {
            return Err(FsError::CannotRemoveRoot);
        }
        let ino: u32 = match resolve_path(&self.device, bytes) {
            Err(e) => {
                return Err(e);
            },
            Ok(ino) => ino,
        };
        if ino == ROOT_INO {
            return Err(FsError::CannotRemoveRoot);
        }
        if !is_valid_ino(ino) {
            return Err(FsError::Corrupted);
        }
        let inode = read_inode(&self.device, ino);
        if inode.mode == InodeType::Directory {
            if !is_valid_ptr(inode.blocks[0]) {
                return Err(FsError::Corrupted);
            }
            let mut block = [0u8; BLOCK_SIZE];
            self.device.read_block(inode.blocks[0], &mut block);
            if count_live(&block) > 2 {
                return Err(FsError::DirectoryNotEmpty);
            }
        }
        if !check_pointers(&inode.blocks) {
            return Err(FsError::Corrupted);
        }
        let (parent, name) = resolve_parent(&self.device, bytes);
        let parent: u32 = match parent {
            Err(e) => {
                return Err(e);
            },
            Ok(parent) => parent,
        };
        let mut i: usize = 0;
        while i < DIRECT_POINTERS
            invariant
                i <= DIRECT_POINTERS,
                pointers_ok(inode@.blocks),
                inode@.blocks.len() == DIRECT_POINTERS,
                self.device@ == release_blocks(old(self).disk(), inode@.blocks, i as int),
                self.cwd_ino == old(self).cwd_ino,
                self.cwd_path == old(self).cwd_path,
            decreases DIRECT_POINTERS - i,
        {
            if inode.blocks[i] != 0 {
                free_data_block(&mut self.device, inode.blocks[i]);
            }
            i += 1;
        }
        free_inode(&mut self.device, ino);
        remove_dir_entry(&mut self.device, parent, name);
        proof {
            if consistent(old(self).disk()) && plain_path(path.spec_bytes()) && names_entry(
                path.spec_bytes(),
            ) {
                lemma_rm_consistent(old(self).disk(), path.spec_bytes());
            }
        }
        Ok(())
    }

    /// Copies the file at `src_path` to a new file at `dst_path`: makes the
    /// target, then writes the source's text to it.
    pub fn cp(&mut self, src_path: &str, dst_path: &str) -> (done: Result<(), FsError>)
        ensures
            cp_spec(old(self).disk(), src_path.spec_bytes(), dst_path.spec_bytes()) == (
                final(self).disk(),
                done,
            ),
            final(self).session() == old(self).session(),
            consistent(old(self).disk()) && plain_path(dst_path.spec_bytes()) ==> consistent(
                final(self).disk(),
            ),
    {
        proof {
            if consistent(old(self).disk()) && plain_path(dst_path.spec_bytes()) {
                lemma_cp_consistent(old(self).disk(), src_path.spec_bytes(), dst_path.spec_bytes());
            }
        }
        let ino: u32 = match resolve_path(&self.device, src_path.as_bytes()) {
            Err(e) => {
                return Err(e);
            },
            Ok(ino) => ino,
        };
        if !is_valid_ino(ino) {
            return Err(FsError::Corrupted);
        }
        let inode = read_inode(&self.device, ino);
        if inode.mode != InodeType::File {
            return Err(FsError::NotAFile);
        }
        if inode.blocks[0] == 0 {
            return match self.touch(dst_path) {
                Ok(()) => Ok(()),
                Err(e) => Err(e),
            };
        }
        if inode.size as usize > BLOCK_SIZE || !is_valid_ptr(inode.blocks[0]) {
            return Err(FsError::Corrupted);
        }
        let mut block = [0u8; BLOCK_SIZE];
        self.device.read_block(inode.blocks[0], &mut block);
        let text = decode_text(slice_subrange(block.as_slice(), 0, inode.size as usize));
        match self.touch(dst_path) {
            Err(e) => {
                return Err(e);
            },
            Ok(()) => {},
        }
        match self.write_file(dst_path, text.as_str()) {
            Err(e) => Err(e),
            Ok(_) => Ok(()),
        }
    }

    /// Moves what `src_path` names to `dst_path`. Only directory entries
    /// change; the inode and its data stay where they are.
    pub fn mv(&mut self, src_path: &str, dst_path: &str) -> (done: Result<(), FsError>)
        ensures
            outcome(
                done,
                mv_spec(old(self).disk(), src_path.spec_bytes(), dst_path.spec_bytes()),
                old(self).disk(),
                final(self).disk(),
            ),
            final(self).session() == old(self).session(),
            consistent(old(self).disk()) && plain_path(src_path.spec_bytes()) && plain_path(
                dst_path.spec_bytes(),
            ) && names_entry(src_path.spec_bytes()) ==> consistent(final(self).disk()),
    {
        let ino: u32 = match resolve_path(&self.device, src_path.as_bytes()) {
            Err(e) => {
                return Err(e);
            },
            Ok(ino) => ino,
        };
        let (dst_parent, dst_name) = resolve_parent(&self.device, dst_path.as_bytes());
        let dst_parent: u32 = match dst_parent {
            Err(e) => {
                return Err(e);
            },
            Ok(parent) => parent,
        };
        let (src_parent, src_name) = resolve_parent(&self.device, src_path.as_bytes());
        let src_parent: u32 = match src_parent {
            Err(e) => {
                return Err(e);
            },
            Ok(parent) => parent,
        };
        if !is_valid_ino(ino) {
            return Err(FsError::Corrupted);
        }
        let inode = read_inode(&self.device, ino);
        if inode.mode == InodeType::Directory && !is_valid_ptr(inode.blocks[0]) {
            return Err(FsError::Corrupted);
        }
        match add_dir_entry(&mut self.device, dst_parent, ino, dst_name) {
            Err(e) => {
                return Err(e);
            },
            Ok(()) => {},
        }
        remove_dir_entry(&mut self.device, src_parent, src_name);
        if inode.mode == InodeType::Directory {
            let mut block = [0u8; BLOCK_SIZE];
            self.device.read_block(inode.blocks[0], &mut block);
            put_le32(&mut block, DIR_ENTRY_SIZE, dst_parent);
            self.device.write_block(inode.blocks[0], &block);
        }
        proof {
            if consistent(old(self).disk()) && plain_path(src_path.spec_bytes()) && plain_path(
                dst_path.spec_bytes(),
            ) && names_entry(src_path.spec_bytes()) {
                lemma_mv_consistent(old(self).disk(), src_path.spec_bytes(), dst_path.spec_bytes());
            }
        }
        Ok(())
    }

    /// Lists what `path` names: the live entries of a directory, each with
    /// the mode of its inode, or the last name of the path for anything else.
    pub fn list_dir(&self, path: &str) -> (listing: Result<Listing, FsError>)
        ensures
            match (listing, list_spec(self.disk(), path.spec_bytes())) {
                (Ok(listing), Ok(shown)) => listing_shows(listing, shown),
                (Err(e), Err(meant)) => e == meant,
                _ => false,
            },
    {
        let bytes = path.as_bytes();
        let ino: u32 = match resolve_path(&self.device, bytes) {
            Err(e) => {
                return Err(e);
            },
            Ok(ino) => ino,
        };
        if !is_valid_ino(ino) {
            return Err(FsError::Corrupted);
        }
        let inode = read_inode(&self.device, ino);
        if inode.mode != InodeType::Directory {
            let name: &[u8] = match split_path(bytes) {
                Some((_, name)) => name,
                None => bytes,
            };
            return Ok(Listing::File(decode_text(name)));
        }
        if !is_valid_ptr(inode.blocks[0]) {
            return Err(FsError::Corrupted);
        }
        let mut block = [0u8; BLOCK_SIZE];
        self.device.read_block(inode.blocks[0], &mut block);
        let mut lines: Vec<ListedEntry> = Vec::new();
        let mut i: usize = 0;
        while i < ENTRIES_PER_BLOCK
            invariant
                i <= ENTRIES_PER_BLOCK,
                lines_show(lines@, entries(self.device@, block@, i as int)),
            decreases ENTRIES_PER_BLOCK - i,
        {
            let off: usize = i * DIR_ENTRY_SIZE;
            let entry = DirEntry::deserialize(
                slice_subrange(block.as_slice(), off, off + DIR_ENTRY_SIZE),
            );
            if entry.inode_no != 0 {
                let mode = if is_valid_ino(entry.inode_no) {
                    read_inode(&self.device, entry.inode_no).mode
                } else {
                    InodeType::Unused
                };
                lines.push(ListedEntry { name: entry.name, mode });
            }
            i += 1;
        }
        Ok(Listing::Directory(lines))
    }

    /// Makes the directory at `abs_path` the current directory. The image
    /// does not change.
    pub fn cd(&mut self, abs_path: &str) -> (done: Result<(), FsError>)
        ensures
            final(self).disk() == old(self).disk(),
            match done {
                Ok(()) => cd_spec(old(self).disk(), abs_path.spec_bytes()) == Ok::<u32, FsError>(
                    final(self).cwd_ino,
                ) && final(self).cwd_path@ == abs_path@,
                Err(e) => cd_spec(old(self).disk(), abs_path.spec_bytes()) == Err::<u32, FsError>(e)
                    && final(self).session() == old(self).session(),
            },
    {
        let ino: u32 = match resolve_path(&self.device, abs_path.as_bytes()) {
            Err(e) => {
                return Err(e);
            },
            Ok(ino) => ino,
        };
        if !is_valid_ino(ino) {
            return Err(FsError::Corrupted);
        }
        let inode = read_inode(&self.device, ino);
        if inode.mode != InodeType::Directory {
            return Err(FsError::NotADirectory);
        }
        self.cwd_ino = ino;
        self.cwd_path = abs_path.to_owned();
        Ok(())
    }
}

} // verus!

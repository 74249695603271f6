//! On-disk record shapes and their byte encodings. All integers are
//! little-endian.

use vstd::prelude::*;
use vstd::slice::*;
use vstd::utf8::*;
use crate::text::{decode_text, text_of};

verus! {

/// Size of one block of the image, in bytes.
pub const BLOCK_SIZE: usize = 4096;

/// Stride of one inode record inside the inode table, in bytes.
pub const INODE_SIZE: usize = 128;

/// Stride of one directory entry inside a directory block, in bytes.
pub const DIR_ENTRY_SIZE: usize = 64;

/// Format identifier stored at the start of the superblock.
pub const MAGIC: u32 = 0x12345678;

/// Longest name, in bytes, that a directory entry can hold.
pub const NAME_CAPACITY: usize = 60;

/// Number of direct block pointers in an inode record.
pub const DIRECT_POINTERS: usize = 12;

/// Bytes of an inode record that carry data; the rest of the stride is zero.
pub const INODE_USED: usize = 56;

/// Number of blocks in an image.
pub const TOTAL_BLOCKS: u32 = 1024;

/// Number of records in the inode table.
pub const INODE_COUNT: u32 = 128;

/// Block that holds the superblock.
pub const SUPERBLOCK_BLOCK: u32 = 0;

/// Block that holds the inode bitmap.
pub const INODE_BITMAP_BLOCK: u32 = 1;

/// Block that holds the data-block bitmap.
pub const DATA_BITMAP_BLOCK: u32 = 2;

/// First block of the inode table.
pub const INODE_TABLE_START: u32 = 3;

/// First block of the data area.
pub const DATA_AREA_START: u32 = 10;

/// Inode number of the root directory. Inode 0 is never used.
pub const ROOT_INO: u32 = 1;

/// One block of the image.
pub type Block = [u8; BLOCK_SIZE];

/// The `u32` whose little-endian bytes stand at `off` in `s`.
#[verifier::opaque]
pub open spec fn le32(s: Seq<u8>, off: int) -> u32 {
    (s[off] as int + s[off + 1] as int * 0x100 + s[off + 2] as int * 0x1_0000 + s[off + 3] as int
        * 0x100_0000) as u32
}

/// The four little-endian bytes of `x`.
pub open spec fn le32_bytes(x: u32) -> Seq<u8> {
    seq![
        (x % 0x100) as u8,
        ((x / 0x100) % 0x100) as u8,
        ((x / 0x1_0000) % 0x100) as u8,
        (x / 0x100_0000) as u8,
    ]
}

/// `s` with the bytes from `off` on replaced by `piece`.
pub open spec fn splice(s: Seq<u8>, off: int, piece: Seq<u8>) -> Seq<u8> {
    Seq::new(
        s.len(),
        |i: int|
            if off <= i < off + piece.len() {
                piece[i - off]
            } else {
                s[i]
            },
    )
}

/// Decoding four bytes that encode `x` gives `x` back.
pub proof fn law_le32_round_trip(x: u32)
    ensures
        le32_bytes(x).len() == 4,
        le32(le32_bytes(x), 0) == x,
{
    reveal(le32);
}

/// Where the four bytes at `off` are those of `x`, the integer read there is
/// `x`.
pub proof fn lemma_le32_at(s: Seq<u8>, off: int, x: u32)
    requires
        s[off] == le32_bytes(x)[0],
        s[off + 1] == le32_bytes(x)[1],
        s[off + 2] == le32_bytes(x)[2],
        s[off + 3] == le32_bytes(x)[3],
    ensures
        le32(s, off) == x,
{
    reveal(le32);
}

/// Four zero bytes read as 0.
pub proof fn lemma_le32_zero(s: Seq<u8>, off: int)
    requires
        s[off] == 0,
        s[off + 1] == 0,
        s[off + 2] == 0,
        s[off + 3] == 0,
    ensures
        le32(s, off) == 0,
{
    reveal(le32);
}

/// Reads the little-endian `u32` at `off`.
pub fn get_le32(buf: &[u8], off: usize) -> (x: u32)
    requires
        off + 4 <= buf@.len(),
    ensures
        x == le32(buf@, off as int),
{
    let b0: u32 = buf[off] as u32;
    let b1: u32 = buf[off + 1] as u32;
    let b2: u32 = buf[off + 2] as u32;
    let b3: u32 = buf[off + 3] as u32;
    proof {
        reveal(le32);
    }
    b0 + b1 * 0x100 + b2 * 0x1_0000 + b3 * 0x100_0000
}

/// Writes `x` at `off` as four little-endian bytes.
pub fn put_le32<const N: usize>(buf: &mut [u8; N], off: usize, x: u32)
    requires
        off + 4 <= N,
    ensures
        final(buf)@ == splice(old(buf)@, off as int, le32_bytes(x)),
{
    buf[off] = (x % 0x100) as u8;
    buf[off + 1] = ((x / 0x100) % 0x100) as u8;
    buf[off + 2] = ((x / 0x1_0000) % 0x100) as u8;
    buf[off + 3] = (x / 0x100_0000) as u8;
}

/// Copies `piece` into `buf` at `off`.
pub fn put_bytes<const N: usize, const M: usize>(buf: &mut [u8; N], off: usize, piece: &[u8; M])
    requires
        off + M <= N,
    ensures
        final(buf)@ == splice(old(buf)@, off as int, piece@),
{
    let mut i: usize = 0;
    while i < M
        invariant
            i <= M,
            off + M <= N,
            forall|j: int|
                0 <= j < N ==> (#[trigger] buf@[j]) == (if off <= j < off + i {
                    piece@[j - off]
                } else {
                    old(buf)@[j]
                }),
        decreases M - i,
    {
        buf[off + i] = piece[i];
        i += 1;
    }
}

/// What an inode record describes.
#[derive(Debug, PartialEq, Eq, Copy, Clone, Structural)]
pub enum InodeType {
    Unused,
    File,
    Directory,
}

impl InodeType {
    /// The number that stands for this mode on disk.
    pub open spec fn spec_tag(self) -> u32 {
        match self {
            InodeType::Unused => 0,
            InodeType::File => 1,
            InodeType::Directory => 2,
        }
    }

    /// The mode that a stored number stands for; an unknown number reads as
    /// `Unused`.
    pub open spec fn spec_from_tag(tag: u32) -> InodeType {
        if tag == 1 {
            InodeType::File
        } else if tag == 2 {
            InodeType::Directory
        } else {
            InodeType::Unused
        }
    }

    /// The number that stands for this mode on disk.
    pub fn tag(self) -> (t: u32)
        ensures
            t == self.spec_tag(),
    {
        match self {
            InodeType::Unused => 0,
            InodeType::File => 1,
            InodeType::Directory => 2,
        }
    }

    /// The mode that a stored number stands for.
    pub fn from_tag(tag: u32) -> (mode: InodeType)
        ensures
            mode == InodeType::spec_from_tag(tag),
    {
        if tag == 1 {
            InodeType::File
        } else if tag == 2 {
            InodeType::Directory
        } else {
            InodeType::Unused
        }
    }
}

/// Geometry of the image, stored in block 0.
#[derive(Debug, PartialEq, Eq, Copy, Clone, Structural)]
pub struct Superblock {
    pub magic: u32,
    pub total_blocks: u32,
    pub inode_count: u32,
    pub data_area_start: u32,
}

/// The block that stores `sb`: four integers, then zeros.
pub open spec fn encode_superblock(sb: Superblock) -> Seq<u8> {
    Seq::new(
        BLOCK_SIZE as nat,
        |i: int|
            if i < 4 {
                le32_bytes(sb.magic)[i]
            } else if i < 8 {
                le32_bytes(sb.total_blocks)[i - 4]
            } else if i < 12 {
                le32_bytes(sb.inode_count)[i - 8]
            } else if i < 16 {
                le32_bytes(sb.data_area_start)[i - 12]
            } else {
                0u8
            },
    )
}

/// The superblock that a block's leading bytes describe.
pub open spec fn decode_superblock(s: Seq<u8>) -> Superblock {
    Superblock {
        magic: le32(s, 0),
        total_blocks: le32(s, 4),
        inode_count: le32(s, 8),
        data_area_start: le32(s, 12),
    }
}

impl Superblock {
    /// Encodes the superblock as a full block.
    pub fn serialize(&self) -> (buf: Block)
        ensures
            buf@ == encode_superblock(*self),
    {
        let mut buf = [0u8; BLOCK_SIZE];
        put_le32(&mut buf, 0, self.magic);
        put_le32(&mut buf, 4, self.total_blocks);
        put_le32(&mut buf, 8, self.inode_count);
        put_le32(&mut buf, 12, self.data_area_start);
        buf
    }

    /// Decodes the superblock stored at the start of a block.
    pub fn deserialize(buf: &[u8]) -> (sb: Superblock)
        requires
            buf@.len() == BLOCK_SIZE,
        ensures
            sb == decode_superblock(buf@),
    {
        Superblock {
            magic: get_le32(buf, 0),
            total_blocks: get_le32(buf, 4),
            inode_count: get_le32(buf, 8),
            data_area_start: get_le32(buf, 12),
        }
    }
}

/// One record of the inode table.
#[derive(Debug, PartialEq, Eq, Copy, Clone)]
pub struct Inode {
    pub mode: InodeType,
    pub size: u32,
    pub blocks: [u32; 12],
}

/// An inode record as a mathematical value.
pub struct InodeView {
    pub mode: InodeType,
    pub size: u32,
    pub blocks: Seq<u32>,
}

impl View for Inode {
    type V = InodeView;

    open spec fn view(&self) -> InodeView {
        InodeView { mode: self.mode, size: self.size, blocks: self.blocks@ }
    }
}

/// The record bytes that store `v`: mode, size, twelve pointers, then zeros.
pub open spec fn encode_inode(v: InodeView) -> Seq<u8> {
    Seq::new(
        INODE_SIZE as nat,
        |i: int|
            if i < 4 {
                le32_bytes(v.mode.spec_tag())[i]
            } else if i < 8 {
                le32_bytes(v.size)[i - 4]
            } else if i < INODE_USED {
                le32_bytes(v.blocks[(i - 8) / 4])[(i - 8) % 4]
            } else {
                0u8
            },
    )
}

/// The inode that record bytes describe.
pub open spec fn decode_inode(s: Seq<u8>) -> InodeView {
    InodeView {
        mode: InodeType::spec_from_tag(le32(s, 0)),
        size: le32(s, 4),
        blocks: Seq::new(DIRECT_POINTERS as nat, |k: int| le32(s, 8 + 4 * k)),
    }
}

/// Decoding the bytes that encode an inode record gives the record back.
pub proof fn law_inode_round_trip(v: InodeView)
    requires
        v.blocks.len() == DIRECT_POINTERS,
    ensures
        encode_inode(v).len() == INODE_SIZE,
        decode_inode(encode_inode(v)) == v,
{
    let s = encode_inode(v);
    let w = decode_inode(s);
    lemma_le32_at(s, 0, v.mode.spec_tag());
    lemma_le32_at(s, 4, v.size);
    assert forall|k: int| 0 <= k < DIRECT_POINTERS implies w.blocks[k] == v.blocks[k] by {
        lemma_le32_at(s, 8 + 4 * k, v.blocks[k]);
    }
    assert(w.blocks =~= v.blocks);
}

/// Decoding the block that encodes a superblock gives the superblock back.
pub proof fn law_superblock_round_trip(sb: Superblock)
    ensures
        encode_superblock(sb).len() == BLOCK_SIZE,
        decode_superblock(encode_superblock(sb)) == sb,
{
    let s = encode_superblock(sb);
    lemma_le32_at(s, 0, sb.magic);
    lemma_le32_at(s, 4, sb.total_blocks);
    lemma_le32_at(s, 8, sb.inode_count);
    lemma_le32_at(s, 12, sb.data_area_start);
}

impl Inode {
    /// Encodes the record.
    pub fn serialize(&self) -> (buf: [u8; INODE_SIZE])
        ensures
            buf@ == encode_inode(self@),
    {
        let mut buf = [0u8; INODE_SIZE];
        put_le32(&mut buf, 0, self.mode.tag());
        put_le32(&mut buf, 4, self.size);
        let mut i: usize = 0;
        while i < 12
            invariant
                i <= 12,
                forall|j: int| 0 <= j < 8 + 4 * i ==> buf@[j] == encode_inode(self@)[j],
                forall|j: int| 8 + 4 * i <= j < INODE_SIZE ==> buf@[j] == 0,
            decreases 12 - i,
        {
            put_le32(&mut buf, 8 + i * 4, self.blocks[i]);
            i += 1;
        }
        buf
    }

    /// Decodes a record. A mode number that names no mode reads as `Unused`.
    pub fn deserialize(buf: &[u8]) -> (inode: Inode)
        requires
            buf@.len() == INODE_SIZE,
        ensures
            inode@ == decode_inode(buf@),
    {
        let mode = InodeType::from_tag(get_le32(buf, 0));
        let size = get_le32(buf, 4);
        let mut blocks = [0u32; 12];
        let mut i: usize = 0;
        while i < 12
            invariant
                i <= 12,
                buf@.len() == INODE_SIZE,
                forall|k: int| 0 <= k < i ==> blocks@[k] == le32(buf@, 8 + 4 * k),
            decreases 12 - i,
        {
            blocks[i] = get_le32(buf, 8 + i * 4);
            i += 1;
        }
        let inode = Inode { mode, size, blocks };
        proof {
            assert(inode@.blocks =~= decode_inode(buf@).blocks);
        }
        inode
    }
}

/// One entry of a directory block. Inode number 0 marks a free slot.
#[derive(Debug, PartialEq, Eq, Clone)]
pub struct DirEntry {
    pub inode_no: u32,
    pub name: String,
}

/// A directory entry as a mathematical value.
pub struct DirEntryView {
    pub inode_no: u32,
    pub name: Seq<char>,
}

impl View for DirEntry {
    type V = DirEntryView;

    open spec fn view(&self) -> DirEntryView {
        DirEntryView { inode_no: self.inode_no, name: self.name@ }
    }
}

/// The part of a name that fits into an entry: its first `NAME_CAPACITY`
/// bytes.
pub open spec fn cut_name(name: Seq<u8>) -> Seq<u8> {
    if name.len() <= NAME_CAPACITY {
        name
    } else {
        name.take(NAME_CAPACITY as int)
    }
}

/// The entry bytes for an inode number and a name of at most `NAME_CAPACITY`
/// bytes: the number, then the name, then zeros.
pub open spec fn entry_bytes(inode_no: u32, name: Seq<u8>) -> Seq<u8> {
    Seq::new(
        DIR_ENTRY_SIZE as nat,
        |i: int|
            if i < 4 {
                le32_bytes(inode_no)[i]
            } else if i - 4 < name.len() {
                name[i - 4]
            } else {
                0u8
            },
    )
}

/// Byte `j` of the name field of entry bytes `s`.
pub open spec fn name_byte(s: Seq<u8>, j: int) -> u8 {
    s[4 + j]
}

/// `n` is where the name stored in entry bytes `s` ends: at its first zero
/// byte, or at the end of the record.
pub open spec fn is_name_len(s: Seq<u8>, n: int) -> bool {
    &&& 0 <= n <= NAME_CAPACITY
    &&& forall|j: int| 0 <= j < n ==> #[trigger] name_byte(s, j) != 0
    &&& n < NAME_CAPACITY ==> name_byte(s, n) == 0
}

/// Length of the name stored in entry bytes `s`.
pub open spec fn name_len(s: Seq<u8>) -> int {
    choose|n: int| is_name_len(s, n)
}

/// The name stored in entry bytes `s`.
pub open spec fn entry_name(s: Seq<u8>) -> Seq<u8> {
    s.subrange(4, 4 + name_len(s))
}

/// Every record has exactly one name length.
pub proof fn lemma_name_len_unique(s: Seq<u8>, n: int)
    requires
        is_name_len(s, n),
    ensures
        name_len(s) == n,
{
    let m = name_len(s);
    if m < n {
        assert(name_byte(s, m) != 0);
    } else if n < m {
        assert(name_byte(s, n) != 0);
    }
}

/// A name that an entry stores whole: it fits and holds no zero byte.
pub open spec fn storable_name(name: Seq<u8>) -> bool {
    &&& name.len() <= NAME_CAPACITY
    &&& forall|j: int| 0 <= j < name.len() ==> name[j] != 0
}

/// An entry record starts with its inode number.
pub proof fn lemma_entry_bytes_ino(ino: u32, name: Seq<u8>)
    ensures
        entry_bytes(ino, name).len() == DIR_ENTRY_SIZE,
        le32(entry_bytes(ino, name), 0) == ino,
{
    lemma_le32_at(entry_bytes(ino, name), 0, ino);
}

/// An entry record with a name that it stores whole decodes to its inode
/// number and that name.
pub proof fn lemma_entry_bytes(ino: u32, name: Seq<u8>)
    requires
        storable_name(name),
    ensures
        entry_bytes(ino, name).len() == DIR_ENTRY_SIZE,
        le32(entry_bytes(ino, name), 0) == ino,
        entry_name(entry_bytes(ino, name)) == name,
{
    let s = entry_bytes(ino, name);
    lemma_le32_at(s, 0, ino);
    assert forall|j: int| 0 <= j < name.len() implies #[trigger] name_byte(s, j) != 0 by {
    }
    lemma_name_len_unique(s, name.len() as int);
}

/// Every record has a name length.
pub proof fn lemma_name_len_exists(s: Seq<u8>)
    ensures
        is_name_len(s, name_len(s)),
{
    lemma_name_len_from(s, 0);
}

proof fn lemma_name_len_from(s: Seq<u8>, k: int)
    requires
        0 <= k <= NAME_CAPACITY,
        forall|j: int| 0 <= j < k ==> #[trigger] name_byte(s, j) != 0,
    ensures
        exists|n: int| is_name_len(s, n),
    decreases NAME_CAPACITY - k,
{
    if k == NAME_CAPACITY || name_byte(s, k) == 0 {
        assert(is_name_len(s, k));
    } else {
        lemma_name_len_from(s, k + 1);
    }
}

/// The name that a record stores depends on its name field only.
pub proof fn lemma_entry_name_same(a: Seq<u8>, b: Seq<u8>)
    requires
        a.len() == DIR_ENTRY_SIZE,
        b.len() == DIR_ENTRY_SIZE,
        forall|i: int| 4 <= i < DIR_ENTRY_SIZE ==> a[i] == b[i],
    ensures
        entry_name(a) == entry_name(b),
{
    lemma_name_len_exists(a);
    let n = name_len(a);
    assert forall|j: int| 0 <= j < n implies #[trigger] name_byte(b, j) != 0 by {
        assert(name_byte(a, j) != 0);
    }
    lemma_name_len_unique(b, n);
}

/// The bytes that store an entry.
pub open spec fn encode_entry(v: DirEntryView) -> Seq<u8> {
    entry_bytes(v.inode_no, cut_name(encode_utf8(v.name)))
}

/// The entry that record bytes describe.
pub open spec fn decode_entry(s: Seq<u8>) -> DirEntryView {
    DirEntryView { inode_no: le32(s, 0), name: text_of(entry_name(s)) }
}

/// Decoding the bytes that encode an entry gives the entry back, where the
/// entry's name is stored whole.
pub proof fn law_entry_round_trip(v: DirEntryView)
    requires
        storable_name(encode_utf8(v.name)),
    ensures
        encode_entry(v).len() == DIR_ENTRY_SIZE,
        decode_entry(encode_entry(v)) == v,
{
    let bytes = encode_utf8(v.name);
    lemma_entry_bytes(v.inode_no, bytes);
    encode_utf8_valid_utf8(v.name);
    encode_utf8_decode_utf8(v.name);
}

/// Finds where the name stored in an entry record ends.
pub fn stored_name_len(buf: &[u8]) -> (n: usize)
    requires
        buf@.len() == DIR_ENTRY_SIZE,
    ensures
        n == name_len(buf@),
        n <= NAME_CAPACITY,
{
    let mut n: usize = 0;
    while n < NAME_CAPACITY && buf[4 + n] != 0
        invariant
            n <= NAME_CAPACITY,
            buf@.len() == DIR_ENTRY_SIZE,
            forall|j: int| 0 <= j < n ==> #[trigger] name_byte(buf@, j) != 0,
        decreases NAME_CAPACITY - n,
    {
        n += 1;
    }
    proof {
        lemma_name_len_unique(buf@, n as int);
    }
    n
}

/// Encodes an inode number and a name as one entry record. A name longer than
/// `NAME_CAPACITY` bytes is cut.
pub fn make_entry(inode_no: u32, name: &[u8]) -> (buf: [u8; DIR_ENTRY_SIZE])
    ensures
        buf@ == entry_bytes(inode_no, cut_name(name@)),
{
    let mut buf = [0u8; DIR_ENTRY_SIZE];
    put_le32(&mut buf, 0, inode_no);
    let len: usize = if name.len() < NAME_CAPACITY {
        name.len()
    } else {
        NAME_CAPACITY
    };
    let mut i: usize = 0;
    while i < len
        invariant
            i <= len,
            len <= NAME_CAPACITY,
            len <= name@.len(),
            forall|j: int| 0 <= j < 4 ==> buf@[j] == le32_bytes(inode_no)[j],
            forall|j: int| 0 <= j < i ==> buf@[4 + j] == name@[j],
            forall|j: int| 4 + i <= j < DIR_ENTRY_SIZE ==> buf@[j] == 0,
        decreases len - i,
    {
        buf[4 + i] = name[i];
        i += 1;
    }
    buf
}

impl DirEntry {
    /// Encodes the entry. A name longer than `NAME_CAPACITY` bytes is cut.
    pub fn serialize(&self) -> (buf: [u8; DIR_ENTRY_SIZE])
        ensures
            buf@ == encode_entry(self@),
    {
        make_entry(self.inode_no, self.name.as_str().as_bytes())
    }

    /// Decodes an entry. The name ends at the first zero byte, or at the end
    /// of the record.
    pub fn deserialize(buf: &[u8]) -> (entry: DirEntry)
        requires
            buf@.len() == DIR_ENTRY_SIZE,
        ensures
            entry@ == decode_entry(buf@),
    {
        let inode_no = get_le32(buf, 0);
        let n = stored_name_len(buf);
        let name = decode_text(slice_subrange(buf, 4, 4 + n));
        DirEntry { inode_no, name }
    }
}

} // verus!

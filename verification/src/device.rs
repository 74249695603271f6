//! The block store under the filesystem: a fixed number of fixed-size blocks,
//! held in memory and addressed by index.

use vstd::prelude::*;
use crate::layout::{Block, BLOCK_SIZE, TOTAL_BLOCKS};

verus! {

/// A disk image as a mathematical value: one byte sequence per block.
pub type Disk = Seq<Seq<u8>>;

/// The image has `TOTAL_BLOCKS` blocks of `BLOCK_SIZE` bytes each.
pub open spec fn disk_wf(d: Disk) -> bool {
    &&& d.len() == TOTAL_BLOCKS
    &&& forall|i: int| 0 <= i < d.len() ==> (#[trigger] d[i]).len() == BLOCK_SIZE
}

/// The image whose bytes are all zero.
pub open spec fn blank_disk() -> Disk {
    Seq::new(TOTAL_BLOCKS as nat, |i: int| Seq::new(BLOCK_SIZE as nat, |j: int| 0u8))
}

/// The image whose blocks are cut from `bytes` in order. Where `bytes` ends
/// early the rest is zero; what lies beyond the last block is left out.
pub open spec fn disk_of_bytes(bytes: Seq<u8>) -> Disk {
    Seq::new(
        TOTAL_BLOCKS as nat,
        |i: int|
            Seq::new(
                BLOCK_SIZE as nat,
                |j: int|
                    if i * BLOCK_SIZE + j < bytes.len() {
                        bytes[i * BLOCK_SIZE + j]
                    } else {
                        0u8
                    },
            ),
    )
}

/// The bytes of an image, block after block.
pub open spec fn bytes_of_disk(d: Disk) -> Seq<u8> {
    Seq::new(
        (TOTAL_BLOCKS * BLOCK_SIZE) as nat,
        |k: int| d[k / (BLOCK_SIZE as int)][k % (BLOCK_SIZE as int)],
    )
}

/// A disk image in memory.
pub struct BlockDevice {
    blocks: Vec<Block>,
}

impl View for BlockDevice {
    type V = Disk;

    closed spec fn view(&self) -> Disk {
        Seq::new(TOTAL_BLOCKS as nat, |i: int| self.blocks@[i]@)
    }
}

impl BlockDevice {
    #[verifier::type_invariant]
    spec fn inv(self) -> bool {
        self.blocks@.len() == TOTAL_BLOCKS
    }

    /// The image of a device has the right number of blocks of the right
    /// size.
    pub proof fn lemma_wf(&self)
        ensures
            disk_wf(self@),
    {
    }

    /// A zeroed image.
    pub fn new() -> (dev: BlockDevice)
        ensures
            dev@ == blank_disk(),
            disk_wf(dev@),
    {
        let mut blocks: Vec<Block> = Vec::new();
        let mut i: u32 = 0;
        while i < TOTAL_BLOCKS
            invariant
                i <= TOTAL_BLOCKS,
                blocks@.len() == i,
                forall|a: int, j: int|
                    0 <= a < i && 0 <= j < BLOCK_SIZE ==> (#[trigger] blocks@[a]@[j]) == 0,
            decreases TOTAL_BLOCKS - i,
        {
            blocks.push([0u8; BLOCK_SIZE]);
            i += 1;
        }
        let dev = BlockDevice { blocks };
        proof {
            assert forall|a: int| 0 <= a < dev@.len() implies #[trigger] dev@[a]
                =~= blank_disk()[a] by {
                assert forall|j: int| 0 <= j < BLOCK_SIZE implies #[trigger] dev@[a][j] == 0u8 by {
                }
            }
        }
        dev
    }

    /// Loads an image from its bytes. Missing bytes read as zero; bytes
    /// beyond the last block are ignored.
    pub fn from_image(bytes: &[u8]) -> (dev: BlockDevice)
        ensures
            dev@ == disk_of_bytes(bytes@),
            disk_wf(dev@),
    {
        let mut blocks: Vec<Block> = Vec::new();
        let mut i: usize = 0;
        while i < TOTAL_BLOCKS as usize
            invariant
                i <= TOTAL_BLOCKS,
                blocks@.len() == i,
                forall|a: int| 0 <= a < i ==> (#[trigger] blocks@[a])@ == disk_of_bytes(bytes@)[a],
            decreases TOTAL_BLOCKS - i,
        {
            let mut block = [0u8; BLOCK_SIZE];
            let base: usize = i * BLOCK_SIZE;
            let mut j: usize = 0;
            while j < BLOCK_SIZE
                invariant
                    j <= BLOCK_SIZE,
                    i < TOTAL_BLOCKS,
                    base == i * BLOCK_SIZE,
                    forall|b: int| 0 <= b < j ==> (#[trigger] block@[b]) == disk_of_bytes(bytes@)[i as int][b],
                    forall|b: int| j <= b < BLOCK_SIZE ==> (#[trigger] block@[b]) == 0,
                decreases BLOCK_SIZE - j,
            {
                if base + j < bytes.len() {
                    block[j] = bytes[base + j];
                }
                j += 1;
            }
            blocks.push(block);
            i += 1;
        }
        let dev = BlockDevice { blocks };
        dev
    }

    /// The bytes of the image, block after block.
    pub fn to_image(&self) -> (bytes: Vec<u8>)
        ensures
            bytes@ == bytes_of_disk(self@),
    {
        proof {
            use_type_invariant(self);
        }
        let mut bytes: Vec<u8> = Vec::new();
        let mut i: usize = 0;
        while i < TOTAL_BLOCKS as usize
            invariant
                i <= TOTAL_BLOCKS,
                self.blocks@.len() == TOTAL_BLOCKS,
                bytes@.len() == i * BLOCK_SIZE,
                forall|k: int| 0 <= k < bytes@.len() ==> (#[trigger] bytes@[k]) == bytes_of_disk(self@)[k],
            decreases TOTAL_BLOCKS - i,
        {
            let mut j: usize = 0;
            while j < BLOCK_SIZE
                invariant
                    j <= BLOCK_SIZE,
                    i < TOTAL_BLOCKS,
                    self.blocks@.len() == TOTAL_BLOCKS,
                    bytes@.len() == i * BLOCK_SIZE + j,
                    forall|k: int| 0 <= k < bytes@.len() ==> (#[trigger] bytes@[k]) == bytes_of_disk(self@)[k],
                decreases BLOCK_SIZE - j,
            {
                bytes.push(self.blocks[i][j]);
                j += 1;
            }
            i += 1;
        }
        bytes
    }

    /// Copies block `idx` into `buf`.
    pub fn read_block(&self, idx: u32, buf: &mut Block)
        requires
            idx < TOTAL_BLOCKS,
        ensures
            final(buf)@ == self@[idx as int],
            disk_wf(self@),
    {
        proof {
            use_type_invariant(self);
        }
        *buf = self.blocks[idx as usize];
    }

    /// Replaces block `idx` by `buf`.
    pub fn write_block(&mut self, idx: u32, buf: &Block)
        requires
            idx < TOTAL_BLOCKS,
        ensures
            final(self)@ == old(self)@.update(idx as int, buf@),
            disk_wf(final(self)@),
    {
        proof {
            use_type_invariant(&*self);
        }
        self.blocks[idx as usize] = *buf;
    }
}

} // verus!

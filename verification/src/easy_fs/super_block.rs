//! The super block, the first block of a file system.
use super::block_cache::DiskRecord;
use super::bytes;
use super::bytes::{read_u32, write_words};
use vstd::prelude::*;

verus! {

/// Magic number of a file system.
pub const EFS_MAGIC: u32 = 0x3b800001;

/// Says where the areas of the file system lie.
#[derive(Debug)]
pub struct SuperBlock {
    /// `EFS_MAGIC` in a valid file system.
    pub magic: u32,
    /// Blocks of the whole file system.
    pub total_blocks: u32,
    /// Blocks of the inode bitmap.
    pub inode_bitmap_blocks: u32,
    /// Blocks of the inode area.
    pub inode_area_blocks: u32,
    /// Blocks of the data bitmap.
    pub data_bitmap_blocks: u32,
    /// Blocks of the data area.
    pub data_area_blocks: u32,
}

impl View for SuperBlock {
    type V = SuperBlock;

    open spec fn view(&self) -> SuperBlock {
        *self
    }
}

impl SuperBlock {
    /// The fields in the order in which they lie on disk.
    pub open spec fn words(&self) -> Seq<u32> {
        seq![
            self.magic,
            self.total_blocks,
            self.inode_bitmap_blocks,
            self.inode_area_blocks,
            self.data_bitmap_blocks,
            self.data_area_blocks,
        ]
    }

    /// Whether the magic number is right.
    pub open spec fn valid(&self) -> bool {
        self.magic == EFS_MAGIC
    }

    /// A super block that was stored is read back.
    pub proof fn lemma_read_back(value: SuperBlock, old_bytes: Seq<u8>)
        ensures
            SuperBlock::stored(value, old_bytes).len() == 24,
            SuperBlock::parse(SuperBlock::stored(value, old_bytes)) == value,
    {
        let w = value.words();
        let s = SuperBlock::stored(value, old_bytes);
        assert(s =~= bytes::words_bytes(w) + Seq::<u8>::empty());
        bytes::lemma_words_bytes(w, Seq::empty(), 0);
        bytes::lemma_words_bytes(w, Seq::empty(), 1);
        bytes::lemma_words_bytes(w, Seq::empty(), 2);
        bytes::lemma_words_bytes(w, Seq::empty(), 3);
        bytes::lemma_words_bytes(w, Seq::empty(), 4);
        bytes::lemma_words_bytes(w, Seq::empty(), 5);
    }

    /// Initialize a super block.
    pub fn initialize(
        &mut self,
        total_blocks: u32,
        inode_bitmap_blocks: u32,
        inode_area_blocks: u32,
        data_bitmap_blocks: u32,
        data_area_blocks: u32,
    )
        ensures
            *final(self) == (SuperBlock {
                magic: EFS_MAGIC,
                total_blocks,
                inode_bitmap_blocks,
                inode_area_blocks,
                data_bitmap_blocks,
                data_area_blocks,
            }),
    {
        *self =
        SuperBlock {
            magic: EFS_MAGIC,
            total_blocks,
            inode_bitmap_blocks,
            inode_area_blocks,
            data_bitmap_blocks,
            data_area_blocks,
        };
    }

    /// Check if a super block is valid by its magic number.
    pub fn is_valid(&self) -> (r: bool)
        ensures
            r == self.valid(),
    {
        self.magic == EFS_MAGIC
    }
}

impl DiskRecord for SuperBlock {
    open spec fn size() -> nat {
        24
    }

    open spec fn parse(s: Seq<u8>) -> SuperBlock {
        SuperBlock {
            magic: bytes::u32_at(s, 0),
            total_blocks: bytes::u32_at(s, 4),
            inode_bitmap_blocks: bytes::u32_at(s, 8),
            inode_area_blocks: bytes::u32_at(s, 12),
            data_bitmap_blocks: bytes::u32_at(s, 16),
            data_area_blocks: bytes::u32_at(s, 20),
        }
    }

    open spec fn stored(value: SuperBlock, s: Seq<u8>) -> Seq<u8> {
        bytes::words_bytes(value.words())
    }

    fn byte_size() -> (n: usize) {
        24
    }

    fn load(s: &[u8]) -> (r: Self) {
        SuperBlock {
            magic: read_u32(s, 0),
            total_blocks: read_u32(s, 4),
            inode_bitmap_blocks: read_u32(s, 8),
            inode_area_blocks: read_u32(s, 12),
            data_bitmap_blocks: read_u32(s, 16),
            data_area_blocks: read_u32(s, 20),
        }
    }

    fn save(&self, dst: &mut Vec<u8>, offset: usize) {
        let words: Vec<u32> = vec![
            self.magic,
            self.total_blocks,
            self.inode_bitmap_blocks,
            self.inode_area_blocks,
            self.data_bitmap_blocks,
            self.data_area_blocks,
        ];
        assert(words@ =~= self.words());
        write_words(dst, offset, &words);
    }
}

} // verus!

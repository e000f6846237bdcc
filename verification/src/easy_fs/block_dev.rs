//! Block devices.
use vstd::prelude::*;

verus! {

/// Blocks, by block number.
pub type Blocks = Seq<Seq<u8>>;

/// A device that reads and writes data in the unit of blocks. Whoever brings
/// the file system to a device implements it.
pub trait BlockDevice {
    /// The blocks that the device holds. It stands in contracts only, and is never
    /// called.
    spec fn blocks(&self) -> Blocks;

    /// Read data from a block to the buffer.
    fn read_block(&self, block_id: usize, buf: &mut [u8])
        requires
            block_id < self.blocks().len(),
            self.blocks()[block_id as int].len() == super::BLOCK_SZ,
            old(buf)@.len() == super::BLOCK_SZ,
        ensures
            final(buf)@ == self.blocks()[block_id as int],
    ;

    /// Write data from the buffer to a block.
    fn write_block(&mut self, block_id: usize, buf: &[u8])
        requires
            block_id < old(self).blocks().len(),
            buf@.len() == super::BLOCK_SZ,
        ensures
            final(self).blocks() == old(self).blocks().update(block_id as int, buf@),
    ;
}

} // verus!

use vstd::prelude::*;
use crate::fs_utils::BLOCK_SIZE;
use crate::fs_error::{FSError, FSResult, InvalidInputKind};
use super::block_device::{BlockDevice, well_sized, device_result};

verus! {

/// A storage system held in memory.
pub struct MemoryDevice {
    blocks: Vec<[u8; BLOCK_SIZE]>,
}

/// A block of zeros.
pub open spec fn zero_block() -> Seq<u8> {
    Seq::new(BLOCK_SIZE as nat, |i: int| 0u8)
}

impl MemoryDevice {
    pub closed spec fn spec_blocks(&self) -> Seq<Seq<u8>> {
        Seq::new(self.blocks@.len(), |i: int| self.blocks@[i]@)
    }

    /// A device of `blocks` blocks, all zero.
    pub fn empty(blocks: u64) -> (r: Self)
        requires
            blocks <= u32::MAX,
        ensures
            r.inv(),
            r.blocks() == Seq::new(blocks as nat, |i: int| zero_block()),
    {
        let v: Vec<[u8; BLOCK_SIZE]> = vec![[0u8; BLOCK_SIZE]; blocks as usize];
        let r = MemoryDevice { blocks: v };
        assert(r.blocks() =~= Seq::new(blocks as nat, |i: int| zero_block())) by {
            assert forall|i: int| 0 <= i < blocks implies r.blocks()[i] =~= zero_block() by {
                assert(r.blocks@[i] == [0u8; BLOCK_SIZE]);
            }
        }
        r
    }

    /// Builds a device out of the given blocks.
    pub fn from_blocks(blocks: Vec<[u8; BLOCK_SIZE]>) -> (r: Self)
        requires
            blocks@.len() <= u32::MAX,
        ensures
            r.inv(),
            r.blocks() == Seq::new(blocks@.len(), |i: int| blocks@[i]@),
    {
        MemoryDevice { blocks }
    }

    /// The blocks of the device, in order.
    pub fn to_blocks(&self) -> (r: &Vec<[u8; BLOCK_SIZE]>)
        ensures
            Seq::new(r@.len(), |i: int| r@[i]@) == self.blocks(),
    {
        &self.blocks
    }
}

impl BlockDevice for MemoryDevice {
    open spec fn blocks(&self) -> Seq<Seq<u8>> {
        self.spec_blocks()
    }

    closed spec fn inv(&self) -> bool {
        self.blocks@.len() <= u32::MAX
    }

    /// Memory never fails.
    open spec fn reliable(&self) -> bool {
        true
    }

    proof fn lemma_inv_well_sized(&self) {
    }

    fn read_block(&mut self, block: u32, buf: &mut [u8; BLOCK_SIZE]) -> (r: FSResult<()>)
        ensures
            r is Ok <==> block < old(self).blocks().len(),
    {
        if block as usize >= self.blocks.len() {
            return Err(FSError::InvalidInput(InvalidInputKind::BlockIndexOOB));
        }
        *buf = self.blocks[block as usize];
        Ok(())
    }

    fn write_block(&mut self, block: u32, buf: &[u8; BLOCK_SIZE]) -> (r: FSResult<()>)
        ensures
            r is Ok <==> block < old(self).blocks().len(),
    {
        if block as usize >= self.blocks.len() {
            return Err(FSError::InvalidInput(InvalidInputKind::BlockIndexOOB));
        }
        self.blocks.set(block as usize, *buf);
        assert(self.blocks() =~= old(self).blocks().update(block as int, buf@));
        Ok(())
    }

    fn block_count(&self) -> (n: u32) {
        self.blocks.len() as u32
    }

    fn resize(&mut self, blocks: u32) -> (r: FSResult<()>)
        ensures
            r is Ok,
            forall|i: int|
                old(self).blocks().len() <= i < blocks ==> #[trigger] final(self).blocks()[i] == zero_block(),
    {
        self.blocks.resize(blocks as usize, [0u8; BLOCK_SIZE]);
        assert forall|i: int|
            old(self).blocks().len() <= i < blocks implies #[trigger] self.blocks()[i] == zero_block() by {
            assert(self.blocks()[i] =~= zero_block());
        }
        Ok(())
    }

    fn flush(&mut self) -> (r: FSResult<()>)
        ensures
            r is Ok,
    {
        Ok(())
    }
}

} // verus!

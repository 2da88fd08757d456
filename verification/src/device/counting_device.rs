use vstd::prelude::*;
use crate::fs_utils::BLOCK_SIZE;
use crate::fs_error::FSResult;
use super::block_device::{BlockDevice, well_sized, device_result};

verus! {

/// `n + 1`, held at `u32::MAX` once it gets there.
pub open spec fn count_up(n: u32) -> u32 {
    if n < u32::MAX { (n + 1) as u32 } else { n }
}

/// A device in front of another that counts the reads and writes reaching
/// the device behind it (to observe what a cache saves).
pub struct CountingDevice<D: BlockDevice> {
    pub device: D,
    /// block reads handed to `device`
    pub reads: u32,
    /// block writes handed to `device`
    pub writes: u32,
}

impl<D: BlockDevice> CountingDevice<D> {
    /// Counts the accesses to `device`, starting from zero.
    pub fn new(device: D) -> (r: Self)
        ensures
            r.device == device,
            r.reads == 0,
            r.writes == 0,
    {
        CountingDevice { device, reads: 0, writes: 0 }
    }
}

impl<D: BlockDevice> BlockDevice for CountingDevice<D> {
    open spec fn blocks(&self) -> Seq<Seq<u8>> {
        self.device.blocks()
    }

    open spec fn inv(&self) -> bool {
        self.device.inv()
    }

    open spec fn reliable(&self) -> bool {
        self.device.reliable()
    }

    proof fn lemma_inv_well_sized(&self) {
        self.device.lemma_inv_well_sized();
    }

    fn read_block(&mut self, block: u32, buf: &mut [u8; BLOCK_SIZE]) -> (r: FSResult<()>)
        ensures
            final(self).reads == count_up(old(self).reads),
            final(self).writes == old(self).writes,
    {
        self.reads = if self.reads < u32::MAX { self.reads + 1 } else { self.reads };
        self.device.read_block(block, buf)
    }

    fn write_block(&mut self, block: u32, buf: &[u8; BLOCK_SIZE]) -> (r: FSResult<()>)
        ensures
            final(self).reads == old(self).reads,
            final(self).writes == count_up(old(self).writes),
    {
        self.writes = if self.writes < u32::MAX { self.writes + 1 } else { self.writes };
        self.device.write_block(block, buf)
    }

    fn block_count(&self) -> (n: u32) {
        self.device.block_count()
    }

    fn resize(&mut self, blocks: u32) -> (r: FSResult<()>)
        ensures
            final(self).reads == old(self).reads,
            final(self).writes == old(self).writes,
    {
        self.device.resize(blocks)
    }

    fn flush(&mut self) -> (r: FSResult<()>)
        ensures
            final(self).reads == old(self).reads,
            final(self).writes == old(self).writes,
    {
        self.device.flush()
    }
}

} // verus!

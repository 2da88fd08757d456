use vstd::prelude::*;
use crate::fs_utils::BLOCK_SIZE;
use crate::fs_error::{FSError, FSResult};

verus! {

/// Every block holds `BLOCK_SIZE` bytes and the blocks can be numbered by `u32`.
pub open spec fn well_sized(blocks: Seq<Seq<u8>>) -> bool {
    &&& blocks.len() <= u32::MAX
    &&& forall|i: int| 0 <= i < blocks.len() ==> #[trigger] blocks[i].len() == BLOCK_SIZE
}

/// The result of a device operation: any failure is a device error.
pub open spec fn device_result(r: FSResult<()>) -> bool {
    match r {
        Ok(_) => true,
        Err(e) => e.is_device_error(),
    }
}

/// Where the physical storage is (RAM, file, a cache in front of another
/// device): a numbered collection of blocks of `BLOCK_SIZE` bytes.
pub trait BlockDevice {
    /// The contents of the device, block by block.
    spec fn blocks(&self) -> Seq<Seq<u8>>;

    /// The internal invariant of the device.
    spec fn inv(&self) -> bool;

    /// The device never fails on a block it has: reading or writing such a
    /// block, resizing and flushing succeed, and it stays so.
    spec fn reliable(&self) -> bool;

    proof fn lemma_inv_well_sized(&self)
        requires
            self.inv(),
        ensures
            well_sized(self.blocks()),
    ;

    /// Reads block `block` into `buf`. Reading never changes the contents.
    fn read_block(&mut self, block: u32, buf: &mut [u8; BLOCK_SIZE]) -> (r: FSResult<()>)
        requires
            old(self).inv(),
        ensures
            final(self).inv(),
            final(self).blocks() == old(self).blocks(),
            device_result(r),
            r is Ok && block < old(self).blocks().len() ==> final(buf)@ == old(self).blocks()[block as int],
            old(self).reliable() && block < old(self).blocks().len() ==> r is Ok && final(self).reliable(),
    ;

    /// Writes `buf` to block `block`. On success the block holds `buf`; the
    /// other blocks never change.
    fn write_block(&mut self, block: u32, buf: &[u8; BLOCK_SIZE]) -> (r: FSResult<()>)
        requires
            old(self).inv(),
        ensures
            final(self).inv(),
            final(self).blocks() == (if r is Ok && block < old(self).blocks().len() {
                old(self).blocks().update(block as int, buf@)
            } else {
                old(self).blocks()
            }),
            device_result(r),
            old(self).reliable() && block < old(self).blocks().len() ==> r is Ok && final(self).reliable(),
    ;

    fn block_count(&self) -> (n: u32)
        requires
            self.inv(),
        ensures
            n == self.blocks().len(),
    ;

    /// Changes the number of blocks; the blocks that remain keep their contents.
    fn resize(&mut self, blocks: u32) -> (r: FSResult<()>)
        requires
            old(self).inv(),
        ensures
            final(self).inv(),
            device_result(r),
            r is Ok ==> final(self).blocks().len() == blocks,
            r is Ok ==> forall|i: int|
                0 <= i < blocks && i < old(self).blocks().len() ==> #[trigger] final(self).blocks()[i] == old(self).blocks()[i],
            r is Err ==> final(self).blocks() == old(self).blocks(),
            old(self).reliable() ==> r is Ok && final(self).reliable(),
    ;

    /// Writes back whatever the device holds in front of its storage. The
    /// contents, as seen through the device, do not change.
    fn flush(&mut self) -> (r: FSResult<()>)
        requires
            old(self).inv(),
        ensures
            final(self).inv(),
            final(self).blocks() == old(self).blocks(),
            device_result(r),
            old(self).reliable() ==> r is Ok && final(self).reliable(),
    ;
}

} // verus!

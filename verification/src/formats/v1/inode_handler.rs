use vstd::prelude::*;
use vstd::slice::slice_subrange;
use vstd::bytes::{u32_to_le_bytes, spec_u32_to_le_bytes, spec_u32_from_le_bytes, lemma_auto_spec_u32_to_from_le_bytes};
use crate::fs_utils::{BLOCK_SIZE, overwrite, copy_into, read_u32};
use crate::fs_error::{FSError, FSResult, InvalidInputKind};
use crate::device::block_device::device_result;
use crate::device::block_device::BlockDevice;
use super::inode::{INode, inode_bytes, inode_from_bytes, u32_at, lemma_inode_bytes_len, lemma_inode_roundtrip,
    DIRECT_COUNT, INDIRECT_COUNT, DOUBLE_COUNT, MAX_BLOCKS, INODE_BYTES};

verus! {

/// Bytes of the device given to each inode of the table.
pub const INODE_SLOT: usize = 96;

/// The bytes of inode slot `index` of the table that starts at block `table_start`.
pub open spec fn inode_slot(dev: Seq<Seq<u8>>, table_start: int, index: int) -> Seq<u8> {
    let off = (index % 2) * 96;
    dev[table_start + index / 2].subrange(off, off + 96)
}

/// The inode stored in slot `index` of the table.
pub open spec fn inode_at(dev: Seq<Seq<u8>>, table_start: int, index: int) -> INode {
    inode_from_bytes(inode_slot(dev, table_start, index))
}

/// The bytes written to an inode slot: the encoded inode, then zeros.
pub open spec fn inode_slot_bytes(n: INode) -> Seq<u8> {
    inode_bytes(n) + Seq::new(4, |i: int| 0u8)
}

/// The device after writing inode `n` to slot `index` of the table.
pub open spec fn with_inode(dev: Seq<Seq<u8>>, table_start: int, index: int, n: INode) -> Seq<Seq<u8>> {
    let blk = table_start + index / 2;
    dev.update(blk, overwrite(dev[blk], (index % 2) * 96, inode_slot_bytes(n)))
}

/// The address of the `k`-th data block of inode `n` (relative to the data
/// region that starts at `data_start`), following the indirect blocks.
pub open spec fn block_at(dev: Seq<Seq<u8>>, data_start: int, n: INode, k: int) -> u32 {
    if k < 12 {
        n.direct@[k]
    } else if k < 76 {
        u32_at(dev[data_start + n.indirect], (k - 12) * 4)
    } else {
        let d = k - 76;
        let ind = u32_at(dev[data_start + n.double], (d / 64) * 4);
        u32_at(dev[data_start + ind], (d % 64) * 4)
    }
}

/// The device blocks that `block_at` reads for index `k` lie on the device.
pub open spec fn block_at_on_device(dev: Seq<Seq<u8>>, data_start: int, n: INode, k: int) -> bool {
    if k < 12 {
        true
    } else if k < 76 {
        data_start + n.indirect < dev.len()
    } else {
        let d = k - 76;
        let ind = u32_at(dev[data_start + n.double], (d / 64) * 4);
        &&& data_start + n.double < dev.len()
        &&& data_start + ind < dev.len()
    }
}

/// Metadata blocks needed by an inode with `blocks` data blocks.
pub open spec fn metadata_blocks(blocks: int) -> int {
    if blocks <= 12 {
        0
    } else if blocks <= 76 {
        1
    } else {
        2 + (blocks - 76 + 63) / 64
    }
}

/// Manages the table of inodes (which needs placement inside blocks) and the
/// data blocks assigned to inodes (which need resolution through indirect blocks).
pub struct INodeTableHandler {
    pub inode_table_start: u32,
    pub inode_table_blocks: u32,
    pub data_start: u32,
}

impl INodeTableHandler {
    /// Every block of the table and every inode index can be numbered by `u32`.
    pub open spec fn wf(&self) -> bool {
        &&& self.inode_table_start + self.inode_table_blocks <= u32::MAX
        &&& self.inode_table_blocks * 2 <= u32::MAX
    }

    pub open spec fn max_inodes(&self) -> int {
        self.inode_table_blocks * 2
    }

    pub fn new(inode_table_start: u32, inode_table_blocks: u32, data_start: u32) -> (r: Self)
        ensures
            r.inode_table_start == inode_table_start,
            r.inode_table_blocks == inode_table_blocks,
            r.data_start == data_start,
    {
        INodeTableHandler { inode_table_start, inode_table_blocks, data_start }
    }

    /// Writes `inode` to slot `index` of the table.
    pub fn write_inode<D: BlockDevice>(&self, device: &mut D, index: u32, inode: &INode) -> (r: FSResult<()>)
        requires
            self.wf(),
            old(device).inv(),
            self.inode_table_start + self.inode_table_blocks <= old(device).blocks().len(),
        ensures
            final(device).inv(),
            match r {
                Ok(_) => final(device).blocks() == with_inode(old(device).blocks(), self.inode_table_start as int, index as int, *inode),
                Err(FSError::InvalidInput(InvalidInputKind::INodeIndexOOB { index: i, max: m })) =>
                    index >= self.max_inodes() && i == index && m == self.max_inodes()
                    && final(device).blocks() == old(device).blocks(),
                Err(e) => e.is_device_error() && final(device).blocks() == old(device).blocks(),
            },
            index >= self.max_inodes() ==> (r matches Err(FSError::InvalidInput(
                InvalidInputKind::INodeIndexOOB { index: i, max: m })) && i == index && m == self.max_inodes()),
            old(device).reliable() && index < self.max_inodes() ==> r is Ok && final(device).reliable(),
    {
        let max_inode_index = self.inode_table_blocks * INode::inodes_per_block();
        if index >= max_inode_index {
            return Err(FSError::InvalidInput(InvalidInputKind::INodeIndexOOB { index, max: max_inode_index }));
        }
        proof {
            device.lemma_inv_well_sized();
        }
        let inode_block = self.inode_table_start + index / INode::inodes_per_block();
        let offset = index % INode::inodes_per_block();

        let mut buf = [0u8; BLOCK_SIZE];
        let ghost zeros = buf@;
        inode.serialize(&mut buf);
        proof {
            lemma_inode_bytes_len(*inode);
        }

        let mut block = [0u8; BLOCK_SIZE];
        match device.read_block(inode_block, &mut block) {
            Err(e) => { return Err(e); },
            Ok(_) => {},
        }
        let size = INode::on_disk_size();
        let start = offset as usize * size;
        let slot = slice_prefix(&buf, size);
        assert(slot@ =~= inode_slot_bytes(*inode));
        copy_into(&mut block, start, slot);
        match device.write_block(inode_block, &block) {
            Err(e) => { return Err(e); },
            Ok(_) => {},
        }
        Ok(())
    }

    /// Reads the inode in slot `index` of the table.
    pub fn read_inode<D: BlockDevice>(&self, device: &mut D, index: u32) -> (r: FSResult<INode>)
        requires
            self.wf(),
            old(device).inv(),
            self.inode_table_start + self.inode_table_blocks <= old(device).blocks().len(),
        ensures
            final(device).inv(),
            final(device).blocks() == old(device).blocks(),
            match r {
                Ok(n) => index < self.max_inodes() && n == inode_at(old(device).blocks(), self.inode_table_start as int, index as int),
                Err(FSError::InvalidInput(InvalidInputKind::INodeIndexOOB { index: i, max: m })) =>
                    index >= self.max_inodes() && i == index && m == self.max_inodes(),
                Err(e) => e.is_device_error(),
            },
            index >= self.max_inodes() ==> (r matches Err(FSError::InvalidInput(InvalidInputKind::INodeIndexOOB { .. }))),
            old(device).reliable() && index < self.max_inodes() ==> r is Ok && final(device).reliable(),
    {
        let max_inode_index = self.inode_table_blocks * INode::inodes_per_block();
        if index >= max_inode_index {
            return Err(FSError::InvalidInput(InvalidInputKind::INodeIndexOOB { index, max: max_inode_index }));
        }
        let inode_block = self.inode_table_start + index / INode::inodes_per_block();
        let offset = index % INode::inodes_per_block();
        let mut block = [0u8; BLOCK_SIZE];
        match device.read_block(inode_block, &mut block) {
            Err(e) => { return Err(e); },
            Ok(_) => {},
        }
        let size = INode::on_disk_size();
        let start = offset as usize * size;
        let slot = slice_subrange(block.as_slice(), start, start + size);
        let inode = INode::deserialize(slot);
        Ok(inode)
    }

    /// The number of new metadata blocks (indirect blocks) needed to give `n`
    /// more data blocks to `inode`.
    pub fn blocks_necessary_to_grow_n(&self, inode: &INode, n: u32) -> (r: u32)
        ensures
            r == metadata_blocks(inode.blocks + n) - metadata_blocks(inode.blocks as int),
    {
        let current = inode.blocks as u64;
        let new = current + n as u64;
        proof {
            lemma_metadata_blocks_monotonic(current as int, new as int);
        }
        (metadata_blocks_count(new) - metadata_blocks_count(current)) as u32
    }

    /// The number of new metadata blocks needed to give one more data block to `inode`.
    pub fn blocks_necessary_to_grow(&self, inode: &INode) -> (r: u32)
        ensures
            r == metadata_blocks(inode.blocks + 1) - metadata_blocks(inode.blocks as int),
    {
        self.blocks_necessary_to_grow_n(inode, 1)
    }

    /// The `index`-th address stored in the indirect block `indirect`
    /// (addresses relative to the data region).
    fn resolve_indirect<D: BlockDevice>(&self, device: &mut D, indirect: u32, index: u32) -> (r: FSResult<u32>)
        requires
            old(device).inv(),
            index < 64,
        ensures
            final(device).inv(),
            final(device).blocks() == old(device).blocks(),
            match r {
                Ok(b) => self.data_start + indirect < old(device).blocks().len()
                    ==> b == u32_at(old(device).blocks()[self.data_start + indirect], index * 4),
                Err(e) => e.is_device_error(),
            },
    {
        let mut buf = [0u8; BLOCK_SIZE];
        let addr = match self.data_start.checked_add(indirect) {
            Some(a) => a,
            None => { return Err(FSError::InvalidInput(InvalidInputKind::BlockIndexOOB)); },
        };
        match device.read_block(addr, &mut buf) {
            Err(e) => { return Err(e); },
            Ok(_) => {},
        }
        let start = (index * 4) as usize;
        Ok(read_u32(buf.as_slice(), start))
    }

    /// The `index`-th indirect block address stored in the double indirect block `double`.
    fn resolve_double<D: BlockDevice>(&self, device: &mut D, double: u32, index: u32) -> (r: FSResult<u32>)
        requires
            old(device).inv(),
            index < 64,
        ensures
            final(device).inv(),
            final(device).blocks() == old(device).blocks(),
            match r {
                Ok(b) => self.data_start + double < old(device).blocks().len()
                    ==> b == u32_at(old(device).blocks()[self.data_start + double], index * 4),
                Err(e) => e.is_device_error(),
            },
    {
        self.resolve_indirect(device, double, index)
    }

    /// The address (relative to the data region) of the `index`-th data block of `inode`.
    pub fn get_block<D: BlockDevice>(&self, device: &mut D, inode: &INode, index: u32) -> (r: FSResult<u32>)
        requires
            old(device).inv(),
        ensures
            final(device).inv(),
            final(device).blocks() == old(device).blocks(),
            index >= MAX_BLOCKS ==> r == Err::<u32, FSError>(FSError::InvalidInput(InvalidInputKind::INodeBlockIndexOOB)),
            index < MAX_BLOCKS && index >= inode.blocks ==> r == Err::<u32, FSError>(FSError::InvalidInput(InvalidInputKind::IndexOOB)),
            index < DIRECT_COUNT && index < inode.blocks ==> r == Ok::<u32, FSError>(inode.direct[index as int]),
            match r {
                Ok(b) => index < inode.blocks && index < MAX_BLOCKS
                    && (block_at_on_device(old(device).blocks(), self.data_start as int, *inode, index as int)
                        ==> b == block_at(old(device).blocks(), self.data_start as int, *inode, index as int)),
                Err(FSError::InvalidInput(InvalidInputKind::INodeBlockIndexOOB)) => index >= MAX_BLOCKS,
                Err(FSError::InvalidInput(InvalidInputKind::IndexOOB)) => index >= inode.blocks,
                Err(e) => e.is_device_error(),
            },
    {
        if index as usize >= MAX_BLOCKS {
            return Err(FSError::InvalidInput(InvalidInputKind::INodeBlockIndexOOB));
        }
        if index >= inode.blocks {
            return Err(FSError::InvalidInput(InvalidInputKind::IndexOOB));
        }
        let mut index = index as usize;
        if index < DIRECT_COUNT {
            return Ok(inode.direct[index]);
        }
        index -= DIRECT_COUNT;
        if index < INDIRECT_COUNT {
            return self.resolve_indirect(device, inode.indirect, index as u32);
        }
        index -= INDIRECT_COUNT;
        let indirect_index = index / INDIRECT_COUNT;
        let direct_index = index % INDIRECT_COUNT;
        let ghost dev = device.blocks();
        let indirect = match self.resolve_double(device, inode.double, indirect_index as u32) {
            Err(e) => { return Err(e); },
            Ok(i) => i,
        };
        self.resolve_indirect(device, indirect, direct_index as u32)
    }
}

/// Before adding the `k`-th data block to inode `n`, the indirect block that
/// will hold it is not the double indirect block (when it exists already).
pub open spec fn no_alias(dev: Seq<Seq<u8>>, data_start: int, n: INode, k: int) -> bool {
    k >= 76 && (k - 76) % 64 != 0 ==> u32_at(dev[data_start + n.double], ((k - 76) / 64) * 4) != n.double
}

/// Writing a `u32` at `off` and reading it back gives it.
proof fn lemma_u32_at_overwrite(b: Seq<u8>, off: int, x: u32)
    requires
        0 <= off,
        off + 4 <= b.len(),
    ensures
        u32_at(overwrite(b, off, spec_u32_to_le_bytes(x)), off) == x,
        overwrite(b, off, spec_u32_to_le_bytes(x)).len() == b.len(),
        forall|o: int| 0 <= o && o + 4 <= b.len() && (o + 4 <= off || off + 4 <= o) ==>
            #[trigger] u32_at(overwrite(b, off, spec_u32_to_le_bytes(x)), o) == u32_at(b, o),
{
    lemma_auto_spec_u32_to_from_le_bytes();
    let w = overwrite(b, off, spec_u32_to_le_bytes(x));
    assert(w.subrange(off, off + 4) =~= spec_u32_to_le_bytes(x));
    assert forall|o: int| 0 <= o && o + 4 <= b.len() && (o + 4 <= off || off + 4 <= o) implies
        #[trigger] u32_at(w, o) == u32_at(b, o) by {
        assert(w.subrange(o, o + 4) =~= b.subrange(o, o + 4));
    }
}

impl INodeTableHandler {
    /// Stores `value` as entry `slot` of the metadata block `block` (relative
    /// to the data region).
    fn store_u32<D: BlockDevice>(&self, device: &mut D, block: u32, slot: u32, value: u32) -> (r: FSResult<()>)
        requires
            old(device).inv(),
            slot < 64,
        ensures
            final(device).inv(),
            final(device).blocks().len() == old(device).blocks().len(),
            device_result(r),
            r is Err ==> final(device).blocks() == old(device).blocks(),
            r is Ok ==> ({
                let addr = self.data_start + block;
                let dev = old(device).blocks();
                if addr < dev.len() {
                    final(device).blocks() == dev.update(addr, overwrite(dev[addr], slot * 4, spec_u32_to_le_bytes(value)))
                } else {
                    final(device).blocks() == dev
                }
            }),
    {
        let addr = match self.data_start.checked_add(block) {
            Some(a) => a,
            None => { return Err(FSError::InvalidInput(InvalidInputKind::BlockIndexOOB)); },
        };
        proof {
            device.lemma_inv_well_sized();
        }
        let mut buf = [0u8; BLOCK_SIZE];
        match device.read_block(addr, &mut buf) {
            Err(e) => { return Err(e); },
            Ok(_) => {},
        }
        let bytes = u32_to_le_bytes(value);
        proof {
            lemma_auto_spec_u32_to_from_le_bytes();
        }
        copy_into(&mut buf, (slot * 4) as usize, bytes.as_slice());
        device.write_block(addr, &buf)
    }

    /// Takes the next block of the pool.
    fn take_from_pool(pool: &Vec<u32>, pool_index: &mut usize) -> (r: FSResult<u32>)
        ensures
            match r {
                Ok(b) => *old(pool_index) < pool@.len() && b == pool@[*old(pool_index) as int]
                    && *final(pool_index) == *old(pool_index) + 1,
                Err(e) => e == FSError::InvalidInput(InvalidInputKind::NotEnoughAllocatedBlocks)
                    && *old(pool_index) >= pool@.len() && *final(pool_index) == *old(pool_index),
            },
    {
        if *pool_index >= pool.len() {
            return Err(FSError::InvalidInput(InvalidInputKind::NotEnoughAllocatedBlocks));
        }
        let b = pool[*pool_index];
        *pool_index = *pool_index + 1;
        Ok(b)
    }

    /// Puts `block` at entry `index` of the indirect block of `inode`; the
    /// first entry takes a new indirect block from the pool.
    fn write_indirect<D: BlockDevice>(&self, device: &mut D, inode: &mut INode, block: u32, pool: &Vec<u32>,
        pool_index: &mut usize, index: usize) -> (r: FSResult<()>)
        requires
            old(device).inv(),
            index < 64,
        ensures
            final(device).inv(),
            final(device).blocks().len() == old(device).blocks().len(),
            *final(inode) == (INode { indirect: final(inode).indirect, ..*old(inode) }),
            index > 0 ==> final(inode).indirect == old(inode).indirect,
            *final(pool_index) >= *old(pool_index),
            r is Err ==> final(device).blocks() == old(device).blocks(),
            r matches Err(e) ==> e.is_device_error() || e == FSError::InvalidInput(InvalidInputKind::NotEnoughAllocatedBlocks),
            r is Ok && self.data_start + final(inode).indirect < old(device).blocks().len() ==>
                u32_at(final(device).blocks()[self.data_start + final(inode).indirect], index * 4) == block
                && (forall|o: int| 0 <= o < 64 && o != index ==>
                    #[trigger] u32_at(final(device).blocks()[self.data_start + final(inode).indirect], o * 4)
                    == u32_at(old(device).blocks()[self.data_start + final(inode).indirect], o * 4)),
            r is Ok ==> forall|a: int| 0 <= a < old(device).blocks().len() && a != self.data_start + final(inode).indirect
                ==> #[trigger] final(device).blocks()[a] == old(device).blocks()[a],
    {
        let indirect = if index == 0 {
            if pool.len() == 0 {
                return Err(FSError::InvalidInput(InvalidInputKind::NotEnoughAllocatedBlocks));
            }
            match Self::take_from_pool(pool, pool_index) {
                Ok(b) => b,
                Err(e) => { return Err(e); },
            }
        } else {
            inode.indirect
        };
        proof {
            device.lemma_inv_well_sized();
        }
        let ghost dev = device.blocks();
        match self.store_u32(device, indirect, index as u32, block) {
            Err(e) => { return Err(e); },
            Ok(_) => {},
        }
        proof {
            let addr = self.data_start + indirect;
            if addr < dev.len() {
                lemma_u32_at_overwrite(dev[addr], index * 4, block);
            }
        }
        inode.indirect = indirect;
        Ok(())
    }

    /// Puts `block` at entry `index` of the double indirect region of `inode`;
    /// the first entry takes a new double indirect block from the pool, and
    /// the first entry of each indirect block a new indirect block.
    fn write_double_indirect<D: BlockDevice>(&self, device: &mut D, inode: &mut INode, block: u32, pool: &Vec<u32>,
        pool_index: &mut usize, index: usize) -> (r: FSResult<()>)
        requires
            old(device).inv(),
            index < 4096,
        ensures
            final(device).inv(),
            final(device).blocks().len() == old(device).blocks().len(),
            *final(inode) == (INode { double: final(inode).double, ..*old(inode) }),
            index > 0 ==> final(inode).double == old(inode).double,
            *final(pool_index) >= *old(pool_index),
            r matches Err(e) ==> e.is_device_error() || e == FSError::InvalidInput(InvalidInputKind::NotEnoughAllocatedBlocks),
            r is Ok ==> ({
                let dev = final(device).blocks();
                let ds = self.data_start as int;
                let d = final(inode).double;
                let ind = u32_at(dev[ds + d], (index / 64) * 4);
                ds + d < dev.len() && ds + ind < dev.len() && ind != d
                    && (index % 64 != 0 ==> u32_at(old(device).blocks()[ds + d], (index / 64) * 4) != d)
                    ==> u32_at(dev[ds + ind], (index % 64) * 4) == block
            }),
    {
        let indirect_slot = (index / 64) as u32;
        let direct_slot = (index % 64) as u32;
        let double = if index == 0 {
            if pool.len() < 2 {
                return Err(FSError::InvalidInput(InvalidInputKind::NotEnoughAllocatedBlocks));
            }
            match Self::take_from_pool(pool, pool_index) {
                Ok(b) => b,
                Err(e) => { return Err(e); },
            }
        } else {
            inode.double
        };
        proof {
            device.lemma_inv_well_sized();
        }
        let fresh = direct_slot == 0;
        let indirect = if fresh {
            // a new indirect block in the double indirect one
            if pool.len() == 0 {
                return Err(FSError::InvalidInput(InvalidInputKind::NotEnoughAllocatedBlocks));
            }
            match Self::take_from_pool(pool, pool_index) {
                Ok(b) => b,
                Err(e) => { return Err(e); },
            }
        } else {
            match self.read_entry(device, double, indirect_slot) {
                Ok(b) => b,
                Err(e) => { return Err(e); },
            }
        };
        let ghost dev0 = device.blocks();
        match self.store_u32(device, indirect, direct_slot, block) {
            Err(e) => { return Err(e); },
            Ok(_) => {},
        }
        let ghost dev1 = device.blocks();
        // the double indirect block points to the new indirect block after that one is written
        if fresh {
            match self.store_u32(device, double, indirect_slot, indirect) {
                Err(e) => { return Err(e); },
                Ok(_) => {},
            }
        }
        let ghost dev2 = device.blocks();
        proof {
            let ds = self.data_start as int;
            lemma_auto_spec_u32_to_from_le_bytes();
            if ds + indirect < dev0.len() {
                lemma_u32_at_overwrite(dev0[ds + indirect], direct_slot * 4, block);
            }
            if fresh && ds + double < dev1.len() {
                lemma_u32_at_overwrite(dev1[ds + double], indirect_slot * 4, indirect);
            }
            let ind = u32_at(dev2[ds + double], indirect_slot * 4);
            if ds + double < dev2.len() && ds + ind < dev2.len() && ind != double
                && (!fresh ==> u32_at(dev0[ds + double], indirect_slot * 4) != double) {
                if fresh {
                    assert(ind == indirect);
                    assert(dev2[ds + indirect] == dev1[ds + indirect]);
                } else {
                    assert(indirect == u32_at(dev0[ds + double], indirect_slot * 4));
                    assert(indirect != double);
                    assert(dev1[ds + double] == dev0[ds + double]);
                    assert(ind == indirect);
                }
            }
        }
        inode.double = double;
        Ok(())
    }

    /// Entry `slot` of the metadata block `block` (relative to the data region).
    fn read_entry<D: BlockDevice>(&self, device: &mut D, block: u32, slot: u32) -> (r: FSResult<u32>)
        requires
            old(device).inv(),
            slot < 64,
        ensures
            final(device).inv(),
            final(device).blocks() == old(device).blocks(),
            match r {
                Ok(b) => self.data_start + block < old(device).blocks().len()
                    ==> b == u32_at(old(device).blocks()[self.data_start + block], slot * 4),
                Err(e) => e.is_device_error(),
            },
    {
        self.resolve_indirect(device, block, slot)
    }

    /// Appends data block `block` (relative to the data region) to `inode`,
    /// taking from `pool` the metadata blocks this needs (see
    /// `blocks_necessary_to_grow`). Neither block is allocated here.
    pub fn add_block<D: BlockDevice>(&self, device: &mut D, inode: &mut INode, block: u32, pool: &Vec<u32>) -> (r: FSResult<()>)
        requires
            old(device).inv(),
        ensures
            final(device).inv(),
            final(device).blocks().len() == old(device).blocks().len(),
            old(inode).blocks >= MAX_BLOCKS ==> r == Err::<(), FSError>(FSError::MaxINodeSize)
                && *final(inode) == *old(inode) && final(device).blocks() == old(device).blocks(),
            r matches Err(e) ==> e.is_device_error() || e == FSError::InvalidInput(InvalidInputKind::NotEnoughAllocatedBlocks)
                || e == FSError::MaxINodeSize,
            r is Ok ==> ({
                let k = old(inode).blocks as int;
                let dev = final(device).blocks();
                let ds = self.data_start as int;
                &&& final(inode).blocks == k + 1
                &&& final(inode).size == old(inode).size && final(inode).file_type == old(inode).file_type
                &&& k < 12 ==> final(inode).direct@ == old(inode).direct@.update(k, block) && dev == old(device).blocks()
                &&& block_at_on_device(dev, ds, *final(inode), k) && no_alias(old(device).blocks(), ds, *old(inode), k)
                    && (k >= 76 ==> u32_at(dev[ds + final(inode).double], ((k - 76) / 64) * 4) != final(inode).double)
                    ==> block_at(dev, ds, *final(inode), k) == block
            }),
    {
        let index = inode.blocks as usize;
        if index >= MAX_BLOCKS {
            return Err(FSError::MaxINodeSize);
        }
        let mut pool_index: usize = 0;
        if index < DIRECT_COUNT {
            inode.direct[index] = block;
        } else if index < DIRECT_COUNT + INDIRECT_COUNT {
            match self.write_indirect(device, inode, block, pool, &mut pool_index, index - DIRECT_COUNT) {
                Err(e) => { return Err(e); },
                Ok(_) => {},
            }
        } else {
            match self.write_double_indirect(device, inode, block, pool, &mut pool_index, index - DIRECT_COUNT - INDIRECT_COUNT) {
                Err(e) => { return Err(e); },
                Ok(_) => {},
            }
        }
        inode.blocks = inode.blocks + 1;
        Ok(())
    }

    /// Appends the data blocks `blocks` to `inode`, taking from `pool` the
    /// metadata blocks this needs. Fails, changing nothing, when the inode
    /// would have more than `MAX_BLOCKS` blocks or the pool is too small.
    pub fn add_blocks<D: BlockDevice>(&self, device: &mut D, inode: &mut INode, blocks: &Vec<u32>, pool: &Vec<u32>) -> (r: FSResult<()>)
        requires
            old(device).inv(),
        ensures
            final(device).inv(),
            final(device).blocks().len() == old(device).blocks().len(),
            blocks@.len() > 0 && old(inode).blocks + blocks@.len() > MAX_BLOCKS ==> r == Err::<(), FSError>(FSError::MaxINodeSize)
                && *final(inode) == *old(inode) && final(device).blocks() == old(device).blocks(),
            old(inode).blocks + blocks@.len() <= MAX_BLOCKS && blocks@.len() > 0
                && pool@.len() < metadata_blocks(old(inode).blocks + blocks@.len()) - metadata_blocks(old(inode).blocks as int)
                ==> r == Err::<(), FSError>(FSError::InvalidInput(InvalidInputKind::NotEnoughAllocatedBlocks))
                    && *final(inode) == *old(inode) && final(device).blocks() == old(device).blocks(),
            r matches Err(e) ==> e.is_device_error() || e == FSError::InvalidInput(InvalidInputKind::NotEnoughAllocatedBlocks)
                || e == FSError::MaxINodeSize,
            r is Ok ==> ({
                let k = old(inode).blocks as int;
                &&& final(inode).blocks == k + blocks@.len()
                &&& final(inode).size == old(inode).size && final(inode).file_type == old(inode).file_type
                &&& forall|j: int| 0 <= j < blocks@.len() && k + j < 12 ==> #[trigger] final(inode).direct@[k + j] == blocks@[j]
            }),
    {
        if blocks.len() == 0 {
            return Ok(());
        }
        if blocks.len() > MAX_BLOCKS || inode.blocks as usize > MAX_BLOCKS - blocks.len() {
            return Err(FSError::MaxINodeSize);
        }
        let required_metadata = self.blocks_necessary_to_grow_n(inode, blocks.len() as u32) as usize;
        if pool.len() < required_metadata {
            return Err(FSError::InvalidInput(InvalidInputKind::NotEnoughAllocatedBlocks));
        }
        let ghost k0 = inode.blocks as int;
        let ghost n0 = *inode;
        let mut pool_index: usize = 0;
        let mut t: usize = 0;
        while t < blocks.len()
            invariant
                device.inv(),
                device.blocks().len() == old(device).blocks().len(),
                0 <= t <= blocks@.len(),
                blocks@.len() > 0,
                k0 == old(inode).blocks,
                pool@.len() >= metadata_blocks(k0 + blocks@.len()) - metadata_blocks(k0),
                k0 + blocks@.len() <= MAX_BLOCKS,
                inode.blocks == k0 + t,
                inode.size == n0.size && inode.file_type == n0.file_type,
                forall|j: int| 0 <= j < t && k0 + j < 12 ==> #[trigger] inode.direct@[k0 + j] == blocks@[j],
            decreases blocks@.len() - t,
        {
            let block = blocks[t];
            let index = inode.blocks as usize;
            let ghost before = inode.direct@;
            if index < DIRECT_COUNT {
                inode.direct[index] = block;
                assert(inode.direct@ == before.update(index as int, block));
            } else if index < DIRECT_COUNT + INDIRECT_COUNT {
                match self.write_indirect(device, inode, block, pool, &mut pool_index, index - DIRECT_COUNT) {
                    Err(e) => { return Err(e); },
                    Ok(_) => {},
                }
            } else {
                match self.write_double_indirect(device, inode, block, pool, &mut pool_index, index - DIRECT_COUNT - INDIRECT_COUNT) {
                    Err(e) => { return Err(e); },
                    Ok(_) => {},
                }
            }
            inode.blocks = inode.blocks + 1;
            t = t + 1;
        }
        Ok(())
    }
}

/// Metadata blocks needed by an inode with `blocks` data blocks.
fn metadata_blocks_count(blocks: u64) -> (r: u64)
    requires
        blocks <= u32::MAX as u64 * 2,
    ensures
        r == metadata_blocks(blocks as int),
{
    if blocks <= DIRECT_COUNT as u64 {
        0
    } else if blocks <= (DIRECT_COUNT + INDIRECT_COUNT) as u64 {
        1
    } else {
        let double_blocks = blocks - (DIRECT_COUNT + INDIRECT_COUNT) as u64;
        2 + (double_blocks + (INDIRECT_COUNT as u64 - 1)) / INDIRECT_COUNT as u64
    }
}

proof fn lemma_metadata_blocks_monotonic(a: int, b: int)
    requires
        0 <= a <= b,
    ensures
        metadata_blocks(a) <= metadata_blocks(b),
        metadata_blocks(b) <= 3 + b / 64,
{
    if b > 76 && a > 76 {
        assert((a - 76 + 63) / 64 <= (b - 76 + 63) / 64) by (nonlinear_arith)
            requires a <= b;
    }
    if b > 76 {
        assert((b - 76 + 63) / 64 <= 1 + b / 64) by (nonlinear_arith)
            requires b > 76;
    }
}

/// The first `n` elements of a block.
fn slice_prefix(buf: &[u8; BLOCK_SIZE], n: usize) -> (r: &[u8])
    requires
        n <= BLOCK_SIZE,
    ensures
        r@ == buf@.subrange(0, n as int),
{
    slice_subrange(buf.as_slice(), 0, n)
}

/// Reading back an inode slot right after writing it gives the written inode;
/// the other slots keep their inodes.
pub proof fn lemma_read_after_write_inode(dev: Seq<Seq<u8>>, table_start: int, index: int, n: INode, other: int)
    requires
        0 <= table_start,
        0 <= index,
        0 <= other,
        table_start + index / 2 < dev.len(),
        table_start + other / 2 < dev.len(),
        dev[table_start + index / 2].len() == BLOCK_SIZE,
        dev[table_start + other / 2].len() == BLOCK_SIZE,
    ensures
        inode_at(with_inode(dev, table_start, index, n), table_start, index) == n,
        other != index ==> inode_at(with_inode(dev, table_start, index, n), table_start, other) == inode_at(dev, table_start, other),
{
    lemma_inode_bytes_len(n);
    let blk = table_start + index / 2;
    let off = (index % 2) * 96;
    let nd = with_inode(dev, table_start, index, n);
    let w = overwrite(dev[blk], off, inode_slot_bytes(n));
    assert(w.len() == 256);
    assert(inode_slot(nd, table_start, index) =~= inode_slot_bytes(n));
    lemma_inode_roundtrip(n, inode_slot_bytes(n));
    assert(overwrite(inode_slot_bytes(n), 0, inode_bytes(n)) =~= inode_slot_bytes(n));
    if other != index {
        let oblk = table_start + other / 2;
        let ooff = (other % 2) * 96;
        if oblk == blk {
            assert(other % 2 != index % 2);
            assert(inode_slot(nd, table_start, other) =~= inode_slot(dev, table_start, other));
        } else {
            assert(nd[oblk] == dev[oblk]);
        }
    }
}

} // verus!

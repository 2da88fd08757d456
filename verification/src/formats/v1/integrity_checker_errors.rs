use vstd::prelude::*;
use vstd::set_lib::*;
use crate::fs_utils::FileType;

verus! {

#[derive(Clone, Copy, Debug, PartialEq, Eq, Structural)]
pub enum UnallocatedDataData {
    INode { ind: u32 },
    Data { ind: u32, inode: u32 },
}

#[derive(Clone, Copy, Debug, PartialEq, Eq, Structural)]
pub struct DoubleReferenceData {
    pub block: u32,
}

#[derive(Clone, Copy, Debug, PartialEq, Eq, Structural)]
pub enum InvalidDirectoryEntryData {
    /// unknown file type, sign of corruption
    FileTypeUnknown { dir_inode: u32, entry_inode: u32, block: u32, offset: u16 },
    /// the entry overflows into the next block (for instance a garbage entry
    /// read at the end of an under-filled block)
    Overflow { dir_inode: u32, entry_inode: u32, block: u32, offset: u16 },
    /// a name length greater than the maximum, or a record length that does
    /// not match it: sign of corruption
    NameOverflow { dir_inode: u32, entry_inode: u32, block: u32, offset: u16, name_len: u16 },
    /// two adjacent free regions, which are never made
    AdjacentFree { dir_inode: u32, block: u32, first_offset: u16, first_size: u16, second_size: u16 },
    /// the inode pointer is `INVALID_ADDRESS`
    InvalidAddress,
    /// the inode pointer points out of the addressable region
    OutOfBoundsAddress,
}

#[derive(Clone, Copy, Debug, PartialEq, Eq, Structural)]
pub enum InvalidDirectoryStructureData {
    MissingSelf,
    MissingParent,
}

#[derive(Clone, Copy, Debug, PartialEq, Eq, Structural)]
pub enum UnreachableDataData {
    INode { ind: u32 },
    Data { ind: u32 },
}

#[derive(Clone, Copy, Debug, PartialEq, Eq, Structural)]
pub enum InconsistentMetadataData {
    FreeInodes { actual: u32, expected: u32 },
    FreeData { actual: u32, expected: u32 },
}

#[derive(Clone, Copy, Debug, PartialEq, Eq, Structural)]
pub enum InvalidInodeData {
    /// unknown file type, sign of corruption
    FileTypeUnknown { inode: u32 },
    /// a direct pointer is `INVALID_ADDRESS`
    InvalidAddress { inode: u32, direct_ind: u16 },
    /// a direct pointer points out of the addressable region
    OutOfBoundsAddress { inode: u32, direct_ind: u16 },
}

#[derive(Clone, Copy, Debug, PartialEq, Eq, Structural)]
pub struct MismatchedFileTypeData {
    pub actual: FileType,
    pub expected: FileType,
    pub inode: u32,
}

/// What the integrity check of a device finds wrong.
#[derive(Clone, Copy, Debug, PartialEq, Eq, Structural)]
pub enum V1IntegrityError {
    NoError,
    /// a block that is referenced but marked as free
    UnallocatedData(UnallocatedDataData),
    /// a data block held by two inodes (or twice by one)
    DoubleReference(DoubleReferenceData),
    /// a structurally wrong directory entry
    InvalidDirectoryEntry(InvalidDirectoryEntryData),
    /// a directory that does not start with `.` and `..`
    InvalidDirectoryStructure(InvalidDirectoryStructureData),
    /// allocated blocks that no file name leads to
    UnreachableData(UnreachableDataData),
    /// counters of the superblock that do not match the bitmaps
    InconsistentMetadata(InconsistentMetadataData),
    /// a structurally wrong inode
    InvalidInode(InvalidInodeData),
    /// the inode and the directory entry disagree on the file type
    MismatchedFileType(MismatchedFileTypeData),
}

/// Every error found by the check can be repaired.
pub open spec fn recoverable(e: V1IntegrityError) -> bool {
    true
}

impl V1IntegrityError {
    /// The value that stands for no error.
    pub fn is_ok(&self) -> (r: bool)
        ensures
            r == (*self == V1IntegrityError::NoError),
    {
        match self {
            V1IntegrityError::NoError => true,
            _ => false,
        }
    }

    pub fn is_recoverable(&self) -> (r: bool)
        ensures
            r == recoverable(*self),
    {
        true
    }
}

/// Whether bit `b` of `bm` is set.
pub open spec fn bit_on(bm: Seq<u8>, b: int) -> bool {
    (bm[b / 8] >> ((b % 8) as u8)) & 1u8 == 1u8
}

/// A set of marks over the indices `0..bits`, with the number of marked indices.
pub struct IntegrityCheckerBitmap {
    pub bitmap: Vec<u8>,
    pub count: u32,
    /// the number of indices that can be marked
    pub bits: Ghost<nat>,
}

impl IntegrityCheckerBitmap {
    /// The indices that can be marked.
    pub open spec fn size(&self) -> nat {
        self.bits@
    }

    /// The marked indices.
    pub open spec fn marked(&self) -> Set<int> {
        Set::new(|b: int| 0 <= b < self.size() && bit_on(self.bitmap@, b))
    }

    /// The bitmap holds one bit per index and `count` is the number of marks.
    pub open spec fn wf(&self) -> bool {
        &&& self.size() <= u32::MAX
        &&& self.bitmap@.len() == (self.size() + 7) / 8
        &&& self.count == self.marked().len()
    }

    /// A bitmap of `bits` indices, none marked.
    pub fn new(bits: u32) -> (r: Self)
        ensures
            r.wf(),
            r.size() == bits,
            r.marked() == Set::<int>::empty(),
    {
        let n = (bits / 8 + if bits % 8 == 0 { 0 } else { 1 }) as usize;
        let bitmap: Vec<u8> = vec![0u8; n];
        let r = IntegrityCheckerBitmap { bitmap, count: 0, bits: Ghost(bits as nat) };
        assert(r.marked() =~= Set::<int>::empty()) by {
            assert forall|b: int| 0 <= b < bits implies !bit_on(r.bitmap@, b) by {
                let x = r.bitmap@[b / 8];
                assert(x == 0u8);
                let s = (b % 8) as u8;
                assert((0u8 >> s) & 1u8 == 0u8) by (bit_vector);
            }
        }
        r
    }

    /// Whether index `bit` is marked.
    pub fn visited(&self, bit: u32) -> (r: bool)
        requires
            self.wf(),
            bit < self.size(),
        ensures
            r == self.marked().contains(bit as int),
    {
        let byte = self.bitmap[(bit / 8) as usize];
        let s = (bit % 8) as u8;
        (byte >> s) & 1u8 == 1u8
    }

    /// Marks index `bit`; returns whether it was already marked.
    pub fn visit(&mut self, bit: u32) -> (r: bool)
        requires
            old(self).wf(),
            bit < old(self).size(),
        ensures
            final(self).wf(),
            final(self).size() == old(self).size(),
            r == old(self).marked().contains(bit as int),
            final(self).marked() == old(self).marked().insert(bit as int),
    {
        let ghost start = *self;
        if !self.visited(bit) {
            let ghost before = self.marked();
            let i = (bit / 8) as usize;
            let s = (bit % 8) as u8;
            let old_byte = self.bitmap[i];
            let new_byte = old_byte | (1u8 << s);
            self.bitmap.set(i, new_byte);
            assert(self.marked() =~= before.insert(bit as int)) by {
                assert forall|b: int| 0 <= b < self.size() implies
                    (bit_on(self.bitmap@, b) <==> (bit_on(old(self).bitmap@, b) || b == bit)) by {
                    if b / 8 == i {
                        let t = (b % 8) as u8;
                        assert(s < 8 && t < 8);
                        assert(((old_byte | (1u8 << s)) >> t) & 1u8 == 1u8 <==> (((old_byte >> t) & 1u8 == 1u8) || t == s))
                            by (bit_vector)
                            requires s < 8, t < 8;
                        assert(t == s <==> b == bit);
                    }
                }
            }
            proof {
                lemma_marked_finite(&*self);
                lemma_marked_finite(&start);
            }
            self.count = self.count + 1;
            false
        } else {
            true
        }
    }
}

proof fn lemma_marked_finite(m: &IntegrityCheckerBitmap)
    ensures
        m.marked().finite(),
        m.marked().len() <= m.size(),
{
    let r = set_int_range(0, m.size() as int);
    lemma_int_range(0, m.size() as int);
    assert(m.marked().subset_of(r));
    lemma_len_subset(m.marked(), r);
}

} // verus!

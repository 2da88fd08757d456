use vstd::prelude::*;

verus! {

/// A handle to an open file.
#[derive(Clone, Copy, Debug, PartialEq, Eq, Structural)]
pub struct File {
    pub id: u32,
}

/// What the filesystem keeps about an open file: its inode and the offset of
/// the next read or write. The size is not kept here, since several handles
/// may write to the same file.
#[derive(Clone, Copy, Debug, PartialEq, Eq, Structural)]
pub struct FileMetadata {
    pub inode: u32,
    pub offset: u64,
}

/// Where a seek moves the offset of an open file to: a position from the
/// start, from the end, or from the current offset.
#[derive(Clone, Copy, Debug, PartialEq, Eq, Structural)]
pub enum SeekFrom {
    Start(u64),
    End(i64),
    Current(i64),
}

impl FileMetadata {
    pub fn new(inode: u32) -> (r: Self)
        ensures
            r.inode == inode,
            r.offset == 0,
    {
        FileMetadata { inode, offset: 0 }
    }
}

} // verus!

use vstd::prelude::*;

verus! {

/// Why an operation failed.
#[derive(Debug, Clone, Copy, PartialEq, Eq, Structural)]
pub enum FSErrorCategory {
    /// Invalid inputs or data (without signs of corruption), or a full device:
    /// events caused by improper use of the functions or by physical limits.
    Generic,
    /// The device shows signs of corruption: something that should not happen
    /// unless there is a bug or the device was modified externally.
    Corruption,
}

#[derive(Debug, Clone, Copy, PartialEq, Eq, Structural)]
pub enum FSErrorCode {
    FileDoesNotExist,
    DirectoryDoesNotExist,
    DoesNotExist,
    AlreadyExists,
    IsADirectory,
    NotADirectory,
    IsAFile,
    NotAFile,
    IsASymlink,
    NotASymlink,
    DirectoryNotEmpty,
    FileNotOpen,
    DirFreeRegionTooSmall,
    DirEntryNotFree,
    StorageFull,
    INodeTableFull,
    DataRegionFull,
    MaxINodeSize,
    InvalidInput,
    InputDirEntriesOverfillBlock,
    InputDirEntriesUnderfillBlock,
    InputOffsetNotAtDirEntryStart,
    InputINodeIndexOOB,
    InputBlockIndexOOB,
    InputIndexOOB,
    InputINodeBlockIndexOOB,
    InputUnknownFileType,
    InputNotEnoughAllocatedBlocks,
    EmptySymlink,
    MaximumSymlinkDepthReached,
    DeletingRoot,
    InvalidDirEntry,
    ZeroLengthDirEntry,
    DirEntryIsFree,
    DirEntryInvalidINode,
    DirEntryINodeOOB,
    DirEntryInvalidFileType,
    InvalidDir,
    DirEntriesOverfillBlock,
    InvalidINode,
    INodeSizeGreaterThanAllocatedRegion,
    INodeInvalidDirect,
    INodeDirectOOB,
    InvalidMagic,
}

/// The codes that signal corruption of the device; all others are generic.
pub open spec fn is_corruption_code(c: FSErrorCode) -> bool {
    ||| c is InvalidDirEntry
    ||| c is ZeroLengthDirEntry
    ||| c is DirEntryIsFree
    ||| c is DirEntryInvalidINode
    ||| c is DirEntryINodeOOB
    ||| c is DirEntryInvalidFileType
    ||| c is InvalidDir
    ||| c is DirEntriesOverfillBlock
    ||| c is InvalidINode
    ||| c is INodeSizeGreaterThanAllocatedRegion
    ||| c is INodeInvalidDirect
    ||| c is INodeDirectOOB
    ||| c is InvalidMagic
}

impl FSErrorCode {
    pub fn category(&self) -> (r: FSErrorCategory)
        ensures
            r == (if is_corruption_code(*self) {
                FSErrorCategory::Corruption
            } else {
                FSErrorCategory::Generic
            }),
    {
        match self {
            FSErrorCode::InvalidDirEntry
            | FSErrorCode::ZeroLengthDirEntry
            | FSErrorCode::DirEntryIsFree
            | FSErrorCode::DirEntryInvalidINode
            | FSErrorCode::DirEntryINodeOOB
            | FSErrorCode::DirEntryInvalidFileType
            | FSErrorCode::InvalidDir
            | FSErrorCode::DirEntriesOverfillBlock
            | FSErrorCode::InvalidINode
            | FSErrorCode::INodeSizeGreaterThanAllocatedRegion
            | FSErrorCode::INodeInvalidDirect
            | FSErrorCode::INodeDirectOOB
            | FSErrorCode::InvalidMagic => FSErrorCategory::Corruption,
            _ => FSErrorCategory::Generic,
        }
    }
}

#[derive(Debug, PartialEq, Eq, Structural, Clone, Copy)]
pub enum StorageFullKind {
    Unspecified,
    INodeTableFull,
    DataRegionFull,
}

#[derive(Debug, PartialEq, Eq, Structural, Clone, Copy)]
pub enum InvalidDirEntryKind {
    Unspecified,
    /// the directory entry has zero record length
    ZeroLength,
    /// the directory entry to delete is already marked as free
    IsFree,
    InvalidINode,
    INodeOOB,
    InvalidFileType,
}

#[derive(Debug, PartialEq, Eq, Structural, Clone, Copy)]
pub enum InvalidDirKind {
    Unspecified,
    /// record sizes exceed the block size
    EntriesOverfillBlock,
}

#[derive(Debug, PartialEq, Eq, Structural, Clone, Copy)]
pub enum InvalidINodeKind {
    Unspecified,
    /// the file size is greater than the region allocated for it
    SizeGreaterThanAllocatedRegion,
    /// invalid inode direct address
    InvalidDirect { ind: u16 },
    /// inode direct address outside of the addressable area
    DirectOOB { ind: u16 },
}

#[derive(Debug, PartialEq, Eq, Structural, Clone, Copy)]
pub enum InvalidInputKind {
    Unspecified,
    /// record sizes exceed the block size
    DirEntriesOverfillBlock,
    /// records do not fill the last data block
    DirEntriesUnderfillBlock,
    /// the provided offset must mark the start of an entry
    OffsetNotAtDirEntryStart,
    /// inode index past the inode table region
    INodeIndexOOB { index: u32, max: u32 },
    /// block out of range
    BlockIndexOOB,
    /// index out of range
    IndexOOB,
    /// index in the array of blocks assigned to an inode out of range
    INodeBlockIndexOOB,
    /// invalid file type provided
    UnknownFileType,
    NotEnoughAllocatedBlocks,
}

#[derive(Debug)]
pub enum FSError {
    FileDoesNotExist { path: String },
    DirectoryDoesNotExist { path: String },
    DoesNotExist { path: String },
    AlreadyExists { path: String },
    IsADirectory { path: String },
    /// a path component is not a directory
    NotADirectory { path: String },
    IsAFile { path: String },
    NotAFile { path: String },
    IsASymlink { path: String },
    NotASymlink { path: String },
    DirectoryNotEmpty,
    FileNotOpen { file_id: u32 },
    DirFreeRegionTooSmall,
    DirEntryNotFree,
    StorageFull(StorageFullKind),
    MaxINodeSize,
    EmptySymlink { path: String },
    MaximumSymlinkDepthReached,
    DeletingRoot,
    InvalidDirEntry(InvalidDirEntryKind),
    InvalidDir(InvalidDirKind),
    InvalidINode(InvalidINodeKind),
    /// The parameters of a function are ill formed (reading a closed file is
    /// not such a case; indexing an inode out of bounds is).
    InvalidInput(InvalidInputKind),
    /// invalid magic number: there is no valid filesystem on the device
    InvalidMagic,
    /// the device itself failed; the text describes the failure
    IO(String),
}

pub type FSResult<T> = Result<T, FSError>;

/// The call's result `r` agrees with the expected outcome `s`: the same value,
/// or an error with the same code, unless the device itself failed. An
/// outcome of `None` (one that depends on blocks past the end of the device)
/// allows any result.
pub open spec fn outcome_agrees<T>(s: Option<Result<T, FSErrorCode>>, r: FSResult<T>) -> bool {
    match s {
        None => true,
        Some(Ok(x)) => r == Ok::<T, FSError>(x) || (r matches Err(e) && e.is_device_error()),
        Some(Err(c)) => r matches Err(e) && (e.is_device_error() || e.spec_code() == c),
    }
}

impl FSError {
    /// An error that a block device may report: an I/O failure or a block index
    /// out of range.
    pub open spec fn is_device_error(&self) -> bool {
        ||| self is IO
        ||| self matches FSError::InvalidInput(InvalidInputKind::BlockIndexOOB)
    }

    /// The code of every error but an I/O failure.
    pub open spec fn spec_code(&self) -> FSErrorCode
        recommends
            !(self is IO),
    {
        match self {
            FSError::FileDoesNotExist { .. } => FSErrorCode::FileDoesNotExist,
            FSError::DirectoryDoesNotExist { .. } => FSErrorCode::DirectoryDoesNotExist,
            FSError::DoesNotExist { .. } => FSErrorCode::DoesNotExist,
            FSError::AlreadyExists { .. } => FSErrorCode::AlreadyExists,
            FSError::IsADirectory { .. } => FSErrorCode::IsADirectory,
            FSError::NotADirectory { .. } => FSErrorCode::NotADirectory,
            FSError::IsAFile { .. } => FSErrorCode::IsAFile,
            FSError::NotAFile { .. } => FSErrorCode::NotAFile,
            FSError::IsASymlink { .. } => FSErrorCode::IsASymlink,
            FSError::NotASymlink { .. } => FSErrorCode::NotASymlink,
            FSError::DirectoryNotEmpty => FSErrorCode::DirectoryNotEmpty,
            FSError::FileNotOpen { .. } => FSErrorCode::FileNotOpen,
            FSError::DirFreeRegionTooSmall => FSErrorCode::DirFreeRegionTooSmall,
            FSError::DirEntryNotFree => FSErrorCode::DirEntryNotFree,
            FSError::StorageFull(k) => match k {
                StorageFullKind::Unspecified => FSErrorCode::StorageFull,
                StorageFullKind::INodeTableFull => FSErrorCode::INodeTableFull,
                StorageFullKind::DataRegionFull => FSErrorCode::DataRegionFull,
            },
            FSError::MaxINodeSize => FSErrorCode::MaxINodeSize,
            FSError::EmptySymlink { .. } => FSErrorCode::EmptySymlink,
            FSError::MaximumSymlinkDepthReached => FSErrorCode::MaximumSymlinkDepthReached,
            FSError::DeletingRoot => FSErrorCode::DeletingRoot,
            FSError::InvalidDirEntry(k) => match k {
                InvalidDirEntryKind::Unspecified => FSErrorCode::InvalidDirEntry,
                InvalidDirEntryKind::ZeroLength => FSErrorCode::ZeroLengthDirEntry,
                InvalidDirEntryKind::IsFree => FSErrorCode::DirEntryIsFree,
                InvalidDirEntryKind::InvalidINode => FSErrorCode::DirEntryInvalidINode,
                InvalidDirEntryKind::INodeOOB => FSErrorCode::DirEntryINodeOOB,
                InvalidDirEntryKind::InvalidFileType => FSErrorCode::DirEntryInvalidFileType,
            },
            FSError::InvalidDir(k) => match k {
                InvalidDirKind::Unspecified => FSErrorCode::InvalidDir,
                InvalidDirKind::EntriesOverfillBlock => FSErrorCode::DirEntriesOverfillBlock,
            },
            FSError::InvalidINode(k) => match k {
                InvalidINodeKind::Unspecified => FSErrorCode::InvalidINode,
                InvalidINodeKind::SizeGreaterThanAllocatedRegion => FSErrorCode::INodeSizeGreaterThanAllocatedRegion,
                InvalidINodeKind::InvalidDirect { .. } => FSErrorCode::INodeInvalidDirect,
                InvalidINodeKind::DirectOOB { .. } => FSErrorCode::INodeDirectOOB,
            },
            FSError::InvalidInput(k) => match k {
                InvalidInputKind::Unspecified => FSErrorCode::InvalidInput,
                InvalidInputKind::DirEntriesOverfillBlock => FSErrorCode::InputDirEntriesOverfillBlock,
                InvalidInputKind::DirEntriesUnderfillBlock => FSErrorCode::InputDirEntriesUnderfillBlock,
                InvalidInputKind::OffsetNotAtDirEntryStart => FSErrorCode::InputOffsetNotAtDirEntryStart,
                InvalidInputKind::INodeIndexOOB { .. } => FSErrorCode::InputINodeIndexOOB,
                InvalidInputKind::BlockIndexOOB => FSErrorCode::InputBlockIndexOOB,
                InvalidInputKind::IndexOOB => FSErrorCode::InputIndexOOB,
                InvalidInputKind::INodeBlockIndexOOB => FSErrorCode::InputINodeBlockIndexOOB,
                InvalidInputKind::UnknownFileType => FSErrorCode::InputUnknownFileType,
                InvalidInputKind::NotEnoughAllocatedBlocks => FSErrorCode::InputNotEnoughAllocatedBlocks,
            },
            FSError::InvalidMagic => FSErrorCode::InvalidMagic,
            FSError::IO(_) => FSErrorCode::InvalidInput,
        }
    }

    /// The code of the error. An I/O failure has no code.
    pub fn code(&self) -> (r: FSErrorCode)
        requires
            !(self is IO),
        ensures
            r == self.spec_code(),
    {
        match self {
            FSError::FileDoesNotExist { .. } => FSErrorCode::FileDoesNotExist,
            FSError::DirectoryDoesNotExist { .. } => FSErrorCode::DirectoryDoesNotExist,
            FSError::DoesNotExist { .. } => FSErrorCode::DoesNotExist,
            FSError::AlreadyExists { .. } => FSErrorCode::AlreadyExists,
            FSError::IsADirectory { .. } => FSErrorCode::IsADirectory,
            FSError::NotADirectory { .. } => FSErrorCode::NotADirectory,
            FSError::IsAFile { .. } => FSErrorCode::IsAFile,
            FSError::NotAFile { .. } => FSErrorCode::NotAFile,
            FSError::IsASymlink { .. } => FSErrorCode::IsASymlink,
            FSError::NotASymlink { .. } => FSErrorCode::NotASymlink,
            FSError::DirectoryNotEmpty => FSErrorCode::DirectoryNotEmpty,
            FSError::FileNotOpen { .. } => FSErrorCode::FileNotOpen,
            FSError::DirFreeRegionTooSmall => FSErrorCode::DirFreeRegionTooSmall,
            FSError::DirEntryNotFree => FSErrorCode::DirEntryNotFree,
            FSError::StorageFull(StorageFullKind::Unspecified) => FSErrorCode::StorageFull,
            FSError::StorageFull(StorageFullKind::INodeTableFull) => FSErrorCode::INodeTableFull,
            FSError::StorageFull(StorageFullKind::DataRegionFull) => FSErrorCode::DataRegionFull,
            FSError::MaxINodeSize => FSErrorCode::MaxINodeSize,
            FSError::EmptySymlink { .. } => FSErrorCode::EmptySymlink,
            FSError::MaximumSymlinkDepthReached => FSErrorCode::MaximumSymlinkDepthReached,
            FSError::DeletingRoot => FSErrorCode::DeletingRoot,
            FSError::InvalidDirEntry(InvalidDirEntryKind::Unspecified) => FSErrorCode::InvalidDirEntry,
            FSError::InvalidDirEntry(InvalidDirEntryKind::ZeroLength) => FSErrorCode::ZeroLengthDirEntry,
            FSError::InvalidDirEntry(InvalidDirEntryKind::IsFree) => FSErrorCode::DirEntryIsFree,
            FSError::InvalidDirEntry(InvalidDirEntryKind::InvalidINode) => FSErrorCode::DirEntryInvalidINode,
            FSError::InvalidDirEntry(InvalidDirEntryKind::INodeOOB) => FSErrorCode::DirEntryINodeOOB,
            FSError::InvalidDirEntry(InvalidDirEntryKind::InvalidFileType) => FSErrorCode::DirEntryInvalidFileType,
            FSError::InvalidDir(InvalidDirKind::Unspecified) => FSErrorCode::InvalidDir,
            FSError::InvalidDir(InvalidDirKind::EntriesOverfillBlock) => FSErrorCode::DirEntriesOverfillBlock,
            FSError::InvalidINode(InvalidINodeKind::Unspecified) => FSErrorCode::InvalidINode,
            FSError::InvalidINode(InvalidINodeKind::SizeGreaterThanAllocatedRegion) => FSErrorCode::INodeSizeGreaterThanAllocatedRegion,
            FSError::InvalidINode(InvalidINodeKind::InvalidDirect { .. }) => FSErrorCode::INodeInvalidDirect,
            FSError::InvalidINode(InvalidINodeKind::DirectOOB { .. }) => FSErrorCode::INodeDirectOOB,
            FSError::InvalidInput(InvalidInputKind::Unspecified) => FSErrorCode::InvalidInput,
            FSError::InvalidInput(InvalidInputKind::DirEntriesOverfillBlock) => FSErrorCode::InputDirEntriesOverfillBlock,
            FSError::InvalidInput(InvalidInputKind::DirEntriesUnderfillBlock) => FSErrorCode::InputDirEntriesUnderfillBlock,
            FSError::InvalidInput(InvalidInputKind::OffsetNotAtDirEntryStart) => FSErrorCode::InputOffsetNotAtDirEntryStart,
            FSError::InvalidInput(InvalidInputKind::INodeIndexOOB { .. }) => FSErrorCode::InputINodeIndexOOB,
            FSError::InvalidInput(InvalidInputKind::BlockIndexOOB) => FSErrorCode::InputBlockIndexOOB,
            FSError::InvalidInput(InvalidInputKind::IndexOOB) => FSErrorCode::InputIndexOOB,
            FSError::InvalidInput(InvalidInputKind::INodeBlockIndexOOB) => FSErrorCode::InputINodeBlockIndexOOB,
            FSError::InvalidInput(InvalidInputKind::UnknownFileType) => FSErrorCode::InputUnknownFileType,
            FSError::InvalidInput(InvalidInputKind::NotEnoughAllocatedBlocks) => FSErrorCode::InputNotEnoughAllocatedBlocks,
            FSError::InvalidMagic => FSErrorCode::InvalidMagic,
            FSError::IO(_) => FSErrorCode::InvalidInput,
        }
    }
}

} // verus!

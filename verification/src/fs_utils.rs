use vstd::prelude::*;
use vstd::bytes::*;
use vstd::slice::*;
use vstd::utf8::{valid_utf8, decode_utf8};

verus! {

/// Magic number stored in the superblock of a formatted device.
pub const MAGIC: u64 = 0x2E2E616E616E6162;
/// Size in bytes of every block of a device.
pub const BLOCK_SIZE: usize = 256;
/// Marker for "no block / no inode".
pub const INVALID_ADDRESS: u32 = 0xFFFF_FFFFu32;

#[derive(PartialEq, Eq, Structural, Clone, Copy, Debug)]
pub enum FileType {
    File,
    Directory,
    Symlink,
    Unknown,
}

/// The one-byte on-device code of a file type.
pub open spec fn file_type_code(t: FileType) -> u8 {
    match t {
        FileType::File => 0,
        FileType::Directory => 1,
        FileType::Symlink => 2,
        FileType::Unknown => 3,
    }
}

/// The file type that a stored byte stands for.
pub open spec fn file_type_of_code(b: u8) -> FileType {
    if b == 0 {
        FileType::File
    } else if b == 1 {
        FileType::Directory
    } else if b == 2 {
        FileType::Symlink
    } else {
        FileType::Unknown
    }
}

impl FileType {
    pub fn to_le_bytes(&self) -> (r: [u8; 1])
        ensures
            r@ == seq![file_type_code(*self)],
    {
        let r: [u8; 1] = match self {
            FileType::File => [0u8; 1],
            FileType::Directory => [1u8; 1],
            FileType::Symlink => [2u8; 1],
            FileType::Unknown => [3u8; 1],
        };
        assert(r@ =~= seq![file_type_code(*self)]);
        r
    }

    pub fn from_le_bytes(buf: &[u8; 1]) -> (r: Self)
        ensures
            r == file_type_of_code(buf@[0]),
    {
        let b: u8 = buf[0];
        if b == 0 {
            FileType::File
        } else if b == 1 {
            FileType::Directory
        } else if b == 2 {
            FileType::Symlink
        } else {
            FileType::Unknown
        }
    }

    /// The name of the file type, as it is displayed.
    pub fn name(&self) -> (r: &'static str)
        ensures
            r@ == match self {
                FileType::File => "File"@,
                FileType::Directory => "Directory"@,
                FileType::Symlink => "Symlink"@,
                FileType::Unknown => "Unknown"@,
            },
    {
        match self {
            FileType::File => "File",
            FileType::Directory => "Directory",
            FileType::Symlink => "Symlink",
            FileType::Unknown => "Unknown",
        }
    }
}

/// Every file type survives its one-byte encoding.
pub proof fn lemma_file_type_code_roundtrip(t: FileType)
    ensures
        file_type_of_code(file_type_code(t)) == t,
{
}

#[derive(PartialEq, Eq, Structural, Clone, Copy, Debug)]
pub enum Version {
    V1,
}

/// The version number stored in bytes 8..12 (little endian) of a superblock.
pub open spec fn stored_version(buf: Seq<u8>) -> u32 {
    spec_u32_from_le_bytes(buf.subrange(8, 12))
}

/// Reads the format version of a superblock. Only version 1 exists: a
/// superblock with another version number is not accepted.
pub fn read_version(buf: &[u8; BLOCK_SIZE]) -> (r: Version)
    requires
        stored_version(buf@) == 1,
    ensures
        r == Version::V1,
{
    Version::V1
}

/// Whether the superblock in `buf` has a version number that `read_version` accepts.
pub fn is_supported_version(buf: &[u8; BLOCK_SIZE]) -> (r: bool)
    ensures
        r == (stored_version(buf@) == 1),
{
    let s = slice_subrange(buf.as_slice(), 8, 12);
    let v = u32_from_le_bytes(s);
    v == 1
}

/// `String::from_utf8` of the standard library: the text that `bytes` encode,
/// or `None` when they are not valid UTF-8. The contract restates the
/// documented behaviour of that function.
#[verifier::external_body]
pub(crate) fn string_from_utf8(bytes: Vec<u8>) -> (r: Option<String>)
    ensures
        r is Some <==> valid_utf8(bytes@),
        r matches Some(s) ==> s@ == decode_utf8(bytes@),
{
    String::from_utf8(bytes).ok()
}

/// The current time, in seconds since the Unix epoch (zero for a clock set
/// before it), from `SystemTime::now` of the standard library. Nothing is
/// promised of the value: it depends on the clock.
#[verifier::external_body]
pub(crate) fn now_secs() -> (r: u64) {
    match std::time::SystemTime::now().duration_since(std::time::UNIX_EPOCH) {
        Ok(d) => d.as_secs(),
        Err(_) => 0,
    }
}

/// `s` with `bytes` written over it from position `off` on.
pub open spec fn overwrite(s: Seq<u8>, off: int, bytes: Seq<u8>) -> Seq<u8> {
    s.subrange(0, off) + bytes + s.subrange(off + bytes.len(), s.len() as int)
}

/// Writes `src` into `buf` from position `off` on.
pub fn copy_into(buf: &mut [u8; BLOCK_SIZE], off: usize, src: &[u8])
    requires
        off + src@.len() <= BLOCK_SIZE,
    ensures
        final(buf)@ == overwrite(old(buf)@, off as int, src@),
{
    let n = src.len();
    let mut i: usize = 0;
    while i < n
        invariant
            n == src@.len(),
            off + n <= BLOCK_SIZE,
            0 <= i <= n,
            buf@.len() == BLOCK_SIZE,
            forall|k: int| 0 <= k < off ==> buf@[k] == old(buf)@[k],
            forall|k: int| off + n <= k < BLOCK_SIZE ==> buf@[k] == old(buf)@[k],
            forall|k: int| off + i <= k < off + n ==> buf@[k] == old(buf)@[k],
            forall|k: int| 0 <= k < i ==> buf@[off + k] == src@[k],
        decreases n - i,
    {
        buf[off + i] = src[i];
        i = i + 1;
    }
    assert(buf@ =~= overwrite(old(buf)@, off as int, src@));
}

/// Reads the little-endian `u32` at position `off` of `buf`.
pub fn read_u32(buf: &[u8], off: usize) -> (r: u32)
    requires
        off + 4 <= buf@.len(),
    ensures
        r == spec_u32_from_le_bytes(buf@.subrange(off as int, off + 4)),
{
    let _n = buf.len();
    u32_from_le_bytes(slice_subrange(buf, off, off + 4))
}

/// Reads the little-endian `u16` at position `off` of `buf`.
pub fn read_u16(buf: &[u8], off: usize) -> (r: u16)
    requires
        off + 2 <= buf@.len(),
    ensures
        r == spec_u16_from_le_bytes(buf@.subrange(off as int, off + 2)),
{
    let _n = buf.len();
    u16_from_le_bytes(slice_subrange(buf, off, off + 2))
}

/// Reads the little-endian `u64` at position `off` of `buf`.
pub fn read_u64(buf: &[u8], off: usize) -> (r: u64)
    requires
        off + 8 <= buf@.len(),
    ensures
        r == spec_u64_from_le_bytes(buf@.subrange(off as int, off + 8)),
{
    let _n = buf.len();
    u64_from_le_bytes(slice_subrange(buf, off, off + 8))
}

} // verus!

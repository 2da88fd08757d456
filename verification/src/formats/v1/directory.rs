use vstd::prelude::*;
use vstd::bytes::*;
use vstd::string::StringSliceAdditionalSpecFns;
use crate::fs_utils::{BLOCK_SIZE, INVALID_ADDRESS, FileType, file_type_code, file_type_of_code,
    overwrite, copy_into, read_u16, read_u32};
use crate::fs_error::FSResult;
use super::inode::u32_at;

verus! {

/// Longest name a directory entry can hold.
pub const MAX_NAME: usize = 64;
/// Bytes of the fixed part of an entry: inode, record length, name length, type.
pub const ENTRY_HEADER: usize = 9;

/// The `u16` stored at position `off` of `b`.
pub open spec fn u16_at(b: Seq<u8>, off: int) -> u16 {
    spec_u16_from_le_bytes(b.subrange(off, off + 2))
}

/// Smallest record length that holds a name of `name_len` bytes, rounded up to 4.
pub open spec fn min_rec(name_len: int) -> int {
    ((name_len + 12) / 4) * 4
}

// Fields of the entry stored at position `off` of a directory block `b`.
pub open spec fn e_inode(b: Seq<u8>, off: int) -> u32 { u32_at(b, off) }
pub open spec fn e_rec(b: Seq<u8>, off: int) -> u16 { u16_at(b, off + 4) }
pub open spec fn e_name_len(b: Seq<u8>, off: int) -> u16 { u16_at(b, off + 6) }
pub open spec fn e_type(b: Seq<u8>, off: int) -> FileType { file_type_of_code(b[off + 8]) }
pub open spec fn e_name(b: Seq<u8>, off: int) -> Seq<u8> { b.subrange(off + 9, off + 9 + e_name_len(b, off)) }
pub open spec fn e_free(b: Seq<u8>, off: int) -> bool { e_inode(b, off) == INVALID_ADDRESS }

/// The entry at `off` can be read: its header and name lie inside `b`.
pub open spec fn e_parsable(b: Seq<u8>, off: int) -> bool {
    &&& 0 <= off
    &&& off + 9 <= b.len()
    &&& e_name_len(b, off) <= 64
    &&& off + 9 + e_name_len(b, off) <= b.len()
}

/// A directory entry: a file (by its inode) and its name. Entries have variable
/// size; the record length is the room an entry takes on the device, which may
/// be more than it needs. A free region is an entry whose inode is `INVALID_ADDRESS`.
pub struct DirEntry {
    pub inode: u32,
    pub file_type: FileType,
    /// length of the entry on the device; may be greater than the minimum
    /// required, to avoid internal fragmentation on deletions
    pub record_len: u16,
    pub name_len: u16,
    pub name: [u8; 64],
}

/// The bytes of a name, padded with zeros to `MAX_NAME`.
pub open spec fn padded_name(name: Seq<u8>) -> Seq<u8> {
    name + Seq::new((64 - name.len()) as nat, |i: int| 0u8)
}

/// The on-device encoding of an entry: its `record_len` bytes.
pub open spec fn entry_bytes(e: DirEntry) -> Seq<u8> {
    spec_u32_to_le_bytes(e.inode)
        + spec_u16_to_le_bytes(e.record_len)
        + spec_u16_to_le_bytes(e.name_len)
        + seq![file_type_code(e.file_type)]
        + e.name@.take(e.name_len as int)
        + Seq::new((e.record_len - 9 - e.name_len) as nat, |i: int| 0u8)
}

/// The free region of `record_len` bytes that `DirEntry::free` makes.
pub open spec fn free_entry(record_len: u16) -> DirEntry {
    DirEntry { inode: INVALID_ADDRESS, file_type: FileType::Unknown, record_len, name_len: 0, name: vstd::array::spec_array_fill_for_copy_type::<u8, 64>(0u8) }
}

/// `e` is the entry read from position `off` of `b`.
pub open spec fn parsed_entry(b: Seq<u8>, off: int, e: DirEntry) -> bool {
    &&& e.inode == e_inode(b, off)
    &&& e.record_len == e_rec(b, off)
    &&& e.name_len == e_name_len(b, off)
    &&& e.file_type == e_type(b, off)
    &&& e.name@ == padded_name(e_name(b, off))
}

impl DirEntry {
    /// The name held by the entry.
    pub open spec fn name_view(&self) -> Seq<u8> {
        self.name@.take(self.name_len as int)
    }

    pub open spec fn spec_is_free(&self) -> bool {
        self.inode == INVALID_ADDRESS
    }

    /// The entry can be written: its name fits in `MAX_NAME` and in the record.
    pub open spec fn well_formed(&self) -> bool {
        &&& self.name_len <= 64
        &&& 9 + self.name_len <= self.record_len
        &&& forall|i: int| self.name_len <= i < 64 ==> #[trigger] self.name@[i] == 0
    }

    /// A new entry, with the smallest record length that holds it.
    pub fn new(inode: u32, file_type: FileType, name: &str) -> (r: Self)
        ensures
            r.inode == inode,
            r.file_type == file_type,
            r.name_view() == (if name.spec_bytes().len() <= 64 { name.spec_bytes() } else { name.spec_bytes().take(64) }),
            r.record_len == min_rec(r.name_len as int),
            r.well_formed(),
    {
        Self::new_sized(inode, file_type, name, 0)
    }

    /// A new entry whose record length is `record_len` if that is enough to
    /// hold it, else the smallest record length that holds it. Names longer
    /// than `MAX_NAME` bytes are cut to `MAX_NAME`.
    pub fn new_sized(inode: u32, file_type: FileType, name: &str, record_len: u16) -> (r: Self)
        ensures
            r.inode == inode,
            r.file_type == file_type,
            r.name_view() == (if name.spec_bytes().len() <= 64 { name.spec_bytes() } else { name.spec_bytes().take(64) }),
            r.name_len == (if name.spec_bytes().len() <= 64 { name.spec_bytes().len() } else { 64 }),
            r.record_len == (if record_len >= min_rec(r.name_len as int) { record_len as int } else { min_rec(r.name_len as int) }),
            r.well_formed(),
    {
        Self::from_name_bytes(inode, file_type, name.as_bytes(), record_len)
    }

    /// As `new_sized`, with the name given by its bytes.
    pub fn from_name_bytes(inode: u32, file_type: FileType, bytes: &[u8], record_len: u16) -> (r: Self)
        ensures
            r.inode == inode,
            r.file_type == file_type,
            r.name_view() == (if bytes@.len() <= 64 { bytes@ } else { bytes@.take(64) }),
            r.name_len == (if bytes@.len() <= 64 { bytes@.len() } else { 64 }),
            r.record_len == (if record_len >= min_rec(r.name_len as int) { record_len as int } else { min_rec(r.name_len as int) }),
            r.well_formed(),
    {
        let name_len: usize = if bytes.len() < 64 { bytes.len() } else { 64 };
        let mut name_arr = [0u8; 64];
        let mut i: usize = 0;
        while i < name_len
            invariant
                0 <= i <= name_len,
                name_len <= 64,
                name_len <= bytes@.len(),
                forall|k: int| 0 <= k < i ==> name_arr@[k] == bytes@[k],
                forall|k: int| i <= k < 64 ==> name_arr@[k] == 0,
            decreases name_len - i,
        {
            name_arr[i] = bytes[i];
            i = i + 1;
        }
        let min = Self::min_record_len(name_len as u16);
        let record_len = if record_len >= min { record_len } else { min };
        let r = DirEntry { inode, file_type, record_len, name_len: name_len as u16, name: name_arr };
        assert(r.name_view() =~= (if bytes@.len() <= 64 { bytes@ } else { bytes@.take(64) }));
        r
    }

    /// A free region of `record_len` bytes.
    pub fn free(record_len: u16) -> (r: Self)
        ensures
            r.inode == INVALID_ADDRESS,
            r.file_type == FileType::Unknown,
            r.record_len == record_len,
            r.name_len == 0,
            r.name@ == Seq::new(64, |i: int| 0u8),
            r == free_entry(record_len),
            record_len >= 9 ==> r.well_formed(),
    {
        let r = DirEntry { inode: INVALID_ADDRESS, file_type: FileType::Unknown, record_len, name_len: 0, name: [0u8; 64] };
        assert(r.name@ =~= Seq::new(64, |i: int| 0u8));
        assert(r.name =~= free_entry(record_len).name);
        r
    }

    pub fn is_free(&self) -> (r: bool)
        ensures
            r == self.spec_is_free(),
    {
        self.inode == INVALID_ADDRESS
    }

    /// The smallest record length that holds a name of `name_len` bytes
    /// (header plus name, rounded up to a multiple of 4).
    pub fn min_record_len(name_len: u16) -> (r: u16)
        requires
            name_len <= 65523,
        ensures
            r == min_rec(name_len as int),
    {
        let res: u16 = 4 + 1 + 2 + 2 + name_len;
        let res = res + 3;
        let r = (res >> 2) << 2;
        assert(r == ((name_len as int + 12) / 4) * 4) by (bit_vector)
            requires res == name_len + 12, r == (res >> 2) << 2, name_len <= 65523;
        r
    }

    /// The smallest record length of a free region.
    pub fn min_free_size() -> (r: u16)
        ensures
            r == 12,
    {
        Self::min_record_len(0)
    }

    /// Writes the entry at position `init_offset` of `buf`: header, name, and
    /// zeros up to the end of its record.
    pub fn serialize(&self, buf: &mut [u8; BLOCK_SIZE], init_offset: usize)
        requires
            self.name_len <= 64,
            9 + self.name_len <= self.record_len,
            init_offset + self.record_len <= BLOCK_SIZE,
        ensures
            final(buf)@ == overwrite(old(buf)@, init_offset as int, entry_bytes(*self)),
    {
        let mut v = u32_to_le_bytes(self.inode);
        let mut r = u16_to_le_bytes(self.record_len);
        v.append(&mut r);
        let mut n = u16_to_le_bytes(self.name_len);
        v.append(&mut n);
        let t = self.file_type.to_le_bytes();
        v.push(t[0]);
        let ghost prefix = v@;
        let mut i: usize = 0;
        while i < self.name_len as usize
            invariant
                0 <= i <= self.name_len,
                self.name_len <= 64,
                v@ == prefix + self.name@.take(i as int),
            decreases self.name_len - i,
        {
            v.push(self.name[i]);
            assert(self.name@.take(i + 1) =~= self.name@.take(i as int).push(self.name@[i as int]));
            i = i + 1;
        }
        let ghost with_name = v@;
        let pad = self.record_len as usize - 9 - self.name_len as usize;
        let mut k: usize = 0;
        while k < pad
            invariant
                0 <= k <= pad,
                v@ == with_name + Seq::new(k as nat, |i: int| 0u8),
            decreases pad - k,
        {
            v.push(0u8);
            assert(Seq::new((k + 1) as nat, |i: int| 0u8) =~= Seq::new(k as nat, |i: int| 0u8).push(0u8));
            k = k + 1;
        }
        proof {
            lemma_auto_spec_u32_to_from_le_bytes();
            lemma_auto_spec_u16_to_from_le_bytes();
        }
        assert(v@ =~= entry_bytes(*self));
        copy_into(buf, init_offset, v.as_slice());
    }

    /// Reads the entry stored at position `init_offset` of `buf`.
    pub fn deserialize(buf: &[u8], init_offset: usize) -> (r: Self)
        requires
            e_parsable(buf@, init_offset as int),
        ensures
            parsed_entry(buf@, init_offset as int, r),
            r.name_len <= 64,
            forall|i: int| r.name_len <= i < 64 ==> #[trigger] r.name@[i] == 0,
    {
        let off = init_offset;
        let _n = buf.len();
        let inode = read_u32(buf, off);
        let record_len = read_u16(buf, off + 4);
        let name_len = read_u16(buf, off + 6);
        let t: [u8; 1] = [buf[off + 8]];
        let file_type = FileType::from_le_bytes(&t);
        let mut name = [0u8; 64];
        let mut i: usize = 0;
        while i < name_len as usize
            invariant
                0 <= i <= name_len,
                name_len == e_name_len(buf@, off as int),
                e_parsable(buf@, off as int),
                buf@.len() <= usize::MAX,
                forall|k: int| 0 <= k < i ==> name@[k] == buf@[off + 9 + k],
                forall|k: int| i <= k < 64 ==> name@[k] == 0,
            decreases name_len - i,
        {
            name[i] = buf[off + 9 + i];
            i = i + 1;
        }
        let r = DirEntry { inode, file_type, record_len, name_len, name };
        assert(r.name@ =~= padded_name(e_name(buf@, off as int)));
        r
    }
}

/// Reading back a written entry gives the same entry.
pub proof fn lemma_entry_roundtrip(e: DirEntry, b: Seq<u8>, off: int)
    requires
        e.well_formed(),
        0 <= off,
        off + e.record_len <= b.len(),
    ensures
        e_parsable(overwrite(b, off, entry_bytes(e)), off),
        parsed_entry(overwrite(b, off, entry_bytes(e)), off, e),
        entry_bytes(e).len() == e.record_len,
{
    lemma_auto_spec_u32_to_from_le_bytes();
    lemma_auto_spec_u16_to_from_le_bytes();
    let eb = entry_bytes(e);
    let w = overwrite(b, off, eb);
    assert(eb.len() == e.record_len);
    assert forall|i: int| 0 <= i < eb.len() implies w[off + i] == eb[i] by {}
    assert(w.subrange(off, off + 4) =~= spec_u32_to_le_bytes(e.inode));
    assert(w.subrange(off + 4, off + 6) =~= spec_u16_to_le_bytes(e.record_len));
    assert(w.subrange(off + 6, off + 8) =~= spec_u16_to_le_bytes(e.name_len));
    assert(w[off + 8] == file_type_code(e.file_type));
    crate::fs_utils::lemma_file_type_code_roundtrip(e.file_type);
    assert(e_name(w, off) =~= e.name@.take(e.name_len as int));
    assert(e.name@ =~= padded_name(e.name@.take(e.name_len as int)));
}

/// The in-memory contents of a directory.
pub struct Directory {
    pub inode: u32,
    pub entries: Vec<DirEntry>,
    pub initialized: bool,
}

impl Directory {
    /// A new directory: the entries "." (itself) and ".." (its parent), then a
    /// free region filling the rest of the block.
    pub fn new(inode: u32, parent: u32) -> (r: Self)
        ensures
            r.inode == inode,
            !r.initialized,
            r.entries@.len() == 3,
            r.entries@[0].inode == inode && r.entries@[0].file_type == FileType::Directory
                && r.entries@[0].name_view() == seq![46u8] && r.entries@[0].record_len == 12,
            r.entries@[1].inode == parent && r.entries@[1].file_type == FileType::Directory
                && r.entries@[1].name_view() == seq![46u8, 46u8] && r.entries@[1].record_len == 12,
            r.entries@[2].spec_is_free() && r.entries@[2].record_len == 232 && r.entries@[2].name_len == 0,
            forall|i: int| 0 <= i < 3 ==> #[trigger] r.entries@[i].well_formed(),
    {
        let dot: [u8; 1] = [46u8];
        let dotdot: [u8; 2] = [46u8, 46u8];
        let self_entry = DirEntry::from_name_bytes(inode, FileType::Directory, dot.as_slice(), 0);
        let parent_entry = DirEntry::from_name_bytes(parent, FileType::Directory, dotdot.as_slice(), 0);
        assert(dot@ =~= seq![46u8]);
        assert(dotdot@ =~= seq![46u8, 46u8]);
        let free = DirEntry::free(BLOCK_SIZE as u16 - self_entry.record_len - parent_entry.record_len);
        let mut entries = Vec::new();
        entries.push(self_entry);
        entries.push(parent_entry);
        entries.push(free);
        Directory { inode, entries, initialized: false }
    }

    /// Names are not looked up in a `Directory` value (the directory handler
    /// searches the blocks on the device): the answer is always inode 1.
    pub fn lookup(&self, name: &str) -> (r: Option<u32>)
        ensures
            r == Some(1u32),
    {
        Some(1)
    }

    /// Entries are added on the device by the directory handler; the value
    /// stays as it is.
    pub fn insert(&mut self, name: &str, inode: u32) -> (r: FSResult<()>)
        ensures
            r is Ok,
            *final(self) == *old(self),
    {
        Ok(())
    }

    /// Entries are freed on the device by the directory handler; the value
    /// stays as it is.
    pub fn remove(&mut self, name: &str) -> (r: FSResult<()>)
        ensures
            r is Ok,
            *final(self) == *old(self),
    {
        Ok(())
    }

    /// Renaming is not supported by this format; the value stays as it is.
    pub fn rename(&mut self, old_name: &str, new_name: &str) -> (r: FSResult<()>)
        ensures
            r is Ok,
            *final(self) == *old(self),
    {
        Ok(())
    }

    /// The listing comes from the directory handler; this one is always empty.
    pub fn list(&self) -> (r: Vec<DirEntry>)
        ensures
            r@.len() == 0,
    {
        Vec::new()
    }
}

} // verus!

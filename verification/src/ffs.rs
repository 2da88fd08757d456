use vstd::prelude::*;
use vstd::string::StringSliceAdditionalSpecFns;
use crate::fs_utils::{BLOCK_SIZE, FileType, read_version, stored_version};
use crate::fs_error::{FSError, FSResult, InvalidInputKind, InvalidDirEntryKind, StorageFullKind, outcome_agrees};
use crate::device::block_device::BlockDevice;
use crate::formats::format::{DirectoryContentResult, IntegrityResult};
use crate::formats::v1::format::{FormatV1, deleted, mountable, next_id, fresh_handle, seek_target, read_len, bytes_on_device,
    file_byte, distinct_blocks, sat_add, dir_has_entry, stored_name, dir_not_empty, created, bitmaps_covered, bits_changed,
    blocks_after_write, holds_block, slots_valid, delete_owed, slots_in_region, create_owed};
use crate::formats::v1::path::path_components;
use crate::formats::v1::inode_handler::inode_at;
use crate::formats::v1::directory_handler::{dir_on_device, dir_items, search_dir, walk_error, dir_clean, fresh_dir_block};
use crate::formats::v1::directory::{e_name, e_type, min_rec};
use crate::formats::v1::integrity::{metadata_errors, integrity_errors};
use crate::formats::v1::bitmap_allocator::{count_set, spec_min, bit_set};
use vstd::utf8::{decode_utf8, valid_utf8};
use crate::formats::v1::file::{File, FileMetadata, SeekFrom};
use crate::formats::v1::path::names_entry;

verus! {

/// A mounted filesystem: a device and the format that reads it.
pub struct FFS<D: BlockDevice> {
    device: D,
    format: FormatV1,
}

impl<D: BlockDevice> FFS<D> {
    /// The contents of the device.
    pub closed spec fn dev(&self) -> Seq<Seq<u8>> {
        self.device.blocks()
    }

    /// The state of the format.
    pub closed spec fn fs(&self) -> FormatV1 {
        self.format
    }

    /// The device never fails on a block it has.
    pub closed spec fn reliable(&self) -> bool {
        self.device.reliable()
    }

    /// The format lies on the device and both are consistent.
    pub closed spec fn wf(&self) -> bool {
        &&& self.device.inv()
        &&& self.format.wf()
        &&& self.format.fits(self.device.blocks().len() as int)
    }

    /// Mounts the filesystem on `device`, which must hold one of version 1:
    /// version 1 is the only one there is, and a superblock of another
    /// version is not accepted (the caller checks it first).
    pub fn mount(device: D) -> (r: FSResult<Self>)
        requires
            device.inv(),
            device.blocks().len() >= 1 ==> stored_version(device.blocks()[0]) == 1,
        ensures
            match r {
                Ok(f) => {
                    &&& f.wf()
                    &&& f.dev() == device.blocks()
                    &&& mountable(device.blocks())
                    &&& stored_version(device.blocks()[0]) == 1
                    &&& f.fs().open_files@ == Map::<u32, FileMetadata>::empty()
                },
                Err(FSError::InvalidMagic) => device.blocks().len() >= 1 && !mountable(device.blocks()),
                Err(e) => e.is_device_error(),
            },
            device.reliable() ==> (r matches Ok(f) ==> f.reliable()),
            device.reliable() && mountable(device.blocks()) ==> r is Ok,
    {
        let mut device = device;
        let mut buf = [0u8; BLOCK_SIZE];
        match device.read_block(0, &mut buf) {
            Err(e) => { return Err(e); },
            Ok(_) => {},
        }
        let n = device.block_count();
        if n == 0 {
            return Err(FSError::InvalidInput(InvalidInputKind::BlockIndexOOB));
        }
        proof {
            device.lemma_inv_well_sized();
        }
        let _version = read_version(&buf);
        let format = match FormatV1::mount(&mut device) {
            Ok(f) => f,
            Err(e) => { return Err(e); },
        };
        Ok(FFS { device, format })
    }

    /// Creates an empty regular file at `path`.
    pub fn create_file(&mut self, path: &str) -> (r: FSResult<()>)
        requires
            old(self).wf(),
            names_entry(path.spec_bytes()),
        ensures
            final(self).wf(),
            final(self).dev().len() == old(self).dev().len(),
            final(self).fs().same_layout(&old(self).fs()),
            old(self).fs().parent_spec(old(self).dev(), path.spec_bytes()) matches Some(Err(c))
                ==> r matches Err(e) && (e.is_device_error() || e.spec_code() == c),
            r is Ok ==> {
                &&& final(self).fs().superblock.free_inodes == old(self).fs().superblock.free_inodes - 1
                &&& !bit_set(old(self).dev(), old(self).fs().superblock.inode_bitmap_start as int,
                    old(self).fs().inode_allocator.free_scan(old(self).dev())[0] as int)
                &&& bitmaps_covered(old(self).fs().superblock) ==> bits_changed(old(self).dev(), final(self).dev(),
                    old(self).fs().superblock, seq![old(self).fs().inode_allocator.free_scan(old(self).dev())[0]],
                    old(self).fs().block_allocator.free_scan(old(self).dev())
                    .take(old(self).fs().superblock.free_data - final(self).fs().superblock.free_data), true)
                &&& (old(self).fs().superblock.free_data - final(self).fs().superblock.free_data == 0int
                    || old(self).fs().superblock.free_data - final(self).fs().superblock.free_data == 0int + 1)
                &&& final(self).fs().synced(final(self).dev())
                &&& old(self).fs().parent_spec(old(self).dev(), path.spec_bytes()) matches Some(Ok(p)) ==> {
                    let fin = final(self).dev();
                    let ts = old(self).fs().superblock.inode_table_start as int;
                    let ds = old(self).fs().superblock.data_start as int;
                    let k = old(self).fs().inode_allocator.free_scan(old(self).dev())[0];
                    let n = inode_at(fin, ts, k as int);
                    &&& dir_on_device(old(self).dev(), ds, p.target_inode) ==> dir_has_entry(fin, ts, ds,
                        p.target_inode_index, k, FileType::File, stored_name(path_components(path.spec_bytes()).last()))
                    &&& dir_on_device(old(self).dev(), ds, p.target_inode) ==> created(old(self).dev(), fin,
                        old(self).fs().superblock, p.target_inode_index, p.target_inode, k, FileType::File,
                        path_components(path.spec_bytes()).last())
                    &&& dir_on_device(old(self).dev(), ds, p.target_inode) ==> ({
                        let name = path_components(path.spec_bytes()).last();
                        let need = min_rec(if name.len() <= 64 { name.len() as int } else { 64 }) + 12;
                        let grew = search_dir(old(self).dev(), ds, p.target_inode, false, Seq::empty(), need, 0) is None;
                        old(self).fs().superblock.free_data - final(self).fs().superblock.free_data == 0int + if grew { 1int } else { 0int }
                    })
                    &&& p.target_inode_index != k ==> n.file_type == FileType::File && n.size == 256 * 0int && n.blocks == 0int
                }
            },
            old(self).fs().superblock.free_inodes < 1 ==> ({
                let dev = old(self).dev();
                let ds = old(self).fs().superblock.data_start as int;
                let name = path_components(path.spec_bytes()).last();
                let need = min_rec(if name.len() <= 64 { name.len() as int } else { 64 }) + 12;
                old(self).fs().parent_spec(dev, path.spec_bytes()) matches Some(Ok(p)) ==> (dir_on_device(dev, ds, p.target_inode) ==> ({
                    let s = search_dir(dev, ds, p.target_inode, false, Seq::empty(), need, 0);
                    !(s matches Some(Err(_))) && !(s is None && p.target_inode.blocks >= 12) ==>
                        (r == Err::<(), FSError>(FSError::StorageFull(StorageFullKind::INodeTableFull))
                            || (r matches Err(e) && e.is_device_error()))
                }))
            }),
            old(self).fs().superblock.free_inodes >= 1 ==> ({
                let dev = old(self).dev();
                let ds = old(self).fs().superblock.data_start as int;
                let name = path_components(path.spec_bytes()).last();
                let need = min_rec(if name.len() <= 64 { name.len() as int } else { 64 }) + 12;
                old(self).fs().parent_spec(dev, path.spec_bytes()) matches Some(Ok(p)) ==> (dir_on_device(dev, ds, p.target_inode) ==> ({
                    let s = search_dir(dev, ds, p.target_inode, false, Seq::empty(), need, 0);
                    let needed = 0int + if s is None { 1int } else { 0int };
                    !(s matches Some(Err(_))) && !(s is None && p.target_inode.blocks >= 12) && old(self).fs().superblock.free_data < needed ==>
                        (r == Err::<(), FSError>(FSError::StorageFull(StorageFullKind::DataRegionFull))
                            || (r matches Err(e) && e.is_device_error()))
                }))
            }),
            create_owed(old(self).fs(), old(self).dev(), path.spec_bytes(), FileType::File)
                ==> (r is Ok || (r matches Err(e) && e.is_device_error())),
    {
        match self.format.create_file(&mut self.device, path, FileType::File) {
            Ok(_) => Ok(()),
            Err(e) => Err(e),
        }
    }

    /// Creates a directory at `path`, holding `.` and `..`.
    pub fn create_directory(&mut self, path: &str) -> (r: FSResult<()>)
        requires
            old(self).wf(),
            names_entry(path.spec_bytes()),
        ensures
            final(self).wf(),
            final(self).dev().len() == old(self).dev().len(),
            final(self).fs().same_layout(&old(self).fs()),
            old(self).fs().parent_spec(old(self).dev(), path.spec_bytes()) matches Some(Err(c))
                ==> r matches Err(e) && (e.is_device_error() || e.spec_code() == c),
            r is Ok ==> {
                &&& final(self).fs().superblock.free_inodes == old(self).fs().superblock.free_inodes - 1
                &&& !bit_set(old(self).dev(), old(self).fs().superblock.inode_bitmap_start as int,
                    old(self).fs().inode_allocator.free_scan(old(self).dev())[0] as int)
                &&& bitmaps_covered(old(self).fs().superblock) ==> bits_changed(old(self).dev(), final(self).dev(),
                    old(self).fs().superblock, seq![old(self).fs().inode_allocator.free_scan(old(self).dev())[0]],
                    old(self).fs().block_allocator.free_scan(old(self).dev())
                    .take(old(self).fs().superblock.free_data - final(self).fs().superblock.free_data), true)
                &&& (old(self).fs().superblock.free_data - final(self).fs().superblock.free_data == 1int
                    || old(self).fs().superblock.free_data - final(self).fs().superblock.free_data == 1int + 1)
                &&& final(self).fs().synced(final(self).dev())
                &&& old(self).fs().parent_spec(old(self).dev(), path.spec_bytes()) matches Some(Ok(p)) ==> {
                    let fin = final(self).dev();
                    let ts = old(self).fs().superblock.inode_table_start as int;
                    let ds = old(self).fs().superblock.data_start as int;
                    let k = old(self).fs().inode_allocator.free_scan(old(self).dev())[0];
                    let n = inode_at(fin, ts, k as int);
                    &&& dir_on_device(old(self).dev(), ds, p.target_inode) ==> dir_has_entry(fin, ts, ds,
                        p.target_inode_index, k, FileType::Directory, stored_name(path_components(path.spec_bytes()).last()))
                    &&& dir_on_device(old(self).dev(), ds, p.target_inode) ==> created(old(self).dev(), fin,
                        old(self).fs().superblock, p.target_inode_index, p.target_inode, k, FileType::Directory,
                        path_components(path.spec_bytes()).last())
                    &&& dir_on_device(old(self).dev(), ds, p.target_inode) ==> ({
                        let name = path_components(path.spec_bytes()).last();
                        let need = min_rec(if name.len() <= 64 { name.len() as int } else { 64 }) + 12;
                        let grew = search_dir(old(self).dev(), ds, p.target_inode, false, Seq::empty(), need, 0) is None;
                        old(self).fs().superblock.free_data - final(self).fs().superblock.free_data == 1int + if grew { 1int } else { 0int }
                    })
                    &&& p.target_inode_index != k ==> n.file_type == FileType::Directory && n.size == 256 * 1int && n.blocks == 1int
                    &&& (p.target_inode_index != k && dir_on_device(old(self).dev(), ds, p.target_inode)
                        && !holds_block(p.target_inode, n.direct@[0]))
                        ==> fresh_dir_block(fin[ds + n.direct@[0]], k, p.target_inode_index)
                }
            },
            old(self).fs().superblock.free_inodes < 1 ==> ({
                let dev = old(self).dev();
                let ds = old(self).fs().superblock.data_start as int;
                let name = path_components(path.spec_bytes()).last();
                let need = min_rec(if name.len() <= 64 { name.len() as int } else { 64 }) + 12;
                old(self).fs().parent_spec(dev, path.spec_bytes()) matches Some(Ok(p)) ==> (dir_on_device(dev, ds, p.target_inode) ==> ({
                    let s = search_dir(dev, ds, p.target_inode, false, Seq::empty(), need, 0);
                    !(s matches Some(Err(_))) && !(s is None && p.target_inode.blocks >= 12) ==>
                        (r == Err::<(), FSError>(FSError::StorageFull(StorageFullKind::INodeTableFull))
                            || (r matches Err(e) && e.is_device_error()))
                }))
            }),
            old(self).fs().superblock.free_inodes >= 1 ==> ({
                let dev = old(self).dev();
                let ds = old(self).fs().superblock.data_start as int;
                let name = path_components(path.spec_bytes()).last();
                let need = min_rec(if name.len() <= 64 { name.len() as int } else { 64 }) + 12;
                old(self).fs().parent_spec(dev, path.spec_bytes()) matches Some(Ok(p)) ==> (dir_on_device(dev, ds, p.target_inode) ==> ({
                    let s = search_dir(dev, ds, p.target_inode, false, Seq::empty(), need, 0);
                    let needed = 1int + if s is None { 1int } else { 0int };
                    !(s matches Some(Err(_))) && !(s is None && p.target_inode.blocks >= 12) && old(self).fs().superblock.free_data < needed ==>
                        (r == Err::<(), FSError>(FSError::StorageFull(StorageFullKind::DataRegionFull))
                            || (r matches Err(e) && e.is_device_error()))
                }))
            }),
            create_owed(old(self).fs(), old(self).dev(), path.spec_bytes(), FileType::Directory)
                ==> (r is Ok || (r matches Err(e) && e.is_device_error())),
    {
        match self.format.create_file(&mut self.device, path, FileType::Directory) {
            Ok(_) => Ok(()),
            Err(e) => Err(e),
        }
    }

    /// Symbolic links cannot be created by format version 1: always fails
    /// with `InvalidInput(UnknownFileType)`, and changes nothing.
    pub fn create_symlink(&mut self, path: &str, tgt: &str) -> (r: FSResult<()>)
        ensures
            r == Err::<(), FSError>(FSError::InvalidInput(InvalidInputKind::UnknownFileType)),
            *final(self) == *old(self),
    {
        Err(FSError::InvalidInput(InvalidInputKind::UnknownFileType))
    }

    /// Deletes the file or directory at `path` (a directory must be empty).
    pub fn delete(&mut self, path: &str) -> (r: FSResult<()>)
        requires
            old(self).wf(),
            names_entry(path.spec_bytes()),
        ensures
            final(self).wf(),
            final(self).dev().len() == old(self).dev().len(),
            final(self).fs().open_files@ == old(self).fs().open_files@,
            old(self).fs().exists_spec(old(self).dev(), path.spec_bytes()) matches Some(Err(c))
                ==> r matches Err(e) && (e.is_device_error() || e.spec_code() == c),
            old(self).fs().exists_spec(old(self).dev(), path.spec_bytes()) == Some(Ok::<(bool, Option<FileType>), crate::fs_error::FSErrorCode>((false, None)))
                ==> (r matches Err(e) && (e.is_device_error() || e is DoesNotExist)),
            old(self).fs().exists_spec(old(self).dev(), path.spec_bytes()) matches Some(Ok((true, Some(t)))) ==> ({
                let dev = old(self).dev();
                let s = old(self).fs().delete_spec(dev, path.spec_bytes(), t);
                &&& t != FileType::Unknown && s is Some && s->Some_0 is Err ==> {
                    &&& r matches Err(e) && (e.is_device_error() || e.spec_code() == s->Some_0->Err_0)
                    &&& final(self).fs() == old(self).fs()
                    &&& final(self).dev() == dev
                }
                &&& r is Ok ==> t != FileType::Unknown && (s is None || (s matches Some(Ok(x)) && {
                    let n = inode_at(dev, old(self).fs().superblock.inode_table_start as int, x.0.inode as int);
                    if n.links > 1 {
                        &&& final(self).fs().superblock == old(self).fs().superblock
                        &&& final(self).dev()[0] == dev[0]
                    } else {
                        &&& final(self).fs().synced(final(self).dev())
                        &&& final(self).fs().superblock.free_inodes == sat_add(old(self).fs().superblock.free_inodes, 1)
                        &&& final(self).fs().superblock.free_data == sat_add(old(self).fs().superblock.free_data, n.blocks)
                    }
                }))
                &&& r is Ok ==> (s matches Some(Ok(x)) ==> (old(self).fs().entry_spec(dev, path.spec_bytes()) matches Some(Ok((p, _)))
                    ==> deleted(dev, final(self).dev(), old(self).fs().superblock, x.0.inode,
                    inode_at(dev, old(self).fs().superblock.inode_table_start as int, x.0.inode as int), x.1, x.2,
                    p.target_inode_index, p.target_inode)))
                &&& t == FileType::Directory ==> (s matches Some(Ok(x)) ==> ({
                    let ds = old(self).fs().superblock.data_start as int;
                    let n = inode_at(dev, old(self).fs().superblock.inode_table_start as int, x.0.inode as int);
                    x.0.inode < 2 * old(self).fs().superblock.inode_table_blocks && dir_on_device(dev, ds, n) && dir_clean(dev, ds, n)
                        && dir_not_empty(dev, ds, n)
                        ==> (r == Err::<(), FSError>(FSError::DirectoryNotEmpty) || (r matches Err(e) && e.is_device_error()))
                }))
                &&& t == FileType::Directory ==> (s matches Some(Ok(x)) ==> ({
                    let ds = old(self).fs().superblock.data_start as int;
                    let n = inode_at(dev, old(self).fs().superblock.inode_table_start as int, x.0.inode as int);
                    let items = dir_items(dev, ds, n, false, 0);
                    &&& dir_on_device(dev, ds, n) && r is Ok ==> forall|i: int| 0 <= i < items.len() ==>
                        e_name(#[trigger] items[i].0, items[i].1) == seq![46u8]
                        || e_name(items[i].0, items[i].1) == seq![46u8, 46u8]
                    &&& (x.0.inode < 2 * old(self).fs().superblock.inode_table_blocks && dir_on_device(dev, ds, n) && dir_clean(dev, ds, n)
                        && exists|i: int| 0 <= i < items.len() && e_name(#[trigger] items[i].0, items[i].1) != seq![46u8]
                            && e_name(items[i].0, items[i].1) != seq![46u8, 46u8])
                        ==> (r == Err::<(), FSError>(FSError::DirectoryNotEmpty) || (r matches Err(e) && e.is_device_error()))
                }))
                &&& t != FileType::Unknown ==> (s matches Some(Ok(x)) ==> (
                    old(self).fs().entry_spec(dev, path.spec_bytes()) matches Some(Ok((p, _))) ==> (
                    delete_owed(old(self).fs(), dev, x, p.target_inode_index, t)
                    ==> (r is Ok || (r matches Err(e) && e.is_device_error())))))
            }),
    {
        let (exists, file_type) = match self.format.file_exists(&mut self.device, path) {
            Ok(x) => x,
            Err(e) => { return Err(e); },
        };
        if !exists {
            return Err(FSError::DoesNotExist { path: path.to_string() });
        }
        let t = match file_type {
            Some(t) => t,
            None => { return Err(FSError::DoesNotExist { path: path.to_string() }); },
        };
        self.format.delete_file(&mut self.device, path, t)
    }

    /// Hard links cannot be made by format version 1: always fails with
    /// `InvalidInput(Unspecified)`, and changes nothing.
    pub fn link(&mut self, src: &str, dst: &str) -> (r: FSResult<()>)
        ensures
            r == Err::<(), FSError>(FSError::InvalidInput(InvalidInputKind::Unspecified)),
            *final(self) == *old(self),
    {
        Err(FSError::InvalidInput(InvalidInputKind::Unspecified))
    }

    /// Whether `path` names an entry, and then its file type.
    pub fn file_exists(&mut self, path: &str) -> (r: FSResult<(bool, Option<FileType>)>)
        requires
            old(self).wf(),
            names_entry(path.spec_bytes()),
        ensures
            final(self).wf(),
            final(self).dev() == old(self).dev(),
            final(self).fs() == old(self).fs(),
            outcome_agrees(old(self).fs().exists_spec(old(self).dev(), path.spec_bytes()), r),
    {
        self.format.file_exists(&mut self.device, path)
    }

    /// Opens the regular file at `path`.
    pub fn open_file(&mut self, path: &str) -> (r: FSResult<File>)
        requires
            old(self).wf(),
            names_entry(path.spec_bytes()),
        ensures
            final(self).wf(),
            final(self).dev() == old(self).dev(),
            r matches Ok(f) ==> f.id == old(self).fs().next_file_id
                && final(self).fs().next_file_id == next_id(old(self).fs().next_file_id),
            r matches Ok(f) ==> exists|k: u32| {
                &&& final(self).fs().open_files@ == old(self).fs().open_files@.insert(f.id, #[trigger] fresh_handle(k))
                &&& old(self).fs().open_spec(old(self).dev(), path.spec_bytes()) is Some
                    ==> old(self).fs().open_spec(old(self).dev(), path.spec_bytes()) == Some(Ok::<u32, crate::fs_error::FSErrorCode>(k))
            },
            r is Err ==> final(self).fs() == old(self).fs(),
            r matches Err(e) ==> ({
                let s = old(self).fs().open_spec(old(self).dev(), path.spec_bytes());
                e.is_device_error() || s is None || (s matches Some(Err(c)) && e.spec_code() == c)
            }),
    {
        self.format.open_file(&mut self.device, path)
    }

    /// Closes a handle.
    pub fn close_file(&mut self, file: &File) -> (r: FSResult<()>)
        requires
            old(self).wf(),
        ensures
            final(self).wf(),
            final(self).dev() == old(self).dev(),
            r is Ok,
            final(self).fs().open_files@ == old(self).fs().open_files@.remove(file.id),
    {
        self.format.close_file(file)
    }

    /// Reads from an open file at its offset (see `FormatV1::read`).
    pub fn read(&mut self, file: &File, buf: &mut [u8]) -> (r: FSResult<usize>)
        requires
            old(self).wf(),
        ensures
            final(self).wf(),
            final(self).dev() == old(self).dev(),
            final(buf)@.len() == old(buf)@.len(),
            final(self).fs().superblock == old(self).fs().superblock,
            final(self).fs().next_file_id == old(self).fs().next_file_id,
            !old(self).fs().open_files@.contains_key(file.id) ==> {
                &&& r == Err::<usize, FSError>(FSError::FileNotOpen { file_id: file.id })
                &&& final(self).fs().open_files@ == old(self).fs().open_files@
            },
            old(self).fs().open_files@.contains_key(file.id) ==> ({
                let dev = old(self).dev();
                let m = old(self).fs().open_files@[file.id];
                let ds = old(self).fs().superblock.data_start as int;
                let n = inode_at(dev, old(self).fs().superblock.inode_table_start as int, m.inode as int);
                let len = read_len(old(buf)@.len() as int, m.offset as int, n.size as int);
                match r {
                    Ok(k) => {
                        &&& k == len
                        &&& final(self).fs().open_files@ == old(self).fs().open_files@.insert(file.id,
                            FileMetadata { inode: m.inode, offset: (m.offset + k) as u64 })
                        &&& forall|j: int| k <= j < old(buf)@.len() ==> #[trigger] final(buf)@[j] == old(buf)@[j]
                        &&& bytes_on_device(dev, ds, n, m.offset as int, m.offset + k) ==>
                            forall|j: int| 0 <= j < k ==> #[trigger] final(buf)@[j] == file_byte(dev, ds, n, m.offset + j)
                    },
                    Err(e) => e.is_device_error() || e is InvalidINode || e is InvalidInput,
                }
            }),
            old(self).fs().open_files@.contains_key(file.id) && old(self).reliable() ==> ({
                let dev = old(self).dev();
                let m = old(self).fs().open_files@[file.id];
                let n = inode_at(dev, old(self).fs().superblock.inode_table_start as int, m.inode as int);
                let len = read_len(old(buf)@.len() as int, m.offset as int, n.size as int);
                (old(buf)@.len() == 0 || (m.inode < 2 * old(self).fs().superblock.inode_table_blocks && n.size <= 256 * n.blocks
                    && (len == 0 || ((m.offset + len - 1) / 256 < 12
                    && slots_in_region(n, m.offset as int / 256, (m.offset + len - 1) / 256, old(self).fs().block_allocator.spec_max_index())))))
                    ==> r == Ok::<usize, FSError>(len as usize) && final(self).reliable()
            }),
    {
        self.format.read(&mut self.device, file, buf)
    }

    /// Writes to an open file at its offset (see `FormatV1::write`).
    pub fn write(&mut self, file: &File, buf: &[u8]) -> (r: FSResult<usize>)
        requires
            old(self).wf(),
        ensures
            final(self).wf(),
            final(self).dev().len() == old(self).dev().len(),
            final(self).fs().same_layout(&old(self).fs()),
            final(self).fs().next_file_id == old(self).fs().next_file_id,
            final(self).fs().superblock.free_inodes == old(self).fs().superblock.free_inodes,
            final(self).fs().superblock.free_data <= old(self).fs().superblock.free_data,
            !old(self).fs().open_files@.contains_key(file.id) ==> {
                &&& r == Err::<usize, FSError>(FSError::FileNotOpen { file_id: file.id })
                &&& final(self).fs() == old(self).fs()
                &&& final(self).dev() == old(self).dev()
            },
            old(self).fs().open_files@.contains_key(file.id) ==> ({
                let m = old(self).fs().open_files@[file.id];
                let ds = old(self).fs().superblock.data_start as int;
                let fin = final(self).dev();
                let n = inode_at(fin, old(self).fs().superblock.inode_table_start as int, m.inode as int);
                let n0 = inode_at(old(self).dev(), old(self).fs().superblock.inode_table_start as int, m.inode as int);
                let last = m.offset + buf@.len() - 1;
                let in_table = m.inode < 2 * old(self).fs().superblock.inode_table_blocks;
                &&& buf@.len() == 0 ==> r == Ok::<usize, FSError>(0) && final(self).dev() == old(self).dev()
                &&& buf@.len() > 0 && !in_table ==> (r matches Err(FSError::InvalidInput(InvalidInputKind::INodeIndexOOB { .. })))
                &&& buf@.len() > 0 && in_table && last > u64::MAX ==> (r == Err::<usize, FSError>(FSError::InvalidInput(InvalidInputKind::IndexOOB))
                    || (r matches Err(e) && e.is_device_error()))
                &&& (r == Err::<usize, FSError>(FSError::MaxINodeSize)) ==> buf@.len() > 0 && last <= u64::MAX && last / 256 >= 12 && last / 256 >= n0.blocks
                &&& buf@.len() > 0 && in_table && last <= u64::MAX && last / 256 >= 12 && last / 256 >= n0.blocks ==>
                    (r == Err::<usize, FSError>(FSError::MaxINodeSize) || (r matches Err(e) && e.is_device_error()))
                &&& buf@.len() > 0 && in_table && last <= u64::MAX && last / 256 < 12
                    && slots_valid(n0, m.offset as int / 256, last / 256, old(self).fs().block_allocator.spec_max_index())
                    ==> (r is Ok || (r matches Err(e) && e.is_device_error()))
                &&& match r {
                    Ok(k) => {
                        &&& k == read_len(buf@.len() as int, m.offset as int, 256 * blocks_after_write(n0.blocks as int, last,
                            old(self).fs().block_allocator.free_scan(old(self).dev())))
                        &&& final(self).fs().open_files@ == old(self).fs().open_files@.insert(file.id,
                            FileMetadata { inode: m.inode, offset: (m.offset + k) as u64 })
                        &&& (buf@.len() > 0 ==> n.size >= m.offset + k)
                        &&& (buf@.len() > 0 ==> n.size == (if m.offset + k > n0.size { m.offset + k } else { n0.size as int }))
                        &&& bytes_on_device(fin, ds, n, m.offset as int, m.offset + k)
                            && distinct_blocks(n, m.offset as int / 256, (m.offset + k + 255) / 256) ==>
                            forall|j: int| 0 <= j < k ==> #[trigger] file_byte(fin, ds, n, m.offset + j) == buf@[j]
                    },
                    Err(e) => e.is_device_error() || e is InvalidINode || e is InvalidInput || e is MaxINodeSize,
                }
            }),
            old(self).fs().open_files@.contains_key(file.id) && old(self).reliable() ==> ({
                let m = old(self).fs().open_files@[file.id];
                let n0 = inode_at(old(self).dev(), old(self).fs().superblock.inode_table_start as int, m.inode as int);
                let last = m.offset + buf@.len() - 1;
                buf@.len() > 0 && m.inode < 2 * old(self).fs().superblock.inode_table_blocks && last <= u64::MAX && last / 256 < 12
                    && slots_in_region(n0, m.offset as int / 256, last / 256, old(self).fs().block_allocator.spec_max_index())
                    ==> r is Ok && final(self).reliable()
            }),
    {
        self.format.write(&mut self.device, file, buf)
    }

    /// Moves the offset of an open file (see `FormatV1::seek`).
    pub fn seek(&mut self, file: &File, pos: SeekFrom) -> (r: FSResult<u64>)
        requires
            old(self).wf(),
        ensures
            final(self).wf(),
            final(self).dev() == old(self).dev(),
            final(self).fs().superblock == old(self).fs().superblock,
            final(self).fs().next_file_id == old(self).fs().next_file_id,
            !old(self).fs().open_files@.contains_key(file.id) ==> r == Err::<u64, FSError>(FSError::FileNotOpen { file_id: file.id }),
            old(self).fs().open_files@.contains_key(file.id) ==> ({
                let m = old(self).fs().open_files@[file.id];
                let c = m.offset as int;
                let size = inode_at(old(self).dev(), old(self).fs().superblock.inode_table_start as int, m.inode as int).size as int;
                &&& pos matches SeekFrom::Start(o) ==> r == Ok::<u64, FSError>(o)
                &&& pos matches SeekFrom::Current(d) ==> r == (if c + d < 0 {
                        Ok::<u64, FSError>(0)
                    } else if c + d <= u64::MAX {
                        Ok::<u64, FSError>((c + d) as u64)
                    } else {
                        Err::<u64, FSError>(FSError::InvalidInput(InvalidInputKind::IndexOOB))
                    })
                &&& pos matches SeekFrom::End(d) ==> (r matches Ok(p) ==> p == (if size + d < 0 { 0 } else { size + d }))
                &&& pos matches SeekFrom::End(d) ==> (old(self).reliable() && m.inode < 2 * old(self).fs().superblock.inode_table_blocks ==> r == (if size + d < 0 {
                        Ok::<u64, FSError>(0)
                    } else if size + d <= u64::MAX {
                        Ok::<u64, FSError>((size + d) as u64)
                    } else {
                        Err::<u64, FSError>(FSError::InvalidInput(InvalidInputKind::IndexOOB))
                    }))
                &&& r matches Ok(p) ==> final(self).fs().open_files@.contains_key(file.id) && final(self).fs().open_files@[file.id].offset == p
                    && final(self).fs().open_files@[file.id].inode == m.inode
            }),
            ({
                let m = old(self).fs().open_files@[file.id];
                let t = seek_target(pos, 0, m.offset);
                old(self).fs().open_files@.contains_key(file.id) && !(pos is End) ==> r == (if t <= u64::MAX {
                    Ok::<u64, FSError>(t as u64)
                } else {
                    Err::<u64, FSError>(FSError::InvalidInput(InvalidInputKind::IndexOOB))
                })
            }),
            old(self).reliable() && !(pos is End) ==> final(self).reliable(),
            ({
                let m = old(self).fs().open_files@[file.id];
                let size = inode_at(old(self).dev(), old(self).fs().superblock.inode_table_start as int, m.inode as int).size;
                let t = seek_target(pos, size, m.offset);
                old(self).fs().open_files@.contains_key(file.id) && pos is End && old(self).reliable()
                    && m.inode < 2 * old(self).fs().superblock.inode_table_blocks ==> r == (if t <= u64::MAX {
                    Ok::<u64, FSError>(t as u64)
                } else {
                    Err::<u64, FSError>(FSError::InvalidInput(InvalidInputKind::IndexOOB))
                }) && final(self).reliable()
            }),
            match r {
                Ok(p) => {
                    let m = old(self).fs().open_files@[file.id];
                    let size = inode_at(old(self).dev(), old(self).fs().superblock.inode_table_start as int, m.inode as int).size;
                    &&& old(self).fs().open_files@.contains_key(file.id)
                    &&& p == seek_target(pos, size, m.offset)
                    &&& final(self).fs().open_files@ == old(self).fs().open_files@.insert(file.id, FileMetadata { inode: m.inode, offset: p })
                },
                Err(e) => {
                    let m = old(self).fs().open_files@[file.id];
                    let size = inode_at(old(self).dev(), old(self).fs().superblock.inode_table_start as int, m.inode as int).size;
                    &&& final(self).fs().open_files@ == old(self).fs().open_files@
                    &&& (!old(self).fs().open_files@.contains_key(file.id) || e.is_device_error()
                        || e matches FSError::InvalidInput(InvalidInputKind::INodeIndexOOB { .. })
                        || (e == FSError::InvalidInput(InvalidInputKind::IndexOOB) && seek_target(pos, size, m.offset) > u64::MAX))
                },
            },
    {
        self.format.seek(&mut self.device, file, pos)
    }

    /// The listing of the directory at `path`.
    pub fn get_directory_content(&mut self, path: &str) -> (r: FSResult<DirectoryContentResult>)
        requires
            old(self).wf(),
        ensures
            final(self).wf(),
            final(self).dev() == old(self).dev(),
            final(self).fs() == old(self).fs(),
            ({
                let dev = old(self).dev();
                let ds = old(self).fs().superblock.data_start as int;
                let s = old(self).fs().dir_spec(dev, path.spec_bytes());
                &&& s matches Some(Err(c)) ==> r matches Err(e) && (e.is_device_error() || e.spec_code() == c)
                &&& r matches Ok(c) ==> (s is None || (s matches Some(Ok(p))
                    && (dir_on_device(dev, ds, p.target_inode) ==> {
                        let items = dir_items(dev, ds, p.target_inode, false, 0);
                        &&& c.entries@.len() == items.len()
                        &&& forall|i: int| 0 <= i < items.len() ==>
                            (#[trigger] c.entries@[i]).filename@ == decode_utf8(e_name(items[i].0, items[i].1))
                            && c.entries@[i].file_type == e_type(items[i].0, items[i].1)
                    })))
                &&& r matches Err(e) ==> (e.is_device_error() || s is None || (s matches Some(Err(c)) && e.spec_code() == c)
                    || (s matches Some(Ok(p)) && (!dir_on_device(dev, ds, p.target_inode)
                        || (search_dir(dev, ds, p.target_inode, false, Seq::empty(), 65536, 0) matches Some(Err(end))
                            && walk_error(end, e))
                        || (e == FSError::InvalidDirEntry(InvalidDirEntryKind::Unspecified) && exists|i: int|
                            0 <= i < dir_items(dev, ds, p.target_inode, false, 0).len()
                            && !valid_utf8(e_name(#[trigger] dir_items(dev, ds, p.target_inode, false, 0)[i].0,
                                dir_items(dev, ds, p.target_inode, false, 0)[i].1))))))
            }),
    {
        self.format.get_directory_content(&mut self.device, path)
    }

    /// The data bytes that files can still get.
    pub fn free_space(&mut self) -> (r: FSResult<usize>)
        requires
            old(self).wf(),
        ensures
            final(self).wf(),
            final(self).fs() == old(self).fs(),
            final(self).dev() == old(self).dev(),
            match r {
                Ok(n) => n == old(self).fs().superblock.free_data * 256,
                Err(e) => e == FSError::InvalidInput(InvalidInputKind::IndexOOB) && old(self).fs().superblock.free_data * 256 > usize::MAX,
            },
    {
        self.format.free_space()
    }

    /// Checks the integrity of the filesystem (see `FormatV1::check_integrity`).
    pub fn check_integrity(&mut self) -> (r: FSResult<IntegrityResult>)
        requires
            old(self).wf(),
        ensures
            final(self).wf(),
            final(self).dev() == old(self).dev(),
            final(self).fs() == old(self).fs(),
            match r {
                Ok(res) => {
                    let dev = old(self).dev();
                    let ia = old(self).fs().inode_allocator;
                    let ba = old(self).fs().block_allocator;
                    let inodes = count_set(dev, ia.start_block() as int, 0, spec_min(ia.bitmap_blocks() * 2048, ia.spec_max_index() as int));
                    let blocks = count_set(dev, ba.start_block() as int, 0, spec_min(ba.bitmap_blocks() * 2048, ba.spec_max_index() as int));
                    let m = metadata_errors(old(self).fs(), inodes as int, blocks as int);
                    &&& res.errors@.len() >= m.len() && res.errors@.take(m.len() as int) == m
                    &&& integrity_errors(old(self).fs(), dev) == Some(res.errors@)
                },
                Err(e) => (e.is_device_error() || e is InvalidInput)
                    && (e.is_device_error() || integrity_errors(old(self).fs(), old(self).dev()) is None),
            },
    {
        self.format.check_integrity(&mut self.device)
    }

    /// The device, to save or inspect it.
    pub fn device(&self) -> (r: &D)
        ensures
            r.blocks() == self.dev(),
    {
        &self.device
    }
}

} // verus!

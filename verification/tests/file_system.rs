use std::collections::BTreeMap;
use std::sync::{Arc, Mutex};

use crap_os::virtual_fs::directory::Directory;
use crap_os::virtual_fs::driver::{BlockDevice, Device, FileSystemDriver, FileSystemInstance, Instance};
use crap_os::virtual_fs::file::{File, FileHandle};
use crap_os::virtual_fs::inode::{DirectoryEntry, Inode};
use crap_os::virtual_fs::types::{
    AccessMode, DirectoryEntryType, FileSystemError, InodeType, Permissions, Timestamps,
};
use crap_os::virtual_fs::vfs::VirtualFileSystem;

/// What one volume holds.
#[derive(Clone)]
enum Node {
    File(Vec<u8>),
    Directory(Vec<(String, u64)>),
    Symlink(String),
}

#[derive(Default)]
struct Disk {
    nodes: BTreeMap<u64, Node>,
    log: Vec<String>,
    broken: Option<FileSystemError>,
}

impl Disk {
    fn new() -> Self {
        let mut disk = Disk::default();
        disk.nodes.insert(1, Node::Directory(Vec::new()));
        disk
    }

    fn inode(&self, number: u64) -> Result<Inode, FileSystemError> {
        let (inode_type, size) = match self.nodes.get(&number) {
            Some(Node::File(data)) => (InodeType::File, data.len() as u64),
            Some(Node::Directory(_)) => (InodeType::Directory, 0),
            Some(Node::Symlink(target)) => (InodeType::Symlink, target.len() as u64),
            None => return Err(FileSystemError::NotFound),
        };
        let names = self.nodes.values().map(|node| match node {
            Node::Directory(list) => list.iter().filter(|(_, n)| *n == number).count(),
            _ => 0,
        });
        let link_count = names.sum::<usize>().max(1) as u32;
        Ok(Inode::new(
            number,
            0,
            inode_type,
            size,
            Permissions::all_permissive(),
            Timestamps::zero(),
            link_count,
        ))
    }

    fn entries(&mut self, number: u64) -> &mut Vec<(String, u64)> {
        match self.nodes.get_mut(&number) {
            Some(Node::Directory(list)) => list,
            _ => panic!("not a directory"),
        }
    }

    fn add(&mut self, parent: u64, name: &str, node: Node) -> u64 {
        let number = self.nodes.keys().max().unwrap() + 1;
        self.nodes.insert(number, node);
        self.entries(parent).push((name.to_string(), number));
        number
    }
}

struct RamFs {
    disk: Arc<Mutex<Disk>>,
}

impl FileSystemInstance for RamFs {
    fn instance_id(&self) -> u64 {
        7
    }

    fn block_size(&self) -> u32 {
        512
    }

    fn fs_type(&self) -> &'static str {
        "ram"
    }

    fn load_inode(&mut self, inode_number: u64) -> Result<Inode, FileSystemError> {
        let mut disk = self.disk.lock().unwrap();
        disk.log.push(format!("load {}", inode_number));
        match disk.broken {
            Some(e) => Err(e),
            None => disk.inode(inode_number),
        }
    }

    fn sync_inode(&mut self, inode: &Inode) -> Result<(), FileSystemError> {
        self.disk.lock().unwrap().log.push(format!("sync {}", inode.inode_number));
        Ok(())
    }

    fn free_inode(&mut self, inode: &Inode) -> Result<(), FileSystemError> {
        let mut disk = self.disk.lock().unwrap();
        disk.log.push(format!("free {}", inode.inode_number));
        disk.nodes.remove(&inode.inode_number);
        Ok(())
    }

    fn lookup(&mut self, _directory: &Inode, _name: &str) -> Result<DirectoryEntry, FileSystemError> {
        Err(FileSystemError::InternalError)
    }

    fn read_dir(&mut self, directory: &Inode) -> Result<Vec<DirectoryEntry>, FileSystemError> {
        let mut disk = self.disk.lock().unwrap();
        disk.log.push(format!("list {}", directory.inode_number));
        if let Some(e) = disk.broken {
            return Err(e);
        }
        let list = disk.entries(directory.inode_number).clone();
        Ok(list
            .into_iter()
            .map(|(name, number)| {
                let entry_type = match disk.nodes[&number] {
                    Node::File(_) => DirectoryEntryType::File,
                    Node::Directory(_) => DirectoryEntryType::Directory,
                    Node::Symlink(_) => DirectoryEntryType::Symlink,
                };
                DirectoryEntry { name, inode_number: number, entry_type, inode: None }
            })
            .collect())
    }

    fn read(&mut self, inode: &Inode, offset: u64, buffer: &mut [u8]) -> Result<usize, FileSystemError> {
        let disk = self.disk.lock().unwrap();
        let Some(Node::File(data)) = disk.nodes.get(&inode.inode_number) else {
            return Err(FileSystemError::NotAFile);
        };
        let start = (offset as usize).min(data.len());
        let count = (data.len() - start).min(buffer.len());
        buffer[..count].copy_from_slice(&data[start..start + count]);
        Ok(count)
    }

    fn write(&mut self, inode: &Inode, offset: u64, buffer: &[u8]) -> Result<usize, FileSystemError> {
        let mut disk = self.disk.lock().unwrap();
        let Some(Node::File(data)) = disk.nodes.get_mut(&inode.inode_number) else {
            return Err(FileSystemError::NotAFile);
        };
        let end = offset as usize + buffer.len();
        if data.len() < end {
            data.resize(end, 0);
        }
        data[offset as usize..end].copy_from_slice(buffer);
        Ok(buffer.len())
    }

    fn create_file(
        &mut self,
        parent: &Inode,
        name: &str,
        _permissions: Permissions,
        timestamps: Timestamps,
    ) -> Result<Inode, FileSystemError> {
        let mut disk = self.disk.lock().unwrap();
        let number = disk.add(parent.inode_number, name, Node::File(Vec::new()));
        let mut inode = disk.inode(number)?;
        inode.timestamps = timestamps;
        Ok(inode)
    }

    fn create_directory(
        &mut self,
        parent: &Inode,
        name: &str,
        _permissions: Permissions,
        _timestamps: Timestamps,
    ) -> Result<Inode, FileSystemError> {
        let mut disk = self.disk.lock().unwrap();
        let number = disk.add(parent.inode_number, name, Node::Directory(Vec::new()));
        disk.inode(number)
    }

    fn create_symlink(
        &mut self,
        parent: &Inode,
        name: &str,
        target: &str,
        _timestamps: Timestamps,
    ) -> Result<Inode, FileSystemError> {
        let mut disk = self.disk.lock().unwrap();
        let number = disk.add(parent.inode_number, name, Node::Symlink(target.to_string()));
        disk.inode(number)
    }

    fn unlink(&mut self, parent: &Inode, name: &str) -> Result<(), FileSystemError> {
        let mut disk = self.disk.lock().unwrap();
        disk.log.push(format!("unlink {} {}", parent.inode_number, name));
        disk.entries(parent.inode_number).retain(|(n, _)| n != name);
        Ok(())
    }

    fn rename(
        &mut self,
        old_parent: &Inode,
        old_name: &str,
        new_parent: &Inode,
        new_name: &str,
    ) -> Result<(), FileSystemError> {
        let mut disk = self.disk.lock().unwrap();
        disk.log.push(format!("rename {} {}", old_name, new_name));
        let list = disk.entries(old_parent.inode_number);
        if let Some(at) = list.iter().position(|(n, _)| n == old_name) {
            let (_, number) = list.remove(at);
            disk.entries(new_parent.inode_number).push((new_name.to_string(), number));
        }
        Ok(())
    }

    fn read_symlink(&mut self, inode: &Inode) -> Result<String, FileSystemError> {
        match self.disk.lock().unwrap().nodes.get(&inode.inode_number) {
            Some(Node::Symlink(target)) => Ok(target.clone()),
            _ => Err(FileSystemError::NotASymlink),
        }
    }

    fn set_permissions(&mut self, _inode: &Inode, _permissions: Permissions) -> Result<(), FileSystemError> {
        Ok(())
    }

    fn set_timestamps(&mut self, _inode: &Inode, _timestamps: Timestamps) -> Result<(), FileSystemError> {
        Ok(())
    }

    fn unmount(&mut self) -> Result<(), FileSystemError> {
        let mut disk = self.disk.lock().unwrap();
        disk.log.push("unmount".to_string());
        match disk.broken {
            Some(e) => Err(e),
            None => Ok(()),
        }
    }
}

struct RamDriver {
    disk: Arc<Mutex<Disk>>,
}

impl FileSystemDriver for RamDriver {
    fn name(&self) -> &'static str {
        "ram"
    }

    fn mount(&self, device: Device) -> Result<Instance, FileSystemError> {
        if device.blocks.block_count() == 0 {
            return Err(FileSystemError::InvalidFormat);
        }
        Ok(Instance { filesystem: Box::new(RamFs { disk: self.disk.clone() }) })
    }
}

struct Blocks {
    count: u64,
}

impl BlockDevice for Blocks {
    fn block_size(&self) -> u32 {
        512
    }

    fn block_count(&self) -> u64 {
        self.count
    }

    fn read_block(&self, _block_number: u64, _buffer: &mut [u8]) -> Result<(), FileSystemError> {
        Err(FileSystemError::DiskReadError)
    }

    fn write_block(&self, _block_number: u64, _buffer: &[u8]) -> Result<(), FileSystemError> {
        Err(FileSystemError::DiskWriteError)
    }
}

fn device(count: u64) -> Device {
    Device { blocks: Arc::new(Blocks { count }) }
}

fn on(disk: &Arc<Mutex<Disk>>) -> VirtualFileSystem {
    let root = disk.lock().unwrap().inode(1).unwrap();
    let instance = Instance { filesystem: Box::new(RamFs { disk: disk.clone() }) };
    VirtualFileSystem::new(root, instance)
}

fn fresh() -> (VirtualFileSystem, Arc<Mutex<Disk>>) {
    let disk = Arc::new(Mutex::new(Disk::new()));
    (on(&disk), disk)
}

fn all() -> Permissions {
    Permissions::all_permissive()
}

#[test]
fn created_file_is_found() {
    let (mut vfs, _) = fresh();
    let id = vfs.create_file("/notes", all(), None, 500).unwrap();
    assert_eq!(vfs.resolve("/notes", None, true), Ok(id));
    assert_eq!(vfs.resolve("notes", None, true), Ok(id));
    let stat = vfs.stat("/notes", None, true).unwrap();
    assert_eq!(stat.inode_type, InodeType::File);
    assert_eq!(stat.timestamps.created, 500);
    assert_eq!(stat.size, 0);
}

#[test]
fn a_name_is_taken_once() {
    let (mut vfs, _) = fresh();
    vfs.create_file("/a", all(), None, 0).unwrap();
    assert_eq!(vfs.create_file("/a", all(), None, 0), Err(FileSystemError::AlreadyExists));
    assert_eq!(vfs.create_directory("/a", all(), None, 0), Err(FileSystemError::AlreadyExists));
    assert_eq!(vfs.create_symlink("/a", "/", None, 0), Err(FileSystemError::AlreadyExists));
}

#[test]
fn paths_that_name_nothing_are_refused() {
    let (mut vfs, _) = fresh();
    assert_eq!(vfs.create_file("/a/", all(), None, 0), Err(FileSystemError::InvalidPath));
    assert_eq!(vfs.create_file("", all(), None, 0), Err(FileSystemError::InvalidPath));
    assert_eq!(vfs.resolve("", None, true), Err(FileSystemError::InvalidPath));
    assert_eq!(vfs.resolve("/missing", None, true), Err(FileSystemError::NotFound));
    vfs.create_file("/f", all(), None, 0).unwrap();
    assert_eq!(vfs.resolve("/f/g", None, true), Err(FileSystemError::NotADirectory));
    assert_eq!(vfs.create_file("/no/f", all(), None, 0), Err(FileSystemError::NotFound));
}

#[test]
fn directories_nest_and_dots_resolve() {
    let (mut vfs, disk) = fresh();
    let a = vfs.create_directory("/a", all(), None, 0).unwrap();
    let b = vfs.create_directory("/a/b", all(), None, 0).unwrap();
    let f = vfs.create_file("/a/b/f", all(), None, 0).unwrap();
    assert_eq!(vfs.resolve("/a/b/../b/./f", None, true), Ok(f));
    assert_eq!(vfs.resolve("/a/b/..", None, true), Ok(a));
    assert_eq!(vfs.resolve("//a///b", None, true), Ok(b));
    assert_eq!(vfs.resolve("/../..", None, true), vfs.resolve("/", None, true));
    let loads = disk.lock().unwrap().log.iter().filter(|l| l.starts_with("load")).count();
    assert_eq!(loads, 0);
    let wd = vfs.resolve_dir_with_budget("/a", None, 40).unwrap();
    assert_eq!(vfs.resolve("b/f", Some(wd), true), Ok(f));
    assert_eq!(vfs.resolve("/a/b/f", Some(wd), true), Ok(f));
}

#[test]
fn links_are_followed_up_to_the_budget() {
    let (mut vfs, _) = fresh();
    vfs.create_directory("/d", all(), None, 0).unwrap();
    let f = vfs.create_file("/d/f", all(), None, 0).unwrap();
    let link = vfs.create_symlink("/l", "d", None, 0).unwrap();
    assert_eq!(vfs.resolve("/l/f", None, true), Ok(f));
    assert_eq!(vfs.resolve("/l", None, false), Ok(link));
    assert_eq!(vfs.resolve("/l", None, true), vfs.resolve("/d", None, true));
    vfs.create_symlink("/loop", "/loop", None, 0).unwrap();
    assert_eq!(vfs.resolve("/loop", None, true), Err(FileSystemError::TooManySymlinks));
    assert_eq!(vfs.resolve_with_budget("/l/f", None, true, 0), Err(FileSystemError::TooManySymlinks));
    assert_eq!(vfs.resolve_with_budget("/l/f", None, true, 1), Ok(f));
}

#[test]
fn what_was_written_is_read() {
    let (mut vfs, _) = fresh();
    vfs.create_file("/f", all(), None, 1).unwrap();
    let mut handle = vfs.open("/f", AccessMode::ReadWrite, None).unwrap();
    vfs.files[handle.file].register_handle(&handle);
    assert_eq!(vfs.write(&mut handle, 1, b"hello", 20), Ok(5));
    assert_eq!(handle.position, 5);
    let stat = vfs.stat("/f", None, true).unwrap();
    assert_eq!(stat.size, 5);
    assert_eq!(stat.timestamps.modified, 20);
    vfs.seek(&mut handle, 1);
    let mut buffer = [0u8; 8];
    assert_eq!(vfs.read(&mut handle, &mut buffer, 30), Ok(4));
    assert_eq!(&buffer[..4], b"ello");
    assert_eq!(handle.position, 5);
    assert_eq!(vfs.stat("/f", None, true).unwrap().timestamps.accessed, 30);
    assert_eq!(vfs.close(handle, 1), Ok(()));
}

#[test]
fn modes_and_locks_are_kept() {
    let (mut vfs, _) = fresh();
    vfs.create_file("/f", all(), None, 1).unwrap();
    vfs.create_directory("/d", all(), None, 1).unwrap();
    assert!(matches!(vfs.open("/d", AccessMode::ReadOnly, None), Err(FileSystemError::NotAFile)));
    let mut reader = vfs.open("/f", AccessMode::ReadOnly, None).unwrap();
    let mut writer = vfs.open("/f", AccessMode::WriteOnly, None).unwrap();
    assert_eq!(reader.file, writer.file);
    assert_ne!(reader.id, writer.id);
    vfs.files[reader.file].register_handle(&reader);
    vfs.files[writer.file].register_handle(&writer);
    let mut buffer = [0u8; 4];
    assert_eq!(vfs.write(&mut reader, 1, b"x", 0), Err(FileSystemError::InvalidAccessMode));
    assert_eq!(vfs.read(&mut writer, &mut buffer, 0), Err(FileSystemError::InvalidAccessMode));
    let file = writer.file;
    assert_eq!(vfs.files[file].acquire_write_lock(1), Ok(()));
    assert_eq!(vfs.files[file].acquire_write_lock(2), Err(FileSystemError::LockContention));
    assert_eq!(vfs.write(&mut writer, 2, b"x", 0), Err(FileSystemError::FileLocked));
    assert_eq!(vfs.write(&mut writer, 1, b"x", 0), Ok(1));
    assert_eq!(vfs.files[file].release_write_lock(2), Err(FileSystemError::InvalidHandle));
    assert_eq!(vfs.close(reader, 1), Ok(()));
    assert!(!vfs.files[file].is_lock_holder(1));
    assert_eq!(vfs.write(&mut writer, 2, b"x", 0), Ok(1));
    assert_eq!(vfs.close(writer, 2), Ok(()));
    assert!(vfs.open_files.is_empty());
}

#[test]
fn deleted_file_lives_until_it_is_closed() {
    let (mut vfs, disk) = fresh();
    vfs.create_file("/f", all(), None, 1).unwrap();
    let mut handle = vfs.open("/f", AccessMode::ReadWrite, None).unwrap();
    vfs.files[handle.file].register_handle(&handle);
    assert_eq!(vfs.delete("/f", None), Ok(()));
    assert_eq!(vfs.resolve("/f", None, true), Err(FileSystemError::NotFound));
    assert_eq!(vfs.write(&mut handle, 1, b"late", 9), Ok(4));
    assert!(!disk.lock().unwrap().log.iter().any(|l| l.starts_with("free")));
    assert_eq!(vfs.close(handle, 1), Ok(()));
    assert_eq!(disk.lock().unwrap().log.iter().filter(|l| l.starts_with("free")).count(), 1);
    assert_eq!(disk.lock().unwrap().nodes.len(), 1);
}

#[test]
fn closed_file_is_freed_at_once() {
    let (mut vfs, disk) = fresh();
    vfs.create_directory("/d", all(), None, 1).unwrap();
    vfs.create_file("/d/f", all(), None, 1).unwrap();
    assert_eq!(vfs.delete("/d", None), Err(FileSystemError::DirectoryNotEmpty));
    assert_eq!(vfs.delete("/d/f", None), Ok(()));
    assert_eq!(vfs.delete("/d/f", None), Err(FileSystemError::NotFound));
    assert_eq!(vfs.delete("/d", None), Ok(()));
    assert_eq!(disk.lock().unwrap().nodes.len(), 1);
}

#[test]
fn a_link_is_deleted_and_not_its_target() {
    let (mut vfs, _) = fresh();
    let f = vfs.create_file("/f", all(), None, 1).unwrap();
    vfs.create_symlink("/l", "/f", None, 1).unwrap();
    assert_eq!(vfs.delete("/l", None), Ok(()));
    assert_eq!(vfs.resolve("/f", None, true), Ok(f));
    assert_eq!(vfs.resolve("/l", None, false), Err(FileSystemError::NotFound));
}

#[test]
fn renamed_file_is_found_under_its_new_name() {
    let (mut vfs, _) = fresh();
    vfs.create_directory("/a", all(), None, 1).unwrap();
    vfs.create_directory("/b", all(), None, 1).unwrap();
    let f = vfs.create_file("/a/f", all(), None, 1).unwrap();
    assert_eq!(vfs.rename("/a/f", "/b/g", None), Ok(()));
    assert_eq!(vfs.resolve("/b/g", None, true), Ok(f));
    assert_eq!(vfs.resolve("/a/f", None, true), Err(FileSystemError::NotFound));
    assert_eq!(vfs.rename("/a/f", "/b/h", None), Err(FileSystemError::NotFound));
}

#[test]
fn renamed_directory_has_its_new_parent() {
    let (mut vfs, _) = fresh();
    vfs.create_directory("/a", all(), None, 1).unwrap();
    let b = vfs.create_directory("/b", all(), None, 1).unwrap();
    vfs.create_directory("/a/c", all(), None, 1).unwrap();
    vfs.create_file("/a/c/f", all(), None, 1).unwrap();
    assert_eq!(vfs.rename("/a/c", "/b/d", None), Ok(()));
    assert_eq!(vfs.resolve("/b/d/..", None, true), Ok(b));
    assert!(vfs.resolve("/b/d/f", None, true).is_ok());
}

fn calls(disk: &Arc<Mutex<Disk>>, word: &str) -> usize {
    disk.lock().unwrap().log.iter().filter(|l| l.starts_with(word)).count()
}

#[test]
fn a_file_is_renamed_from_a_directory_that_was_never_listed() {
    let (mut vfs, disk) = fresh();
    {
        let mut disk = disk.lock().unwrap();
        let a = disk.add(1, "a", Node::Directory(Vec::new()));
        disk.add(1, "b", Node::Directory(Vec::new()));
        disk.add(a, "f", Node::File(b"abc".to_vec()));
    }
    assert_eq!(vfs.rename("/a/none", "/b/g", None), Err(FileSystemError::NotFound));
    assert_eq!(calls(&disk, "rename"), 0);
    let mut vfs = on(&disk);
    assert_eq!(vfs.rename("/a/f", "/b/g", None), Ok(()));
    assert_eq!(calls(&disk, "rename"), 1);
    assert_eq!(vfs.stat("/b/g", None, true).unwrap().size, 3);
    assert_eq!(vfs.resolve("/a/f", None, true), Err(FileSystemError::NotFound));
    assert_eq!(vfs.rename("/a/f", "/b/h", None), Err(FileSystemError::NotFound));
    assert_eq!(calls(&disk, "rename"), 1);
}

#[test]
fn a_taken_name_is_not_renamed_to() {
    let (mut vfs, disk) = fresh();
    let f = vfs.create_file("/f", all(), None, 1).unwrap();
    let g = vfs.create_file("/g", all(), None, 1).unwrap();
    assert_eq!(vfs.rename("/f", "/g", None), Err(FileSystemError::AlreadyExists));
    assert_eq!(vfs.rename("/f", "/f", None), Err(FileSystemError::AlreadyExists));
    assert_eq!(vfs.rename("/f", "/no/f", None), Err(FileSystemError::NotFound));
    assert_eq!(vfs.rename("/f", "/", None), Err(FileSystemError::InvalidPath));
    assert_eq!(calls(&disk, "rename"), 0);
    assert_eq!((vfs.resolve("/f", None, true), vfs.resolve("/g", None, true)), (Ok(f), Ok(g)));
}

#[test]
fn dots_are_no_entries_to_move_or_delete() {
    let (mut vfs, disk) = fresh();
    let a = vfs.create_directory("/a", all(), None, 1).unwrap();
    assert_eq!(vfs.rename("/a/.", "/b", None), Err(FileSystemError::InternalError));
    assert_eq!(calls(&disk, "rename"), 1);
    assert_eq!(vfs.resolve("/a", None, true), Ok(a));
    assert_eq!(vfs.resolve("/b", None, true), Err(FileSystemError::NotFound));
    assert_eq!(vfs.rename("/a/..", "/a/top", None), Err(FileSystemError::InternalError));
    assert_eq!(vfs.resolve("/a/top", None, true), Err(FileSystemError::NotFound));
    assert_eq!(vfs.resolve("/a/..", None, true), vfs.resolve("/", None, true));
    assert_eq!(vfs.rename("/none/.", "/c", None), Err(FileSystemError::NotFound));
    assert_eq!(vfs.delete("/a/.", None), Err(FileSystemError::InternalError));
    assert_eq!(calls(&disk, "unlink"), 1);
    assert_eq!(calls(&disk, "free"), 0);
    assert_eq!(vfs.resolve("/a", None, true), Ok(a));
    assert_eq!(vfs.stat("/a", None, true).unwrap().link_count, 1);
}

#[test]
fn a_link_without_a_target_leads_nowhere() {
    let (mut vfs, disk) = fresh();
    disk.lock().unwrap().add(1, "l", Node::Symlink(String::new()));
    disk.lock().unwrap().add(1, "f", Node::File(Vec::new()));
    assert_eq!(vfs.resolve("/l", None, true), Err(FileSystemError::InvalidPath));
    assert_eq!(vfs.resolve("/l/f", None, true), Err(FileSystemError::InvalidPath));
    assert!(vfs.resolve("/l", None, false).is_ok());
}

#[test]
fn a_longer_path_is_mounted_and_unmounted() {
    let (mut vfs, _) = fresh();
    let other = Arc::new(Mutex::new(Disk::new()));
    vfs.register_driver(Box::new(RamDriver { disk: other.clone() }));
    vfs.create_directory("/a", all(), None, 1).unwrap();
    let host = vfs.create_directory("/a/mnt", all(), None, 1).unwrap();
    vfs.create_symlink("/l", "a", None, 1).unwrap();
    for path in ["/a/mnt", "/l/mnt", "/a/../a/./mnt/."] {
        assert_eq!(vfs.mount("ram", device(8), path, None), Ok(()));
        assert_ne!(vfs.resolve("/a/mnt", None, true), Ok(host));
        assert_eq!(vfs.unmount(path, None), Ok(()));
        assert!(vfs.mounts.is_empty() && vfs.mounted_root_index.is_empty());
        assert_eq!(vfs.resolve("/a/mnt", None, true), Ok(host));
        assert_eq!(vfs.unmount(path, None), Err(FileSystemError::NotMounted));
    }
    assert_eq!(calls(&other, "unmount"), 3);
    assert_eq!(vfs.mount("ram", device(8), "/a/mnt/../mnt", None), Ok(()));
    assert_eq!(vfs.unmount("/a/mnt/../mnt", None), Err(FileSystemError::NotFound));
}

#[test]
fn two_names_share_one_record() {
    let (mut vfs, disk) = fresh();
    {
        let mut disk = disk.lock().unwrap();
        let number = disk.add(1, "one", Node::File(b"abc".to_vec()));
        disk.entries(1).push(("two".to_string(), number));
    }
    let one = vfs.resolve("/one", None, true).unwrap();
    assert_eq!(vfs.resolve("/two", None, true), Ok(one));
    assert_eq!(calls(&disk, "load"), 1);
    assert_eq!(vfs.stat("/two", None, true).unwrap().link_count, 2);
    assert_eq!(vfs.delete("/one", None), Ok(()));
    assert_eq!(calls(&disk, "free"), 0);
    assert_eq!(vfs.stat("/two", None, true).unwrap().link_count, 1);
    assert_eq!(vfs.delete("/two", None), Ok(()));
    assert_eq!(calls(&disk, "free"), 1);
}

#[test]
fn a_file_open_under_one_name_outlives_the_other() {
    let (mut vfs, disk) = fresh();
    {
        let mut disk = disk.lock().unwrap();
        let number = disk.add(1, "one", Node::File(b"abc".to_vec()));
        disk.entries(1).push(("two".to_string(), number));
    }
    let handle = vfs.open("/one", AccessMode::ReadOnly, None).unwrap();
    vfs.files[handle.file].register_handle(&handle);
    let other = vfs.open("/two", AccessMode::ReadOnly, None).unwrap();
    assert_eq!(other.file, handle.file);
    assert_eq!(vfs.delete("/one", None), Ok(()));
    assert_eq!(vfs.delete("/two", None), Ok(()));
    assert_eq!(calls(&disk, "free"), 0);
    assert_eq!(vfs.close(handle, 1), Ok(()));
    assert_eq!(calls(&disk, "free"), 1);
}

#[test]
fn stat_follows_links_on_request() {
    let (mut vfs, _) = fresh();
    vfs.create_file("/f", all(), None, 1).unwrap();
    vfs.create_symlink("/l", "f", None, 1).unwrap();
    vfs.create_symlink("/m", "l", None, 1).unwrap();
    vfs.create_symlink("/ping", "pong", None, 1).unwrap();
    vfs.create_symlink("/pong", "ping", None, 1).unwrap();
    vfs.create_symlink("/self", "self", None, 1).unwrap();
    assert_eq!(vfs.stat("/m", None, true).unwrap().inode_type, InodeType::File);
    assert_eq!(vfs.stat("/m", None, false).unwrap().inode_type, InodeType::Symlink);
    assert_eq!(vfs.stat("/ping", None, true).err(), Some(FileSystemError::TooManySymlinks));
    assert_eq!(vfs.stat("/self", None, true).err(), Some(FileSystemError::TooManySymlinks));
    assert_eq!(vfs.stat("/self", None, false).unwrap().inode_type, InodeType::Symlink);
}

#[test]
fn mounted_volume_is_entered_and_left() {
    let (mut vfs, _) = fresh();
    let other = Arc::new(Mutex::new(Disk::new()));
    other.lock().unwrap().add(1, "inner", Node::File(b"data".to_vec()));
    vfs.register_driver(Box::new(RamDriver { disk: other.clone() }));
    let host = vfs.create_directory("/mnt", all(), None, 1).unwrap();
    assert_eq!(vfs.mount("none", device(1), "/mnt", None), Err(FileSystemError::UnknownDriver));
    assert_eq!(vfs.mount("ram", device(0), "/mnt", None), Err(FileSystemError::InvalidFormat));
    assert_eq!(vfs.mount("ram", device(8), "/mnt", None), Ok(()));
    assert_eq!(vfs.mount("ram", device(8), "/mnt", None), Err(FileSystemError::AlreadyMounted));
    assert_ne!(vfs.resolve("/mnt", None, true), Ok(host));
    assert_eq!(vfs.stat("/mnt/inner", None, true).unwrap().size, 4);
    assert_eq!(vfs.resolve("/mnt/..", None, true), Ok(host));
    assert_eq!(vfs.unmount("/mnt", None), Ok(()));
    assert_eq!(vfs.resolve("/mnt", None, true), Ok(host));
    assert_eq!(vfs.resolve("/mnt/inner", None, true), Err(FileSystemError::NotFound));
    assert!(vfs.mounts.is_empty() && vfs.mounted_root_index.is_empty());
    assert_eq!(vfs.unmount("/mnt", None), Err(FileSystemError::NotMounted));
    assert_eq!(other.lock().unwrap().log.last().unwrap(), "unmount");
    assert_eq!(calls(&other, "unmount"), 1);
}

#[test]
fn names_do_not_cross_volumes() {
    let (mut vfs, _) = fresh();
    let other = Arc::new(Mutex::new(Disk::new()));
    vfs.register_driver(Box::new(RamDriver { disk: other.clone() }));
    vfs.create_directory("/mnt", all(), None, 1).unwrap();
    vfs.create_file("/f", all(), None, 1).unwrap();
    vfs.mount("ram", device(8), "/mnt", None).unwrap();
    assert_eq!(vfs.rename("/f", "/mnt/f", None), Err(FileSystemError::InvalidPath));
    let inner = vfs.create_file("/mnt/f", all(), None, 1).unwrap();
    assert_eq!(vfs.resolve("/mnt/f", None, true), Ok(inner));
    let a = vfs.open("/f", AccessMode::ReadOnly, None).unwrap();
    let b = vfs.open("/mnt/f", AccessMode::ReadOnly, None).unwrap();
    assert_ne!(a.file, b.file);
}

#[test]
fn errors_of_a_driver_are_passed_on() {
    let (mut vfs, disk) = fresh();
    disk.lock().unwrap().broken = Some(FileSystemError::CorruptStructure);
    assert_eq!(vfs.resolve("/x", None, true), Err(FileSystemError::CorruptStructure));
    disk.lock().unwrap().broken = None;
    assert_eq!(vfs.resolve("/x", None, true), Err(FileSystemError::NotFound));
}

#[test]
fn entries_of_a_volume_are_loaded_once() {
    let (mut vfs, disk) = fresh();
    disk.lock().unwrap().add(1, "old", Node::File(b"abc".to_vec()));
    let id = vfs.resolve("/old", None, true).unwrap();
    assert_eq!(vfs.resolve("/old", None, true), Ok(id));
    let log = disk.lock().unwrap().log.clone();
    assert_eq!(log, vec!["list 1".to_string(), "load 2".to_string()]);
}

#[test]
fn inodes_tell_what_they_are() {
    let mut inode =
        Inode::new(5, 0, InodeType::Symlink, 9, all(), Timestamps::new(77), 2);
    assert!(inode.is_symlink() && !inode.is_file() && !inode.is_directory());
    assert!(!inode.is_dirty() && !inode.is_pending_deletion() && !inode.is_mount_point());
    let stat = inode.stat();
    assert_eq!((stat.inode_number, stat.size, stat.link_count), (5, 9, 2));
    assert_eq!(stat.timestamps, Timestamps { created: 77, modified: 77, accessed: 77 });
    inode.dirty = true;
    inode.pending_deletion = true;
    assert!(inode.is_dirty() && inode.is_pending_deletion());
}

#[test]
fn entries_load_their_inode() {
    let disk = Arc::new(Mutex::new(Disk::new()));
    let number = disk.lock().unwrap().add(1, "f", Node::File(vec![1, 2, 3]));
    let mut driver: Box<dyn FileSystemInstance> = Box::new(RamFs { disk: disk.clone() });
    let mut inodes = Vec::new();
    let mut entry = DirectoryEntry::new("f".to_string(), number, DirectoryEntryType::File);
    assert!(!entry.is_loaded());
    assert_eq!(entry.load_inode(&mut inodes, 4, &mut driver), Ok(0));
    assert!(entry.is_loaded());
    assert_eq!(entry.load_inode(&mut inodes, 4, &mut driver), Ok(0));
    assert_eq!((inodes.len(), inodes[0].size, inodes[0].filesystem), (1, 3, 4));
    assert_eq!(disk.lock().unwrap().log, vec!["load 2".to_string()]);
    let mut missing = DirectoryEntry::new("g".to_string(), 99, DirectoryEntryType::File);
    assert_eq!(missing.load_inode(&mut inodes, 4, &mut driver), Err(FileSystemError::NotFound));
    assert!(!missing.is_loaded());
    assert!(DirectoryEntry::with_inode("h".to_string(), 3, DirectoryEntryType::File, 0).is_loaded());
}

#[test]
fn directories_keep_their_entries() {
    let disk = Arc::new(Mutex::new(Disk::new()));
    disk.lock().unwrap().add(1, "a", Node::File(Vec::new()));
    let inode = disk.lock().unwrap().inode(1).unwrap();
    let mut driver: Box<dyn FileSystemInstance> = Box::new(RamFs { disk: disk.clone() });
    let root = Directory::new_root(0);
    assert!(root.is_root() && !root.is_mount_point(&inode));
    assert_eq!(root.parent(), Err(FileSystemError::InternalError));
    let mut d = Directory::new(0, 7);
    assert!(!d.is_root());
    assert_eq!(d.parent(), Ok(7));
    let entry = DirectoryEntry::new("b".to_string(), 9, DirectoryEntryType::File);
    assert!(d.add_child(&inode, &mut driver, entry).is_ok());
    assert_eq!(d.children.as_ref().unwrap().len(), 2);
    assert!(d.lookup_child(&inode, &mut driver, "a").unwrap().is_some());
    assert!(d.lookup_child(&inode, &mut driver, "b").unwrap().is_some());
    assert!(d.lookup_child(&inode, &mut driver, "c").unwrap().is_none());
    assert_eq!(d.remove_child(&inode, &mut driver, "a"), Ok(true));
    assert_eq!(d.remove_child(&inode, &mut driver, "a"), Ok(false));
    assert!(d.lookup_child(&inode, &mut driver, "a").unwrap().is_none());
    assert_eq!(disk.lock().unwrap().log, vec!["list 1".to_string()]);
}

#[test]
fn records_count_their_handles() {
    let mut file = File::new(3);
    let first = FileHandle::new(0, 1, AccessMode::ReadOnly);
    let mut second = FileHandle::new(0, 2, AccessMode::ReadWrite);
    file.register_handle(&first);
    file.register_handle(&second);
    assert_eq!(file.count_handles(), 2);
    file.drop_handle(1);
    assert_eq!(file.count_handles(), 1);
    assert_eq!(file.prune_and_count_handles(), 1);
    assert_eq!(file.count_handles(), 1);
    assert!(first.can_read() && !first.can_write() && second.can_write());
    second.seek_to(u64::MAX - 1);
    second.advance_position(1);
    assert_eq!(second.position, u64::MAX);
    assert_eq!(file.acquire_write_lock(8), Ok(()));
    assert!(file.is_write_blocked(9) && !file.is_write_blocked(8));
    assert_eq!(file.release_write_lock(8), Ok(()));
    assert!(!file.is_write_blocked(9));
    assert_eq!(file.release_write_lock(8), Err(FileSystemError::InvalidHandle));
}

#[test]
fn mount_points_know_their_directories() {
    let (mut vfs, _) = fresh();
    let other = Arc::new(Mutex::new(Disk::new()));
    vfs.register_driver(Box::new(RamDriver { disk: other }));
    vfs.create_directory("/mnt", all(), None, 1).unwrap();
    vfs.mount("ram", device(8), "/mnt", None).unwrap();
    assert_eq!((vfs.mounts.len(), vfs.mounted_root_index.len()), (1, 1));
    let (host, point) = vfs.mounts.iter()[0];
    assert_eq!(point.host_directory as u64, *host);
    assert_eq!(point.filesystem_id, 1);
    assert_eq!(point.host_inode_number(&vfs.namespace), 2);
    assert_eq!(point.mounted_root_inode_number(&vfs.namespace), 1);
    assert_eq!(vfs.delete("/mnt", None), Err(FileSystemError::AlreadyMounted));
}

#[test]
fn a_link_needs_a_target() {
    let (mut vfs, _) = fresh();
    assert_eq!(vfs.create_symlink("/l", "", None, 0), Err(FileSystemError::InvalidPath));
}

#[test]
fn a_volume_in_use_stays_mounted() {
    let (mut vfs, _) = fresh();
    let other = Arc::new(Mutex::new(Disk::new()));
    other.lock().unwrap().add(1, "f", Node::File(Vec::new()));
    vfs.register_driver(Box::new(RamDriver { disk: other.clone() }));
    vfs.create_directory("/mnt", all(), None, 1).unwrap();
    vfs.mount("ram", device(8), "/mnt", None).unwrap();
    let handle = vfs.open("/mnt/f", AccessMode::ReadOnly, None).unwrap();
    vfs.files[handle.file].register_handle(&handle);
    assert_eq!(vfs.unmount("/mnt", None), Err(FileSystemError::FileLocked));
    vfs.close(handle, 1).unwrap();
    other.lock().unwrap().broken = Some(FileSystemError::DiskWriteError);
    assert_eq!(vfs.unmount("/mnt", None), Err(FileSystemError::DiskWriteError));
    assert_eq!(vfs.unmount("/mnt", None), Err(FileSystemError::NotMounted));
}

#[test]
fn a_volume_needs_a_root_directory() {
    let (mut vfs, _) = fresh();
    let other = Arc::new(Mutex::new(Disk::default()));
    vfs.register_driver(Box::new(RamDriver { disk: other.clone() }));
    vfs.create_directory("/mnt", all(), None, 1).unwrap();
    vfs.create_file("/f", all(), None, 1).unwrap();
    assert_eq!(vfs.mount("ram", device(8), "/mnt", None), Err(FileSystemError::NotFound));
    other.lock().unwrap().nodes.insert(1, Node::File(Vec::new()));
    assert_eq!(vfs.mount("ram", device(8), "/mnt", None), Err(FileSystemError::NotADirectory));
    assert_eq!(vfs.mount("ram", device(8), "/f", None), Err(FileSystemError::NotADirectory));
    assert_eq!(vfs.next_filesystem_id, 3);
}

//! Mounting and unmounting volumes.

use vstd::prelude::*;

use super::directory::{Directory, DirectoryId, DirectoryModel};
use super::driver::{Device, DriverCall, Instance};
use super::file::FileId;
use super::inode::{Inode, InodeId, VolumeId};
use super::mount::MountPoint;
use super::namespace::{
    asked_for_missing, dir_grew, grew, lemma_call_shows, was_missing, NamespaceModel, Volume,
};
use super::resolver::MAX_SYMLINK_DEPTH;
use super::types::{FileSystemError, OpenFileKey};
use super::vfs::{key_of, resolves_dir, wd_wf, VirtualFileSystem};

verus! {

/// The number of every volume's root inode.
pub const ROOT_INODE_NUMBER: u64 = 1;

/// The namespace with a volume mounted on directory `h`.
pub open spec fn with_mount(
    n: NamespaceModel,
    h: DirectoryId,
    id: u64,
    history: Seq<DriverCall>,
    root: Inode,
) -> NamespaceModel {
    let host_inode = n.directories[h as int].inode;
    NamespaceModel {
        inodes: n.inodes.update(
            host_inode as int,
            Inode { mount_flag: true, ..n.inodes[host_inode as int] },
        ).push(root.adopted(n.histories.len() as VolumeId)),
        directories: n.directories.update(
            h as int,
            DirectoryModel {
                mount_root: Some(n.directories.len() as DirectoryId),
                ..n.directories[h as int]
            },
        ).push(
            DirectoryModel {
                inode: n.inodes.len() as InodeId,
                children: None,
                parent: Some(h),
                mount_root: None,
            },
        ),
        histories: n.histories.push(history),
        ids: n.ids.push(id),
        root: n.root,
    }
}

/// The namespace without the volume that is mounted on directory `h`.
pub open spec fn without_mount(n: NamespaceModel, h: DirectoryId) -> NamespaceModel {
    let host_inode = n.directories[h as int].inode;
    NamespaceModel {
        inodes: n.inodes.update(
            host_inode as int,
            Inode { mount_flag: false, ..n.inodes[host_inode as int] },
        ),
        directories: n.directories.update(
            h as int,
            DirectoryModel { mount_root: None, ..n.directories[h as int] },
        ),
        ..n
    }
}

/// The tables other than the mount table are as they were.
pub open spec fn same_but_mounts(after: &VirtualFileSystem, before: &VirtualFileSystem) -> bool {
    &&& after.drivers == before.drivers
    &&& after.files == before.files
    &&& after.open_files == before.open_files
    &&& after.next_handle_id == before.next_handle_id
}

/// A volume was mounted on directory `h` of namespace `n`.
pub open spec fn mounted(
    before: &VirtualFileSystem,
    after: &VirtualFileSystem,
    n: NamespaceModel,
    h: DirectoryId,
    history: Seq<DriverCall>,
    root: Inode,
) -> bool {
    let m = n.directories.len();
    &&& after.namespace@ == with_mount(n, h, before.next_filesystem_id, history, root)
    &&& after.mounts@ == before.mounts@.insert(
        h as u64,
        MountPoint {
            filesystem_id: before.next_filesystem_id,
            host_directory: h,
            mounted_root: m as DirectoryId,
            instance: n.histories.len() as VolumeId,
        },
    )
    &&& after.mounted_root_index@ == before.mounted_root_index@.insert(m as u64, h as u64)
    &&& before.mounts.made_room(&after.mounts, before.mounts@.contains_key(h as u64))
    &&& before.mounted_root_index.made_room(
        &after.mounted_root_index,
        before.mounted_root_index@.contains_key(m as u64),
    )
}

/// What mounting a device on directory `h` of namespace `n` comes to. A volume
/// is given an identifier as soon as the driver accepts the device, and is
/// dropped if its root cannot be had.
pub open spec fn mounts_on(
    before: &VirtualFileSystem,
    after: &VirtualFileSystem,
    n: NamespaceModel,
    h: DirectoryId,
    driver_name: Seq<char>,
    device: Device,
    r: Result<(), FileSystemError>,
) -> bool {
    if n.inode_of(h).mount_flag {
        &&& r == Err::<(), FileSystemError>(FileSystemError::AlreadyMounted)
        &&& after.namespace@ == n
        &&& after.same_tables(before)
    } else if !before.drivers@.contains_key(driver_name) {
        &&& r == Err::<(), FileSystemError>(FileSystemError::UnknownDriver)
        &&& after.namespace@ == n
        &&& after.same_tables(before)
    } else {
        exists|reply: Result<Instance, FileSystemError>|
            #[trigger] before.drivers@[driver_name].mounts_as(device, reply) && match reply {
                Err(e) => {
                    &&& r == Err::<(), FileSystemError>(e)
                    &&& after.namespace@ == n
                    &&& after.same_tables(before)
                },
                Ok(instance) => roots(before, after, n, h, instance, r),
            }
    }
}

/// The driver has accepted the device; its root is asked for.
pub open spec fn roots(
    before: &VirtualFileSystem,
    after: &VirtualFileSystem,
    n: NamespaceModel,
    h: DirectoryId,
    instance: Instance,
    r: Result<(), FileSystemError>,
) -> bool {
    &&& same_but_mounts(after, before)
    &&& after.next_filesystem_id == before.next_filesystem_id + 1
    &&& exists|used: Instance, root: Result<Inode, FileSystemError>| {
        &&& #[trigger] asked_for_root(instance, used, root)
        &&& match root {
            Ok(inode) if inode.inode_type is Directory => {
                &&& r == Ok::<(), FileSystemError>(())
                &&& mounted(before, after, n, h, used.filesystem.history(), inode)
            },
            _ => {
                &&& r == Err::<(), FileSystemError>(
                    match root {
                        Ok(_) => FileSystemError::NotADirectory,
                        Err(e) => e,
                    },
                )
                &&& after.namespace@ == n
                &&& after.mounts == before.mounts
                &&& after.mounted_root_index == before.mounted_root_index
            },
        }
    }
}

/// The instance, once used, was asked for its root inode.
pub open spec fn asked_for_root(
    instance: Instance,
    used: Instance,
    root: Result<Inode, FileSystemError>,
) -> bool {
    used.filesystem.history() == instance.filesystem.history().push(
        DriverCall::LoadInode { inode_number: ROOT_INODE_NUMBER, reply: root },
    )
}

/// A file of the volume with this identifier is open.
pub open spec fn volume_is_open(open: Map<OpenFileKey, FileId>, filesystem_id: u64) -> bool {
    exists|key: OpenFileKey| #[trigger]
        open.contains_key(key) && key.filesystem_id == filesystem_id
}

/// What unmounting the volume on directory `h` of namespace `n` comes to.
pub open spec fn unmounts_from(
    before: &VirtualFileSystem,
    after: &VirtualFileSystem,
    n: NamespaceModel,
    h: DirectoryId,
    r: Result<(), FileSystemError>,
) -> bool {
    if !n.inode_of(h).mount_flag {
        &&& r == Err::<(), FileSystemError>(FileSystemError::NotMounted)
        &&& after.namespace@ == n
        &&& after.same_tables(before)
    } else {
        let root = n.directories[h as int].mount_root->0;
        let volume = n.volume_of(root);
        if volume_is_open(before.open_files@, n.ids[volume as int]) {
            &&& r == Err::<(), FileSystemError>(FileSystemError::FileLocked)
            &&& after.namespace@ == n
            &&& after.same_tables(before)
        } else {
            &&& after.namespace@ == without_mount(n, h).with_call(
                volume,
                DriverCall::Unmount { reply: r },
            )
            &&& after.mounts@ == before.mounts@.remove(h as u64)
            &&& after.mounted_root_index@ == before.mounted_root_index@.remove(root as u64)
            &&& before.mounts.same_room(&after.mounts)
            &&& before.mounted_root_index.same_room(&after.mounted_root_index)
            &&& same_but_mounts(after, before)
            &&& after.next_filesystem_id == before.next_filesystem_id
        }
    }
}

/// The root of a new volume is not listed anywhere.
proof fn lemma_tree_with_mount(
    n: NamespaceModel,
    h: DirectoryId,
    id: u64,
    history: Seq<DriverCall>,
    root: Inode,
)
    requires
        n.wf(),
        n.is_dir(h),
        n.inodes.len() < usize::MAX,
        n.directories.len() < usize::MAX,
    ensures
        with_mount(n, h, id, history, root).tree_wf(),
{
    reveal(NamespaceModel::tree_wf);
    let s = with_mount(n, h, id, history, root);
    let m = n.directories.len() as DirectoryId;
    assert(n.dir_wf(h));
    assert forall|x: DirectoryId, i: int, k: InodeId| #[trigger]
        s.lists_directory(x, i, k) implies x < m && k < n.inodes.len() && n.lists_directory(
        x,
        i,
        k,
    ) by {
        assert(x != m);
        assert(n.is_dir(x));
        assert(n.dir_wf(x));
        assert(s.directories[x as int].children == n.directories[x as int].children);
        assert(n.directories[x as int].children->0[i].inode == Some(k));
        assert(s.inodes[k as int].inode_type == n.inodes[k as int].inode_type);
    }
    assert forall|x: DirectoryId, i: int, k: InodeId, c: DirectoryId|
        #[trigger] s.lists_directory(x, i, k) && #[trigger] s.is_dir(c)
            && s.directories[c as int].inode == k implies s.directories[c as int].parent == Some(x)
        && s.directories[x as int].mount_root != Some(c) by {
        assert(n.lists_directory(x, i, k));
        assert(c != m);
        assert(n.is_dir(c));
    }
}

proof fn lemma_with_mount_wf(
    n: NamespaceModel,
    h: DirectoryId,
    id: u64,
    history: Seq<DriverCall>,
    root: Inode,
)
    requires
        n.wf(),
        n.is_dir(h),
        !n.inode_of(h).mount_flag,
        n.inodes.len() < usize::MAX,
        n.directories.len() < usize::MAX,
        n.histories.len() < usize::MAX,
    ensures
        with_mount(n, h, id, history, root).wf(),
        forall|x: DirectoryId| #[trigger]
            n.is_dir(x) ==> with_mount(n, h, id, history, root).host(x) == n.host(x),
        with_mount(n, h, id, history, root).host(n.directories.len() as DirectoryId) == h,
{
    let s = with_mount(n, h, id, history, root);
    let m = n.directories.len() as DirectoryId;
    let k = n.directories[h as int].inode;
    lemma_tree_with_mount(n, h, id, history, root);
    assert(n.dir_wf(h));
    assert(n.directories[h as int].mount_root is None);
    assert forall|x: DirectoryId| #[trigger] n.is_dir(x) implies {
        &&& s.directories[x as int].inode == n.directories[x as int].inode
        &&& s.directories[x as int].parent == n.directories[x as int].parent
        &&& s.directories[x as int].children == n.directories[x as int].children
        &&& s.volume_of(x) == n.volume_of(x)
        &&& s.host(x) == n.host(x)
    } by {
        assert(n.dir_wf(x));
        if let Some(p) = n.directories[x as int].parent {
            assert(n.is_dir(p));
        }
    }
    assert forall|x: DirectoryId| #[trigger] s.is_dir(x) implies s.dir_wf(x) by {
        if x < m {
            assert(n.is_dir(x));
            assert(n.dir_wf(x));
            let id = n.directories[x as int].inode;
            if x != h && id == k {
                assert(n.is_dir(h));
            }
            if let Some(mm) = n.directories[x as int].mount_root {
                assert(n.is_dir(mm));
            }
            if let Some(list) = s.directories[x as int].children {
                assert forall|i: int| 0 <= i < list.len() implies ((
                #[trigger] list[i]).inode matches Some(id) ==> id < s.inodes.len()
                    && s.inodes[id as int].filesystem == s.volume_of(x)) by {
                    if let Some(id) = list[i].inode {
                        assert(id < n.inodes.len());
                        assert(s.inodes[id as int].filesystem == n.inodes[id as int].filesystem);
                    }
                }
            }
        } else {
            assert(n.is_dir(n.root));
        }
    }
    assert forall|a: DirectoryId, b: DirectoryId|
        #[trigger] s.is_dir(a) && #[trigger] s.is_dir(b) && s.directories[a as int].inode
            == s.directories[b as int].inode implies a == b by {
        if a < m {
            assert(n.is_dir(a));
            assert(n.dir_wf(a));
        }
        if b < m {
            assert(n.is_dir(b));
            assert(n.dir_wf(b));
        }
    }
    assert forall|x: InodeId|
        x < s.inodes.len() && (#[trigger] s.inodes[x as int]).mount_flag implies s.has_dir(x) by {
        if x == k {
            assert(s.is_dir(h));
        } else {
            assert(x < n.inodes.len());
            assert(n.inodes[x as int].mount_flag);
            let d = choose|d: DirectoryId| #[trigger]
                n.is_dir(d) && n.directories[d as int].inode == x;
            assert(s.is_dir(d));
            assert(s.directories[d as int].inode == x);
        }
    }
    assert forall|x: int| 0 <= x < s.inodes.len() implies (#[trigger] s.inodes[x]).filesystem
        < s.histories.len() by {
        if x < n.inodes.len() {
            assert(n.inodes[x].filesystem < n.histories.len());
        }
    }
    assert(s.is_dir(s.root)) by {
        assert(n.is_dir(n.root));
    }
}

proof fn lemma_without_mount_wf(n: NamespaceModel, h: DirectoryId)
    requires
        n.wf(),
        n.is_dir(h),
        n.inode_of(h).mount_flag,
    ensures
        without_mount(n, h).wf(),
        forall|x: DirectoryId| #[trigger]
            n.is_dir(x) ==> without_mount(n, h).host(x) == if Some(x)
                == n.directories[h as int].mount_root {
                x
            } else {
                n.host(x)
            },
{
    let s = without_mount(n, h);
    let k = n.directories[h as int].inode;
    assert(n.dir_wf(h));
    assert forall|x: DirectoryId, i: int, y: InodeId| #[trigger]
        s.lists_directory(x, i, y) implies n.lists_directory(x, i, y) by {
        assert(n.is_dir(x));
        assert(n.dir_wf(x));
        assert(s.directories[x as int].children == n.directories[x as int].children);
        assert(n.directories[x as int].children->0[i].inode == Some(y));
        assert(s.inodes[y as int].inode_type == n.inodes[y as int].inode_type);
    }
    super::namespace::lemma_tree_kept(n, s);
    assert forall|x: DirectoryId| #[trigger] n.is_dir(x) implies {
        &&& s.directories[x as int].inode == n.directories[x as int].inode
        &&& s.directories[x as int].parent == n.directories[x as int].parent
        &&& s.directories[x as int].children == n.directories[x as int].children
        &&& s.volume_of(x) == n.volume_of(x)
        &&& s.host(x) == if Some(x) == n.directories[h as int].mount_root {
            x
        } else {
            n.host(x)
        }
    } by {
        assert(n.dir_wf(x));
        if let Some(p) = n.directories[x as int].parent {
            assert(n.is_dir(p));
        }
    }
    assert forall|x: DirectoryId| #[trigger] s.is_dir(x) implies s.dir_wf(x) by {
        assert(n.is_dir(x));
        assert(n.dir_wf(x));
        let id = n.directories[x as int].inode;
        if x != h && id == k {
            assert(n.is_dir(h));
        }
        if let Some(mm) = n.directories[x as int].mount_root {
            assert(n.is_dir(mm));
        }
        if let Some(list) = s.directories[x as int].children {
            assert forall|i: int| 0 <= i < list.len() implies ((
            #[trigger] list[i]).inode matches Some(id) ==> id < s.inodes.len()
                && s.inodes[id as int].filesystem == s.volume_of(x)) by {
                if let Some(id) = list[i].inode {
                    assert(s.inodes[id as int].filesystem == n.inodes[id as int].filesystem);
                }
            }
        }
    }
    assert forall|a: DirectoryId, b: DirectoryId|
        #[trigger] s.is_dir(a) && #[trigger] s.is_dir(b) && s.directories[a as int].inode
            == s.directories[b as int].inode implies a == b by {
        assert(n.is_dir(a) && n.is_dir(b));
    }
    assert forall|x: InodeId|
        x < s.inodes.len() && (#[trigger] s.inodes[x as int]).mount_flag implies s.has_dir(x) by {
        assert(x != k);
        assert(n.inodes[x as int].mount_flag);
        let d = choose|d: DirectoryId| #[trigger]
            n.is_dir(d) && n.directories[d as int].inode == x;
        assert(s.is_dir(d));
    }
    assert forall|x: int| 0 <= x < s.inodes.len() implies (#[trigger] s.inodes[x]).filesystem
        < s.histories.len() by {
        assert(n.inodes[x].filesystem < n.histories.len());
    }
    assert(s.is_dir(s.root)) by {
        assert(n.is_dir(n.root));
    }
}

impl VirtualFileSystem {
    /// The directory that a volume rooted at `d` is mounted on, or else `d`.
    fn host_of(&self, d: DirectoryId) -> (r: DirectoryId)
        requires
            self.wf(),
            self.namespace@.is_dir(d),
        ensures
            r == self.namespace@.host(d),
            self.namespace@.is_dir(r),
    {
        assert(self.namespace@.dir_wf(d));
        match self.mounted_root_index.get(&(d as u64)) {
            Some(h) => *h as DirectoryId,
            None => d,
        }
    }

    /// Makes a volume part of the namespace, mounted on directory `h`.
    fn attach(&mut self, h: DirectoryId, filesystem_id: u64, instance: Instance, root: Inode)
        requires
            old(self).wf(),
            old(self).namespace@.is_dir(h),
            !old(self).namespace@.inode_of(h).mount_flag,
            old(self).mounts.can_grow(),
            old(self).mounted_root_index.can_grow(),
            filesystem_id == old(self).next_filesystem_id,
            old(self).next_filesystem_id < u64::MAX,
        ensures
            final(self).wf(),
            mounted(
                old(self),
                final(self),
                old(self).namespace@,
                h,
                instance.filesystem.history(),
                root,
            ),
            same_but_mounts(final(self), old(self)),
            final(self).next_filesystem_id == old(self).next_filesystem_id + 1,
    {
        let ghost n = self.namespace@;
        let ghost history = instance.filesystem.history();
        assert(n.dir_wf(h));
        let v: VolumeId = self.namespace.volumes.len();
        let id: InodeId = self.namespace.inodes.len();
        let m: DirectoryId = self.namespace.directories.len();
        let host_inode: InodeId = self.namespace.directories[h].inode;
        self.namespace.inodes[host_inode].mount_flag = true;
        self.namespace.inodes.push(root.adopt(v));
        self.namespace.directories[h].mount_root = Some(m);
        self.namespace.directories.push(Directory::new(id, h));
        self.namespace.volumes.push(Volume { filesystem_id, instance });
        let ghost s = with_mount(n, h, filesystem_id, history, root);
        proof {
            assert(self.namespace.inodes.len() <= usize::MAX);
            assert(self.namespace.directories.len() <= usize::MAX);
            assert(self.namespace.volumes.len() <= usize::MAX);
            assert(self.namespace@.inodes =~= s.inodes);
            assert(self.namespace@.directories =~= s.directories);
            assert(self.namespace@.histories =~= s.histories);
            assert(self.namespace@.ids =~= s.ids);
            assert(self.namespace@ =~= s);
            lemma_with_mount_wf(n, h, filesystem_id, history, root);
        }
        self.next_filesystem_id = self.next_filesystem_id + 1;
        let _ = self.mounts.insert(h as u64, MountPoint::new(filesystem_id, h, m, v));
        let _ = self.mounted_root_index.insert(m as u64, h as u64);
        proof {
            lemma_attached_wf(old(self), &*self, h, history, root);
        }
    }

    /// Mounts the volume that a device holds on the directory at a path.
    pub fn mount(
        &mut self,
        driver_name: &'static str,
        device: Device,
        mount_path: &str,
        working_directory: Option<DirectoryId>,
    ) -> (r: Result<(), FileSystemError>)
        requires
            old(self).wf(),
            wd_wf(old(self).namespace@, working_directory),
            old(self).mounts.can_grow(),
            old(self).mounted_root_index.can_grow(),
            old(self).next_filesystem_id < u64::MAX,
        ensures
            final(self).wf(),
            mounts_at(
                old(self),
                final(self),
                mount_path@,
                working_directory,
                driver_name@,
                device,
                r,
            ),
    {
        let q = self.resolve_dir_with_budget(mount_path, working_directory, MAX_SYMLINK_DEPTH);
        let d: DirectoryId = match q {
            Ok(d) => d,
            Err(e) => {
                return Err(e);
            },
        };
        let h: DirectoryId = self.host_of(d);
        let ghost n = self.namespace@;
        assert(n.dir_wf(h));
        if self.namespace.inodes[self.namespace.directories[h].inode].mount_flag {
            assert(mounts_on(
                old(self),
                self,
                n,
                h,
                driver_name@,
                device,
                Err(FileSystemError::AlreadyMounted),
            ));
            return Err(FileSystemError::AlreadyMounted);
        }
        let reply = match self.drivers.get(&driver_name) {
            Some(driver) => driver.mount(device),
            None => {
                assert(mounts_on(
                    old(self),
                    self,
                    n,
                    h,
                    driver_name@,
                    device,
                    Err(FileSystemError::UnknownDriver),
                ));
                return Err(FileSystemError::UnknownDriver);
            },
        };
        assert(old(self).drivers@[driver_name@].mounts_as(device, reply));
        let instance: Instance = match reply {
            Ok(instance) => instance,
            Err(e) => {
                assert(mounts_on(old(self), self, n, h, driver_name@, device, Err(e)));
                return Err(e);
            },
        };
        let filesystem_id: u64 = self.next_filesystem_id;
        let mut used: Instance = instance;
        let root = used.filesystem.load_inode(ROOT_INODE_NUMBER);
        assert(asked_for_root(instance, used, root));
        match root {
            Ok(inode) if inode.is_directory() => {
                self.attach(h, filesystem_id, used, inode);
                assert(roots(old(self), self, n, h, instance, Ok(())));
                Ok(())
            },
            Ok(_) => {
                self.next_filesystem_id = filesystem_id + 1;
                assert(roots(
                    old(self),
                    self,
                    n,
                    h,
                    instance,
                    Err(FileSystemError::NotADirectory),
                ));
                Err(FileSystemError::NotADirectory)
            },
            Err(e) => {
                self.next_filesystem_id = filesystem_id + 1;
                assert(roots(old(self), self, n, h, instance, Err(e)));
                Err(e)
            },
        }
    }
}

/// What mounting a device on the directory at a path comes to.
pub open spec fn mounts_at(
    before: &VirtualFileSystem,
    after: &VirtualFileSystem,
    path: Seq<char>,
    working_directory: Option<DirectoryId>,
    driver_name: Seq<char>,
    device: Device,
    r: Result<(), FileSystemError>,
) -> bool {
    let o = before.namespace@;
    exists|n: NamespaceModel, q: Result<DirectoryId, FileSystemError>|
        grew(o, n) && n.wf() && #[trigger] resolves_dir(
            o,
            n,
            path,
            working_directory,
            MAX_SYMLINK_DEPTH as nat,
            q,
        ) && match q {
            Err(e) => after.namespace@ == n && after.same_tables(before) && r == Err::<
                (),
                FileSystemError,
            >(e),
            Ok(d) => n.is_dir(d) && mounts_on(
                before,
                after,
                n,
                n.host(d),
                driver_name,
                device,
                r,
            ),
        }
}

proof fn lemma_attached_wf(
    before: &VirtualFileSystem,
    after: &VirtualFileSystem,
    h: DirectoryId,
    history: Seq<DriverCall>,
    root: Inode,
)
    requires
        before.wf(),
        before.namespace@.is_dir(h),
        !before.namespace@.inode_of(h).mount_flag,
        after.namespace@.wf(),
        before.namespace@.inodes.len() < usize::MAX,
        before.namespace@.directories.len() < usize::MAX,
        before.namespace@.histories.len() < usize::MAX,
        mounted(before, after, before.namespace@, h, history, root),
        same_but_mounts(after, before),
        after.next_filesystem_id == before.next_filesystem_id + 1,
        after.mounts.wf(),
        after.mounted_root_index.wf(),
    ensures
        after.wf(),
{
    let n = before.namespace@;
    let s = after.namespace@;
    let m = n.directories.len();
    lemma_with_mount_wf(n, h, before.next_filesystem_id, history, root);
    assert(n.dir_wf(h));
    assert forall|x: u64| #[trigger] after.mounts@.contains_key(x) <==> x < s.directories.len()
        && s.directories[x as int].mount_root is Some by {
        assert(before.mounts@.contains_key(x) <==> x < n.directories.len()
            && n.directories[x as int].mount_root is Some);
    }
    assert forall|x: u64| #[trigger] after.mounts@.contains_key(x) implies {
        let p = after.mounts@[x];
        &&& p.host_directory == x
        &&& s.directories[x as int].mount_root == Some(p.mounted_root)
        &&& p.instance == s.volume_of(p.mounted_root)
        &&& p.filesystem_id == s.ids[p.instance as int]
    } by {
        if x != h {
            assert(before.mounts@.contains_key(x));
            let p = before.mounts@[x];
            assert(n.is_dir(x as DirectoryId));
            assert(n.dir_wf(x as DirectoryId));
            assert(n.is_dir(p.mounted_root));
            assert(n.dir_wf(p.mounted_root));
            let id = n.directories[p.mounted_root as int].inode;
            assert(n.inodes[id as int].filesystem < n.histories.len());
        }
    }
    assert forall|x: u64| #[trigger]
        after.mounted_root_index@.contains_key(x) <==> x < s.directories.len() && s.host(
            x as DirectoryId,
        ) != x by {
        assert(before.mounted_root_index@.contains_key(x) <==> x < n.directories.len() && n.host(
            x as DirectoryId,
        ) != x);
        if x < m {
            assert(n.is_dir(x as DirectoryId));
        }
    }
    assert forall|x: u64| #[trigger]
        after.mounted_root_index@.contains_key(x) implies after.mounted_root_index@[x] == s.host(
        x as DirectoryId,
    ) by {
        if x < m {
            assert(before.mounted_root_index@.contains_key(x));
            assert(n.is_dir(x as DirectoryId));
        }
    }
    assert forall|key: OpenFileKey| #[trigger]
        after.open_files@.contains_key(key) implies after.open_files@[key] < after.files@.len()
        && key == key_of(s, after.files@[after.open_files@[key] as int].inode) by {
        assert(before.open_files@.contains_key(key));
        let id = after.files@[after.open_files@[key] as int].inode;
        assert(n.inodes[id as int].filesystem < n.histories.len());
    }
}

impl VirtualFileSystem {
    /// Checks if a file of the volume with this identifier is open.
    fn has_open_files(&self, filesystem_id: u64) -> (r: bool)
        requires
            self.open_files.wf(),
        ensures
            r == volume_is_open(self.open_files@, filesystem_id),
    {
        let keys = self.open_files.keys();
        let mut i: usize = 0;
        while i < keys.len()
            invariant
                i <= keys@.len(),
                forall|j: int|
                    0 <= j < i ==> (#[trigger] keys@[j]).filesystem_id != filesystem_id,
                forall|j: int|
                    0 <= j < keys@.len() ==> self.open_files@.contains_key((#[trigger] keys@[j])@),
            decreases keys@.len() - i,
        {
            if keys[i].filesystem_id == filesystem_id {
                assert(self.open_files@.contains_key(keys@[i as int]@));
                return true;
            }
            i = i + 1;
        }
        proof {
            if volume_is_open(self.open_files@, filesystem_id) {
                let key = choose|key: OpenFileKey| #[trigger]
                    self.open_files@.contains_key(key) && key.filesystem_id == filesystem_id;
                let j = choose|j: int| 0 <= j < keys@.len() && (#[trigger] keys@[j])@ == key;
                assert(keys@[j].filesystem_id != filesystem_id);
            }
        }
        false
    }

    /// Unmounts the volume on directory `h`, which has one.
    fn detach(&mut self, h: DirectoryId) -> (r: Result<(), FileSystemError>)
        requires
            old(self).wf(),
            old(self).namespace@.is_dir(h),
            old(self).namespace@.inode_of(h).mount_flag,
        ensures
            final(self).wf(),
            unmounts_from(old(self), final(self), old(self).namespace@, h, r),
    {
        let ghost n = self.namespace@;
        assert(n.dir_wf(h));
        let point: MountPoint = match self.mounts.get(&(h as u64)) {
            Some(point) => *point,
            None => {
                assert(self.mounts@.contains_key(h as u64));
                return Err(FileSystemError::NotMounted);
            },
        };
        assert(self.mounts@.contains_key(h as u64));
        let root: DirectoryId = point.mounted_root;
        let v: VolumeId = point.instance;
        proof {
            assert(n.is_dir(root));
            assert(n.dir_wf(root));
            assert(n.inodes[n.directories[root as int].inode as int].filesystem
                < n.histories.len());
        }
        if self.has_open_files(point.filesystem_id) {
            return Err(FileSystemError::FileLocked);
        }
        let _ = self.mounts.remove(&(h as u64));
        let _ = self.mounted_root_index.remove(&(root as u64));
        let host_inode: InodeId = self.namespace.directories[h].inode;
        self.namespace.inodes[host_inode].mount_flag = false;
        self.namespace.directories[h].mount_root = None;
        let ghost s = without_mount(n, h);
        let ghost middle = *self;
        proof {
            assert(self.namespace@.inodes =~= s.inodes);
            assert(self.namespace@.directories =~= s.directories);
            assert(self.namespace@.histories =~= s.histories);
            assert(self.namespace@.ids =~= s.ids);
            assert(self.namespace@ =~= s);
            lemma_without_mount_wf(n, h);
            lemma_detached_wf(old(self), &*self, h);
        }
        let r = self.namespace.volumes[v].instance.filesystem.unmount();
        proof {
            let call = DriverCall::Unmount { reply: r };
            lemma_call_shows(middle.namespace, self.namespace, v, call);
            super::removal::lemma_same_listings_reshaped(s, self.namespace@);
            super::removal::lemma_changed_wf(&middle, &*self);
        }
        r
    }

    /// Unmounts the volume that is mounted on the directory at a path.
    pub fn unmount(
        &mut self,
        mount_path: &str,
        working_directory: Option<DirectoryId>,
    ) -> (r: Result<(), FileSystemError>)
        requires
            old(self).wf(),
            wd_wf(old(self).namespace@, working_directory),
        ensures
            final(self).wf(),
            unmounts_at(old(self), final(self), mount_path@, working_directory, r),
    {
        let q = self.resolve_dir_with_budget(mount_path, working_directory, MAX_SYMLINK_DEPTH);
        let d: DirectoryId = match q {
            Ok(d) => d,
            Err(e) => {
                return Err(e);
            },
        };
        let h: DirectoryId = self.host_of(d);
        let ghost n = self.namespace@;
        assert(n.dir_wf(h));
        if !self.namespace.inodes[self.namespace.directories[h].inode].mount_flag {
            assert(unmounts_from(old(self), self, n, h, Err(FileSystemError::NotMounted)));
            return Err(FileSystemError::NotMounted);
        }
        let r = self.detach(h);
        assert(unmounts_from(old(self), self, n, h, r));
        r
    }
}

/// What unmounting the volume on the directory at a path comes to.
pub open spec fn unmounts_at(
    before: &VirtualFileSystem,
    after: &VirtualFileSystem,
    path: Seq<char>,
    working_directory: Option<DirectoryId>,
    r: Result<(), FileSystemError>,
) -> bool {
    let o = before.namespace@;
    exists|n: NamespaceModel, q: Result<DirectoryId, FileSystemError>|
        grew(o, n) && n.wf() && #[trigger] resolves_dir(
            o,
            n,
            path,
            working_directory,
            MAX_SYMLINK_DEPTH as nat,
            q,
        ) && match q {
            Err(e) => after.namespace@ == n && after.same_tables(before) && r == Err::<
                (),
                FileSystemError,
            >(e),
            Ok(d) => n.is_dir(d) && unmounts_from(before, after, n, n.host(d), r),
        }
}

proof fn lemma_detached_wf(before: &VirtualFileSystem, after: &VirtualFileSystem, h: DirectoryId)
    requires
        before.wf(),
        before.namespace@.is_dir(h),
        before.namespace@.inode_of(h).mount_flag,
        after.namespace@ == without_mount(before.namespace@, h),
        after.mounts@ == before.mounts@.remove(h as u64),
        after.mounted_root_index@ == before.mounted_root_index@.remove(
            before.namespace@.directories[h as int].mount_root->0 as u64,
        ),
        same_but_mounts(after, before),
        after.next_filesystem_id == before.next_filesystem_id,
        after.mounts.wf(),
        after.mounted_root_index.wf(),
    ensures
        after.wf(),
{
    let n = before.namespace@;
    let s = after.namespace@;
    lemma_without_mount_wf(n, h);
    assert(n.dir_wf(h));
    let root = n.directories[h as int].mount_root->0;
    assert forall|x: u64| #[trigger] after.mounts@.contains_key(x) <==> x < s.directories.len()
        && s.directories[x as int].mount_root is Some by {
        assert(before.mounts@.contains_key(x) <==> x < n.directories.len()
            && n.directories[x as int].mount_root is Some);
    }
    assert forall|x: u64| #[trigger] after.mounts@.contains_key(x) implies {
        let p = after.mounts@[x];
        &&& p.host_directory == x
        &&& s.directories[x as int].mount_root == Some(p.mounted_root)
        &&& p.instance == s.volume_of(p.mounted_root)
        &&& p.filesystem_id == s.ids[p.instance as int]
    } by {
        assert(before.mounts@.contains_key(x));
        let p = before.mounts@[x];
        assert(n.is_dir(x as DirectoryId));
        assert(n.dir_wf(x as DirectoryId));
        assert(n.is_dir(p.mounted_root));
        assert(n.dir_wf(p.mounted_root));
    }
    assert forall|x: u64| #[trigger]
        after.mounted_root_index@.contains_key(x) <==> x < s.directories.len() && s.host(
            x as DirectoryId,
        ) != x by {
        assert(before.mounted_root_index@.contains_key(x) <==> x < n.directories.len() && n.host(
            x as DirectoryId,
        ) != x);
        if x < n.directories.len() {
            assert(n.is_dir(x as DirectoryId));
        }
    }
    assert forall|x: u64| #[trigger]
        after.mounted_root_index@.contains_key(x) implies after.mounted_root_index@[x] == s.host(
        x as DirectoryId,
    ) by {
        assert(before.mounted_root_index@.contains_key(x));
        assert(n.is_dir(x as DirectoryId));
    }
    assert forall|key: OpenFileKey| #[trigger]
        after.open_files@.contains_key(key) implies after.open_files@[key] < after.files@.len()
        && key == key_of(s, after.files@[after.open_files@[key] as int].inode) by {
        assert(before.open_files@.contains_key(key));
    }
}

/// A volume that is mounted can be entered and left: the path to the directory
/// leads to its root, and above its root is the directory.
pub proof fn mounted_root_is_entered(
    before: &VirtualFileSystem,
    after: &VirtualFileSystem,
    n: NamespaceModel,
    h: DirectoryId,
    history: Seq<DriverCall>,
    root: Inode,
)
    requires
        n.wf(),
        n.is_dir(h),
        n.directories.len() < usize::MAX,
        mounted(before, after, n, h, history, root),
    ensures
        after.namespace@.enter(h) == n.directories.len(),
        after.namespace@.up(n.directories.len() as DirectoryId) == h,
        after.namespace@.inode_of(h).mount_flag,
        n.inodes.len() < usize::MAX ==> after.namespace@.inode_of(
            n.directories.len() as DirectoryId,
        ) == root.adopted(n.histories.len() as VolumeId),
{
    assert(n.dir_wf(h));
}

/// The mount of a volume on directory `h` stands in a namespace that has grown
/// since: its root was loaded as the last directory.
pub proof fn lemma_mount_stays(
    n: NamespaceModel,
    k: NamespaceModel,
    h: DirectoryId,
    id: u64,
    history: Seq<DriverCall>,
    root: Inode,
)
    requires
        n.wf(),
        n.is_dir(h),
        !n.inode_of(h).mount_flag,
        n.directories.len() < usize::MAX,
        n.inodes.len() < usize::MAX,
        n.histories.len() < usize::MAX,
        grew(with_mount(n, h, id, history, root), k),
    ensures
        k.is_dir(h),
        k.inode_of(h).mount_flag,
        k.directories[h as int].mount_root == Some(n.directories.len() as DirectoryId),
        k.volume_of(n.directories.len() as DirectoryId) == n.histories.len(),
        k.ids == n.ids.push(id),
        k.histories.len() == n.histories.len() + 1,
{
    let w = with_mount(n, h, id, history, root);
    let m = n.directories.len() as DirectoryId;
    assert(n.dir_wf(h));
    assert(w.is_dir(h) && w.is_dir(m));
    assert(k.is_dir(h) && k.is_dir(m));
    assert(dir_grew(w, k, h) && dir_grew(w, k, m));
    let x = n.directories[h as int].inode as int;
    assert(k.inodes[x] == w.inodes[x]);
    assert(k.inodes[n.inodes.len() as int] == w.inodes[n.inodes.len() as int]);
}

/// A directory that was there before a volume was mounted stands as it stood,
/// once that is undone.
proof fn lemma_unmounted_directory(
    n: NamespaceModel,
    k: NamespaceModel,
    h: DirectoryId,
    id: u64,
    history: Seq<DriverCall>,
    root: Inode,
    d: DirectoryId,
)
    requires
        n.is_dir(h),
        n.directories[h as int].inode < n.inodes.len(),
        n.directories[h as int].mount_root is None,
        !n.inode_of(h).mount_flag,
        grew(with_mount(n, h, id, history, root), k),
        n.is_dir(d),
        n.directories[d as int].inode < n.inodes.len(),
    ensures
        ({
            let s = without_mount(k, h);
            &&& s.is_dir(d)
            &&& s.inode_of(d) == n.inode_of(d)
            &&& s.directories[d as int].inode == n.directories[d as int].inode
            &&& s.directories[d as int].parent == n.directories[d as int].parent
            &&& s.directories[d as int].mount_root == n.directories[d as int].mount_root
            &&& s.directories[d as int].children == k.directories[d as int].children
        }),
{
    let w = with_mount(n, h, id, history, root);
    assert(w.is_dir(h) && w.is_dir(d));
    assert(k.is_dir(h) && k.is_dir(d));
    assert(dir_grew(w, k, h) && dir_grew(w, k, d));
    let x = n.directories[h as int].inode as int;
    let y = n.directories[d as int].inode as int;
    assert(k.inodes[x] == w.inodes[x]);
    assert(k.inodes[y] == w.inodes[y]);
}

/// Nothing is mounted on the directory yet, and the tables know nothing of it.
proof fn lemma_no_mount_known(before: &VirtualFileSystem, n: NamespaceModel, h: DirectoryId)
    requires
        before.wf(),
        n.wf(),
        grew(before.namespace@, n),
        n.is_dir(h),
        !n.inode_of(h).mount_flag,
        n.directories.len() < usize::MAX,
    ensures
        !before.mounts@.contains_key(h as u64),
        !before.mounted_root_index@.contains_key(n.directories.len() as u64),
{
    let o = before.namespace@;
    assert(n.dir_wf(h));
    if o.is_dir(h) {
        assert(dir_grew(o, n, h));
    }
}

/// Asking a driver for what is not in memory unmounts nothing.
proof fn lemma_growth_unmounts_nothing(w: NamespaceModel, k: NamespaceModel, v: int, i: int)
    requires
        grew(w, k),
        0 <= v < w.histories.len(),
        w.histories[v].len() <= i < k.histories[v].len(),
    ensures
        !(k.histories[v][i] is Unmount),
{
    reveal(asked_for_missing);
    assert(was_missing(w, k, v as VolumeId, k.histories[v][i]));
}

/// Unmounting undoes mounting, whatever was looked up meanwhile, unless a file
/// of the volume is open. Both mount tables are what they were. The directories
/// that were there stand where they stood, and their inodes say what they said.
/// The driver was asked to unmount once, last of all, and what it answered is
/// the result; no other driver was asked.
pub proof fn unmount_undoes_mount(
    before: &VirtualFileSystem,
    between: &VirtualFileSystem,
    after: &VirtualFileSystem,
    n: NamespaceModel,
    k: NamespaceModel,
    h: DirectoryId,
    history: Seq<DriverCall>,
    root: Inode,
    r: Result<(), FileSystemError>,
)
    requires
        before.wf(),
        n.wf(),
        grew(before.namespace@, n),
        n.is_dir(h),
        !n.inode_of(h).mount_flag,
        n.directories.len() < usize::MAX,
        n.inodes.len() < usize::MAX,
        n.histories.len() < usize::MAX,
        mounted(before, between, n, h, history, root),
        grew(between.namespace@, k),
        !volume_is_open(between.open_files@, before.next_filesystem_id),
        unmounts_from(between, after, k, h, r),
    ensures
        after.mounts@ == before.mounts@,
        after.mounted_root_index@ == before.mounted_root_index@,
        forall|d: DirectoryId| #[trigger]
            n.is_dir(d) ==> {
                let s = after.namespace@;
                &&& s.is_dir(d)
                &&& s.inode_of(d) == n.inode_of(d)
                &&& s.directories[d as int].inode == n.directories[d as int].inode
                &&& s.directories[d as int].parent == n.directories[d as int].parent
                &&& s.directories[d as int].mount_root == n.directories[d as int].mount_root
                &&& s.directories[d as int].children == k.directories[d as int].children
            },
        ({
            let v = n.histories.len() as int;
            let calls = after.namespace@.histories[v];
            &&& after.namespace@.histories == k.histories.update(v, calls)
            &&& calls == k.histories[v].push(DriverCall::Unmount { reply: r })
            &&& history.is_prefix_of(calls)
            &&& forall|i: int|
                history.len() <= i < calls.len() ==> ((#[trigger] calls[i]) is Unmount <==> i
                    == calls.len() - 1)
        }),
{
    let w = between.namespace@;
    let id = before.next_filesystem_id;
    let v = n.histories.len() as int;
    let call = DriverCall::Unmount { reply: r };
    lemma_mount_stays(n, k, h, id, history, root);
    lemma_no_mount_known(before, n, h);
    assert(k.ids[v] == id);
    assert(after.mounts@ =~= before.mounts@);
    assert(after.mounted_root_index@ =~= before.mounted_root_index@);
    assert forall|d: DirectoryId| #[trigger] n.is_dir(d) implies {
        let s = after.namespace@;
        &&& s.is_dir(d)
        &&& s.inode_of(d) == n.inode_of(d)
        &&& s.directories[d as int].inode == n.directories[d as int].inode
        &&& s.directories[d as int].parent == n.directories[d as int].parent
        &&& s.directories[d as int].mount_root == n.directories[d as int].mount_root
        &&& s.directories[d as int].children == k.directories[d as int].children
    } by {
        assert(n.dir_wf(h) && n.dir_wf(d));
        lemma_unmounted_directory(n, k, h, id, history, root, d);
    }
    let calls = after.namespace@.histories[v];
    assert(calls == k.histories[v].push(call));
    assert(after.namespace@.histories =~= k.histories.update(v, calls));
    assert(w.histories[v] == history);
    assert(history.is_prefix_of(k.histories[v]));
    assert forall|i: int| 0 <= i < history.len() implies history[i] == calls[i] by {
        assert(k.histories[v][i] == history[i]);
    }
    assert(history =~= calls.take(history.len() as int));
    assert forall|i: int| history.len() <= i < calls.len() implies ((#[trigger] calls[i]) is Unmount
        <==> i == calls.len() - 1) by {
        if i < calls.len() - 1 {
            lemma_growth_unmounts_nothing(w, k, v, i);
        }
    }
}

/// A volume that was unmounted cannot be unmounted again: nothing is mounted
/// there, no driver is asked, and the tables stay as they are.
pub proof fn unmounted_is_not_mounted(
    before: &VirtualFileSystem,
    between: &VirtualFileSystem,
    after: &VirtualFileSystem,
    n: NamespaceModel,
    k: NamespaceModel,
    h: DirectoryId,
    r: Result<(), FileSystemError>,
    again: Result<(), FileSystemError>,
)
    requires
        n.wf(),
        n.is_dir(h),
        !volume_is_open(
            before.open_files@,
            n.ids[n.volume_of(n.directories[h as int].mount_root->0) as int],
        ),
        unmounts_from(before, between, n, h, r),
        grew(between.namespace@, k),
        unmounts_from(between, after, k, h, again),
    ensures
        again == Err::<(), FileSystemError>(FileSystemError::NotMounted),
        after.namespace@ == k,
        after.same_tables(between),
{
    let s = between.namespace@;
    assert(n.dir_wf(h));
    assert(s.is_dir(h));
    assert(k.is_dir(h));
    assert(dir_grew(s, k, h));
    let x = n.directories[h as int].inode as int;
    assert(k.inodes[x] == s.inodes[x]);
}

} // verus!

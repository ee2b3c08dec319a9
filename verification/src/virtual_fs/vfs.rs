//! The virtual file system: the namespace with its drivers, mounts and open
//! files.

use vstd::prelude::*;
use vstd::string::StrSliceExecFns;

use super::directory::{Directory, DirectoryId, DirectoryModel};
use super::driver::{FileSystemDriver, Instance};
use super::file::{File, FileId};
use super::inode::{Inode, InodeId};
use super::mount::MountPoint;
use super::namespace::{
    dir_grew, dir_new, grew, grew_refl, reshaped, Namespace, NamespaceModel, Volume,
};
use super::path::{
    components, components_join, components_of_name, dot, dot_dot, is_name, split_path,
};
use super::resolver::{
    dot_dot_only_leads_back, leads_to, path_walks, start_of, steady, there_and_back,
    walks_lead_to_one_place, Place, MAX_SYMLINK_DEPTH,
};
use super::types::{DirectoryEntryType, FileSystemError, OpenFileKey};
use crate::kernel_hashmap::KernelHashMap;

verus! {

/// The whole file system.
pub struct VirtualFileSystem {
    pub namespace: Namespace,
    /// The drivers, by name.
    pub drivers: KernelHashMap<&'static str, Box<dyn FileSystemDriver>>,
    /// The mount points, by host directory.
    pub mounts: KernelHashMap<u64, MountPoint>,
    /// The host directories, by the root of the volume mounted there.
    pub mounted_root_index: KernelHashMap<u64, u64>,
    /// The master records of all files that were opened.
    pub files: Vec<File>,
    /// The master records of the files that are open.
    pub open_files: KernelHashMap<OpenFileKey, FileId>,
    /// The identifier that the next mounted volume is given.
    pub next_filesystem_id: u64,
    /// The identifier that the next handle is given.
    pub next_handle_id: u64,
}

/// The key of an inode in the table of open files.
pub open spec fn key_of(s: NamespaceModel, id: InodeId) -> OpenFileKey {
    OpenFileKey {
        filesystem_id: s.ids[s.inodes[id as int].filesystem as int],
        inode_number: s.inodes[id as int].inode_number,
    }
}

/// A working directory, if given, is a directory.
pub open spec fn wd_wf(s: NamespaceModel, working_directory: Option<DirectoryId>) -> bool {
    working_directory matches Some(d) ==> s.is_dir(d)
}

/// A path resolves to an inode, or to an error.
pub open spec fn resolves(
    o: NamespaceModel,
    s: NamespaceModel,
    path: Seq<char>,
    working_directory: Option<DirectoryId>,
    follow: bool,
    budget: nat,
    r: Result<InodeId, FileSystemError>,
) -> bool {
    exists|w: Result<Place, FileSystemError>|
        #[trigger] path_walks(o, s, path, working_directory, follow, budget, w) && r == match w {
            Ok(place) => Ok::<InodeId, FileSystemError>(place.inode_in(s)),
            Err(e) => Err(e),
        }
}

/// What a path to a directory comes to.
pub open spec fn as_directory(
    s: NamespaceModel,
    w: Result<Place, FileSystemError>,
) -> Result<DirectoryId, FileSystemError> {
    match w {
        Ok(Place::Directory(d)) => if s.inode_of(d).inode_type is Directory {
            Ok(d)
        } else {
            Err(FileSystemError::NotADirectory)
        },
        Ok(Place::Object(_)) => Err(FileSystemError::NotADirectory),
        Err(e) => Err(e),
    }
}

/// A path resolves to a directory, or to an error. A symlink as the last name
/// is not followed.
pub open spec fn resolves_dir(
    o: NamespaceModel,
    s: NamespaceModel,
    path: Seq<char>,
    working_directory: Option<DirectoryId>,
    budget: nat,
    r: Result<DirectoryId, FileSystemError>,
) -> bool {
    exists|w: Result<Place, FileSystemError>|
        #[trigger] path_walks(o, s, path, working_directory, false, budget, w) && r == as_directory(
            s,
            w,
        )
}

impl VirtualFileSystem {
    /// The mount points are those that the directories show.
    pub open spec fn mounts_wf(&self) -> bool {
        let s = self.namespace@;
        &&& forall|h: u64| #[trigger]
            self.mounts@.contains_key(h) <==> h < s.directories.len()
                && s.directories[h as int].mount_root is Some
        &&& forall|h: u64| #[trigger]
            self.mounts@.contains_key(h) ==> {
                let m = self.mounts@[h];
                &&& m.host_directory == h
                &&& s.directories[h as int].mount_root == Some(m.mounted_root)
                &&& m.instance == s.volume_of(m.mounted_root)
                &&& m.filesystem_id == s.ids[m.instance as int]
            }
        &&& forall|m: u64| #[trigger]
            self.mounted_root_index@.contains_key(m) <==> m < s.directories.len() && s.host(
                m as DirectoryId,
            ) != m
        &&& forall|m: u64| #[trigger]
            self.mounted_root_index@.contains_key(m) ==> self.mounted_root_index@[m] == s.host(
                m as DirectoryId,
            )
    }

    /// The records of open files are filed under the key of their inode.
    pub open spec fn files_wf(&self) -> bool {
        let s = self.namespace@;
        &&& forall|f: int|
            0 <= f < self.files@.len() ==> (#[trigger] self.files@[f]).inode < s.inodes.len()
        &&& forall|key: OpenFileKey| #[trigger]
            self.open_files@.contains_key(key) ==> self.open_files@[key] < self.files@.len() && key
                == key_of(s, self.files@[self.open_files@[key] as int].inode)
    }

    /// Volumes have different identifiers, none of which was given in advance.
    pub open spec fn ids_wf(&self) -> bool {
        let ids = self.namespace@.ids;
        &&& forall|v: int| 0 <= v < ids.len() ==> #[trigger] ids[v] < self.next_filesystem_id
        &&& forall|v: int, w: int|
            0 <= v < w < ids.len() ==> #[trigger] ids[v] != #[trigger] ids[w]
    }

    /// The invariant of the file system.
    pub open spec fn wf(&self) -> bool {
        &&& self.namespace@.wf()
        &&& self.drivers.wf()
        &&& self.mounts.wf()
        &&& self.mounted_root_index.wf()
        &&& self.open_files.wf()
        &&& self.mounts_wf()
        &&& self.files_wf()
        &&& self.ids_wf()
    }

    /// Everything but the namespace is as it was.
    pub open spec fn same_tables(&self, before: &VirtualFileSystem) -> bool {
        &&& self.drivers == before.drivers
        &&& self.mounts == before.mounts
        &&& self.mounted_root_index == before.mounted_root_index
        &&& self.files == before.files
        &&& self.open_files == before.open_files
        &&& self.next_filesystem_id == before.next_filesystem_id
        &&& self.next_handle_id == before.next_handle_id
    }

    /// A file system whose root is the directory `root` of the volume that
    /// `instance` serves.
    pub fn new(root: Inode, instance: Instance) -> (r: Self)
        ensures
            r.wf(),
            r.namespace@ == (NamespaceModel {
                inodes: seq![root.adopted(0)],
                directories: seq![
                    DirectoryModel { inode: 0, children: None, parent: None, mount_root: None },
                ],
                histories: seq![instance.filesystem.history()],
                ids: seq![0u64],
                root: 0,
            }),
            r.drivers@ == Map::<Seq<char>, Box<dyn FileSystemDriver>>::empty(),
            r.mounts@ == Map::<u64, MountPoint>::empty(),
            r.mounted_root_index@ == Map::<u64, u64>::empty(),
            r.files@.len() == 0,
            r.open_files@ == Map::<OpenFileKey, FileId>::empty(),
            r.next_filesystem_id == 1,
            r.next_handle_id == 1,
            r.drivers.capacity() == 0,
            r.mounts.capacity() == 0,
            r.mounted_root_index.capacity() == 0,
            r.open_files.capacity() == 0,
    {
        let ghost history = instance.filesystem.history();
        let mut inodes: Vec<Inode> = Vec::new();
        inodes.push(root.adopt(0));
        let mut directories: Vec<Directory> = Vec::new();
        directories.push(Directory::new_root(0));
        let mut volumes: Vec<Volume> = Vec::new();
        volumes.push(Volume { filesystem_id: 0, instance });
        let r = VirtualFileSystem {
            namespace: Namespace { inodes, directories, volumes, root: 0 },
            drivers: KernelHashMap::new(),
            mounts: KernelHashMap::new(),
            mounted_root_index: KernelHashMap::new(),
            files: Vec::new(),
            open_files: KernelHashMap::new(),
            next_filesystem_id: 1,
            next_handle_id: 1,
        };
        proof {
            let model = NamespaceModel {
                inodes: seq![root.adopted(0)],
                directories: seq![
                    DirectoryModel { inode: 0, children: None, parent: None, mount_root: None },
                ],
                histories: seq![history],
                ids: seq![0u64],
                root: 0,
            };
            assert(r.namespace@.inodes =~= model.inodes);
            assert(r.namespace@.directories =~= model.directories);
            assert(r.namespace@.histories =~= model.histories);
            assert(r.namespace@.ids =~= model.ids);
            assert(r.namespace@ =~= model);
            reveal(NamespaceModel::tree_wf);
        }
        r
    }

    /// Registers a driver under its name, in place of one that has the same
    /// name.
    pub fn register_driver(&mut self, driver: Box<dyn FileSystemDriver>)
        requires
            old(self).wf(),
            old(self).drivers.can_grow(),
        ensures
            final(self).wf(),
            final(self).drivers@ == old(self).drivers@.insert(driver.driver_name(), driver),
            old(self).drivers.made_room(
                &final(self).drivers,
                old(self).drivers@.contains_key(driver.driver_name()),
            ),
            final(self).namespace == old(self).namespace,
            final(self).mounts == old(self).mounts,
            final(self).mounted_root_index == old(self).mounted_root_index,
            final(self).files == old(self).files,
            final(self).open_files == old(self).open_files,
            final(self).next_filesystem_id == old(self).next_filesystem_id,
            final(self).next_handle_id == old(self).next_handle_id,
    {
        let name: &'static str = driver.name();
        let _ = self.drivers.insert(name, driver);
    }

    /// Resolves a path with a symlink budget.
    fn resolve_place(
        &mut self,
        path: &str,
        working_directory: Option<DirectoryId>,
        follow_symlinks: bool,
        symlink_budget: u8,
    ) -> (r: Result<Place, FileSystemError>)
        requires
            old(self).wf(),
            wd_wf(old(self).namespace@, working_directory),
        ensures
            final(self).wf(),
            final(self).same_tables(old(self)),
            grew(old(self).namespace@, final(self).namespace@),
            path_walks(
                old(self).namespace@,
                final(self).namespace@,
                path@,
                working_directory,
                follow_symlinks,
                symlink_budget as nat,
                r,
            ),
            r matches Ok(place) ==> place.wf(final(self).namespace@),
    {
        let ghost o = self.namespace@;
        proof {
            grew_refl(o);
        }
        if path.unicode_len() == 0 {
            return Err(FileSystemError::InvalidPath);
        }
        let start: DirectoryId = if path.get_char(0) == '/' {
            self.namespace.root
        } else {
            match working_directory {
                Some(d) => d,
                None => self.namespace.root,
            }
        };
        let names: Vec<String> = split_path(path);
        let ghost before = *self;
        let r = self.namespace.walk(start, &names, follow_symlinks, symlink_budget);
        proof {
            lemma_grew_same_mounts(o, self.namespace@);
            lemma_tables_wf(&before, &*self);
        }
        r
    }

    /// Resolves a path to an inode with a symlink budget.
    pub fn resolve_with_budget(
        &mut self,
        path: &str,
        working_directory: Option<DirectoryId>,
        follow_symlinks: bool,
        symlink_budget: u8,
    ) -> (r: Result<InodeId, FileSystemError>)
        requires
            old(self).wf(),
            wd_wf(old(self).namespace@, working_directory),
        ensures
            final(self).wf(),
            final(self).same_tables(old(self)),
            grew(old(self).namespace@, final(self).namespace@),
            resolves(
                old(self).namespace@,
                final(self).namespace@,
                path@,
                working_directory,
                follow_symlinks,
                symlink_budget as nat,
                r,
            ),
            r matches Ok(id) ==> id < final(self).namespace@.inodes.len(),
    {
        let w = self.resolve_place(path, working_directory, follow_symlinks, symlink_budget);
        match w {
            Ok(Place::Directory(d)) => {
                assert(self.namespace@.dir_wf(d));
                Ok(self.namespace.directories[d].inode)
            },
            Ok(Place::Object(id)) => Ok(id),
            Err(e) => Err(e),
        }
    }

    /// Resolves a path to an inode. `follow_symlinks` says whether a symlink
    /// as the last name is followed.
    pub fn resolve(
        &mut self,
        path: &str,
        working_directory: Option<DirectoryId>,
        follow_symlinks: bool,
    ) -> (r: Result<InodeId, FileSystemError>)
        requires
            old(self).wf(),
            wd_wf(old(self).namespace@, working_directory),
        ensures
            final(self).wf(),
            final(self).same_tables(old(self)),
            grew(old(self).namespace@, final(self).namespace@),
            resolves(
                old(self).namespace@,
                final(self).namespace@,
                path@,
                working_directory,
                follow_symlinks,
                MAX_SYMLINK_DEPTH as nat,
                r,
            ),
            r matches Ok(id) ==> id < final(self).namespace@.inodes.len(),
    {
        self.resolve_with_budget(path, working_directory, follow_symlinks, MAX_SYMLINK_DEPTH)
    }

    /// Resolves a path to a directory with a symlink budget.
    pub fn resolve_dir_with_budget(
        &mut self,
        path: &str,
        working_directory: Option<DirectoryId>,
        symlink_budget: u8,
    ) -> (r: Result<DirectoryId, FileSystemError>)
        requires
            old(self).wf(),
            wd_wf(old(self).namespace@, working_directory),
        ensures
            final(self).wf(),
            final(self).same_tables(old(self)),
            grew(old(self).namespace@, final(self).namespace@),
            resolves_dir(
                old(self).namespace@,
                final(self).namespace@,
                path@,
                working_directory,
                symlink_budget as nat,
                r,
            ),
            r matches Ok(d) ==> final(self).namespace@.is_dir(d),
    {
        let w = self.resolve_place(path, working_directory, false, symlink_budget);
        self.walk_to_directory(w)
    }

    /// Turns the place that a path led to into a directory.
    fn walk_to_directory(&self, w: Result<Place, FileSystemError>) -> (r: Result<
        DirectoryId,
        FileSystemError,
    >)
        requires
            self.wf(),
            w matches Ok(place) ==> place.wf(self.namespace@),
        ensures
            r == as_directory(self.namespace@, w),
            r matches Ok(d) ==> self.namespace@.is_dir(d),
    {
        match w {
            Ok(Place::Directory(d)) => {
                assert(self.namespace@.dir_wf(d));
                if self.namespace.inodes[self.namespace.directories[d].inode].is_directory() {
                    Ok(d)
                } else {
                    Err(FileSystemError::NotADirectory)
                }
            },
            Ok(Place::Object(_)) => Err(FileSystemError::NotADirectory),
            Err(e) => Err(e),
        }
    }
}

/// `s` has the directories of `o`, mounted in the same places, and the same
/// inodes under the same names.
pub open spec fn same_mounts(o: NamespaceModel, s: NamespaceModel) -> bool {
    &&& s.ids == o.ids
    &&& o.inodes.len() <= s.inodes.len()
    &&& forall|i: int|
        0 <= i < o.inodes.len() ==> (#[trigger] s.inodes[i]).filesystem == o.inodes[i].filesystem
            && s.inodes[i].inode_number == o.inodes[i].inode_number
    &&& o.directories.len() <= s.directories.len()
    &&& forall|d: DirectoryId| #[trigger]
        o.is_dir(d) ==> s.directories[d as int].inode == o.directories[d as int].inode
            && s.directories[d as int].mount_root == o.directories[d as int].mount_root && s.host(d)
            == o.host(d)
    &&& forall|d: DirectoryId| #[trigger]
        s.is_dir(d) && !o.is_dir(d) ==> s.directories[d as int].mount_root is None && s.host(d) == d
}

/// What drivers answer does not change the mounts.
pub proof fn lemma_grew_same_mounts(o: NamespaceModel, s: NamespaceModel)
    requires
        o.wf(),
        s.wf(),
        grew(o, s),
    ensures
        same_mounts(o, s),
{
    assert forall|d: DirectoryId| #[trigger] o.is_dir(d) implies s.directories[d as int].inode
        == o.directories[d as int].inode && s.directories[d as int].mount_root
        == o.directories[d as int].mount_root && s.host(d) == o.host(d) by {
        assert(s.is_dir(d));
        assert(dir_grew(o, s, d));
        assert(o.dir_wf(d));
        if let Some(p) = o.directories[d as int].parent {
            assert(s.is_dir(p));
            assert(dir_grew(o, s, p));
        }
    }
    assert forall|d: DirectoryId| #[trigger]
        s.is_dir(d) && !o.is_dir(d) implies s.directories[d as int].mount_root is None && s.host(d)
        == d by {
        assert(dir_new(o, s, d));
        assert(s.dir_wf(d));
        let p = s.directories[d as int].parent->0;
        assert(s.is_dir(p));
        if o.is_dir(p) {
            assert(dir_grew(o, s, p));
            assert(o.dir_wf(p));
        } else {
            assert(dir_new(o, s, p));
        }
    }
}

/// Changing what directories list, and what inodes say of their contents, does
/// not change the mounts.
pub proof fn lemma_reshaped_same_mounts(o: NamespaceModel, s: NamespaceModel)
    requires
        o.wf(),
        reshaped(o, s),
        forall|i: int|
            0 <= i < o.inodes.len() ==> (#[trigger] s.inodes[i]).inode_number
                == o.inodes[i].inode_number,
    ensures
        same_mounts(o, s),
{
    assert forall|d: DirectoryId| #[trigger] o.is_dir(d) implies s.directories[d as int].inode
        == o.directories[d as int].inode && s.directories[d as int].mount_root
        == o.directories[d as int].mount_root && s.host(d) == o.host(d) by {
        assert(s.is_dir(d));
        assert(o.dir_wf(d));
        if let Some(p) = o.directories[d as int].parent {
            assert(s.is_dir(p));
        }
    }
}

/// The tables stay sound while the mounts stay the same.
pub proof fn lemma_tables_wf(before: &VirtualFileSystem, after: &VirtualFileSystem)
    requires
        before.wf(),
        after.namespace@.wf(),
        after.same_tables(before),
        same_mounts(before.namespace@, after.namespace@),
    ensures
        after.wf(),
{
    lemma_mounts_wf(before, after);
    let o = before.namespace@;
    let s = after.namespace@;
    assert forall|key: OpenFileKey| #[trigger]
        after.open_files@.contains_key(key) implies after.open_files@[key] < after.files@.len()
        && key == key_of(s, after.files@[after.open_files@[key] as int].inode) by {
        let id = after.files@[after.open_files@[key] as int].inode;
        assert(s.inodes[id as int].filesystem == o.inodes[id as int].filesystem);
    }
}

/// The mount table stays sound while the mounts stay the same.
pub proof fn lemma_mounts_wf(before: &VirtualFileSystem, after: &VirtualFileSystem)
    requires
        before.wf(),
        after.namespace@.wf(),
        after.mounts == before.mounts,
        after.mounted_root_index == before.mounted_root_index,
        same_mounts(before.namespace@, after.namespace@),
    ensures
        after.mounts_wf(),
{
    let o = before.namespace@;
    let s = after.namespace@;
    assert forall|h: u64| #[trigger] after.mounts@.contains_key(h) <==> h < s.directories.len()
        && s.directories[h as int].mount_root is Some by {
        if h < s.directories.len() {
            let d = h as DirectoryId;
            assert(s.is_dir(d));
            if h < o.directories.len() {
                assert(o.is_dir(d));
            } else {
                assert(!o.is_dir(d));
            }
        }
    }
    assert forall|h: u64| #[trigger] after.mounts@.contains_key(h) implies {
        let m = after.mounts@[h];
        &&& m.host_directory == h
        &&& s.directories[h as int].mount_root == Some(m.mounted_root)
        &&& m.instance == s.volume_of(m.mounted_root)
        &&& m.filesystem_id == s.ids[m.instance as int]
    } by {
        let m = after.mounts@[h];
        let d = h as DirectoryId;
        assert(o.is_dir(d));
        assert(o.dir_wf(d));
        assert(o.is_dir(m.mounted_root));
        assert(o.dir_wf(m.mounted_root));
        let id = o.directories[m.mounted_root as int].inode;
        assert(s.inodes[id as int].filesystem == o.inodes[id as int].filesystem);
    }
    assert forall|m: u64| #[trigger]
        after.mounted_root_index@.contains_key(m) <==> m < s.directories.len() && s.host(
            m as DirectoryId,
        ) != m by {
        if m < s.directories.len() {
            let d = m as DirectoryId;
            assert(s.is_dir(d));
            if m < o.directories.len() {
                assert(o.is_dir(d));
            } else {
                assert(!o.is_dir(d));
            }
        }
    }
    assert forall|m: u64| #[trigger]
        after.mounted_root_index@.contains_key(m) implies after.mounted_root_index@[m] == s.host(
        m as DirectoryId,
    ) by {
        assert(o.is_dir(m as DirectoryId));
    }
}

/// Where drivers give the same answer whenever they are asked the same, a path
/// resolves to one inode and to one directory, or fails with one error.
pub proof fn resolution_is_unique(
    o: NamespaceModel,
    s: NamespaceModel,
    path: Seq<char>,
    working_directory: Option<DirectoryId>,
    follow: bool,
    budget: nat,
)
    requires
        s.wf(),
        wd_wf(s, working_directory),
        steady(o, s),
    ensures
        forall|r: Result<InodeId, FileSystemError>, q: Result<InodeId, FileSystemError>|
            #[trigger] resolves(o, s, path, working_directory, follow, budget, r)
                && #[trigger] resolves(o, s, path, working_directory, follow, budget, q) ==> r == q,
        forall|r: Result<DirectoryId, FileSystemError>, q: Result<DirectoryId, FileSystemError>|
            #[trigger] resolves_dir(o, s, path, working_directory, budget, r)
                && #[trigger] resolves_dir(o, s, path, working_directory, budget, q) ==> r == q,
{
    assert forall|
        f: bool,
        r: Result<Place, FileSystemError>,
        q: Result<Place, FileSystemError>,
    |
        #[trigger] path_walks(o, s, path, working_directory, f, budget, r) && #[trigger] path_walks(
            o,
            s,
            path,
            working_directory,
            f,
            budget,
            q,
        ) implies r == q by {
        if path.len() > 0 {
            walks_lead_to_one_place(
                o,
                s,
                start_of(s, path, working_directory),
                components(path),
                f,
                budget,
                r,
                q,
            );
        }
    }
}

/// The path of a directory, the name of a directory in it, and `..` resolve to
/// what the path resolves to, if nothing is mounted on the latter, and drivers
/// give the same answer whenever they are asked the same.
pub proof fn parent_of_name_is_the_directory(
    o: NamespaceModel,
    s: NamespaceModel,
    path: Seq<char>,
    name: Seq<char>,
    working_directory: Option<DirectoryId>,
    follow: bool,
    budget: nat,
    d: DirectoryId,
    id: InodeId,
    r: Result<InodeId, FileSystemError>,
)
    requires
        s.wf(),
        wd_wf(s, working_directory),
        steady(o, s),
        resolves_dir(o, s, path, working_directory, budget, Ok(d)),
        is_name(name),
        name != dot(),
        name != dot_dot(),
        leads_to(s, d, name, DirectoryEntryType::Directory, id),
        !s.inodes[id as int].mount_flag,
        resolves(
            o,
            s,
            path + seq!['/'] + name + seq!['/'] + dot_dot(),
            working_directory,
            follow,
            budget,
            r,
        ),
    ensures
        r == Ok::<InodeId, FileSystemError>(s.directories[d as int].inode),
        resolves(o, s, path, working_directory, false, budget, r),
{
    let longer = path + seq!['/'] + name + seq!['/'] + dot_dot();
    let u = choose|u: Result<Place, FileSystemError>|
        #[trigger] path_walks(o, s, path, working_directory, false, budget, u) && Ok::<
            DirectoryId,
            FileSystemError,
        >(d) == as_directory(s, u);
    assert(u == Ok::<Place, FileSystemError>(Place::Directory(d)));
    let w = choose|w: Result<Place, FileSystemError>|
        #[trigger] path_walks(o, s, longer, working_directory, follow, budget, w) && r == match w {
            Ok(place) => Ok::<InodeId, FileSystemError>(place.inode_in(s)),
            Err(e) => Err(e),
        };
    components_join(path + seq!['/'] + name, dot_dot());
    components_join(path, name);
    components_of_name(name);
    components_of_name(dot_dot());
    assert(components(longer) =~= components(path) + there_and_back(name));
    assert(longer[0] == path[0]);
    let start = start_of(s, path, working_directory);
    assert(start_of(s, longer, working_directory) == start);
    assert(s.is_dir(s.root));
    dot_dot_only_leads_back(
        o,
        s,
        start,
        components(path),
        name,
        follow,
        budget,
        d,
        id,
        w,
    );
    assert(path_walks(o, s, path, working_directory, false, budget, u));
}

} // verus!

//! Creating files, directories and symlinks.

use vstd::prelude::*;

use super::directory::{added_child_is_found, has_child, lemma_child_index, Directory, DirectoryId};
use super::driver::DriverCall;
use super::inode::{DirectoryEntry, EntryModel, Inode, InodeId, VolumeId};
use super::lookup::{entry_is_resolved, lemma_resolves_earlier, only_the_entry_is_resolved};
use super::namespace::{
    asked, grew, grew_trans, lemma_call_shows, lemma_reshaped_wf, reshaped, Namespace,
    NamespaceModel,
};
use super::path::{
    components, dot, dot_dot, name_of, parent_and_name, parent_of, split_parent_and_name,
};
use super::resolver::{
    extends, grew_keeps, keeps, leads_to, lemma_entry_in_range, path_walks, start_of, steady,
    walks_keep, Place, MAX_SYMLINK_DEPTH,
};
use super::types::{DirectoryEntryType, FileSystemError, Permissions, Timestamps};
use super::vfs::{
    as_directory, lemma_grew_same_mounts, lemma_reshaped_same_mounts, lemma_tables_wf, resolves,
    resolves_dir, wd_wf, VirtualFileSystem,
};

verus! {

/// What is to be created.
pub enum NewObject<'a> {
    File(Permissions),
    Directory(Permissions),
    /// A symlink with this target.
    Symlink(&'a str),
}

impl<'a> NewObject<'a> {
    pub open spec fn entry_type(&self) -> DirectoryEntryType {
        match self {
            NewObject::File(_) => DirectoryEntryType::File,
            NewObject::Directory(_) => DirectoryEntryType::Directory,
            NewObject::Symlink(_) => DirectoryEntryType::Symlink,
        }
    }

    /// The request to the driver.
    pub open spec fn call(
        &self,
        parent: Inode,
        name: Seq<char>,
        now: u64,
        reply: Result<Inode, FileSystemError>,
    ) -> DriverCall {
        let timestamps = Timestamps { created: now, modified: now, accessed: now };
        match self {
            NewObject::File(permissions) => DriverCall::CreateFile {
                parent,
                name,
                permissions: *permissions,
                timestamps,
                reply,
            },
            NewObject::Directory(permissions) => DriverCall::CreateDirectory {
                parent,
                name,
                permissions: *permissions,
                timestamps,
                reply,
            },
            NewObject::Symlink(target) => DriverCall::CreateSymlink {
                parent,
                name,
                target: target@,
                timestamps,
                reply,
            },
        }
    }
}

/// The namespace after the driver answered a request to create something in
/// directory `d`. On success the directory has one more entry, and its inode
/// is in memory.
pub open spec fn after_create(
    n: NamespaceModel,
    d: DirectoryId,
    name: Seq<char>,
    entry_type: DirectoryEntryType,
    call: DriverCall,
    reply: Result<Inode, FileSystemError>,
) -> NamespaceModel {
    let called = n.with_call(n.volume_of(d), call);
    match reply {
        Ok(record) => NamespaceModel {
            inodes: n.inodes.push(record.adopted(n.volume_of(d))),
            ..called.with_children(
                d,
                n.directories[d as int].children->0.push(
                    EntryModel {
                        name,
                        inode_number: record.inode_number,
                        entry_type,
                        inode: Some(n.inodes.len() as InodeId),
                    },
                ),
            )
        },
        Err(_) => called,
    }
}

/// What creating something under a name in directory `d` of namespace `n` comes
/// to: it fails if the directory cannot be listed or has the name, and else
/// the driver decides.
pub open spec fn creates_in(
    o: NamespaceModel,
    n: NamespaceModel,
    s: NamespaceModel,
    d: DirectoryId,
    name: Seq<char>,
    object: NewObject,
    now: u64,
    r: Result<InodeId, FileSystemError>,
) -> bool {
    match n.directories[d as int].children {
        None => s == n && (r matches Err(e) && asked(
            o,
            n,
            n.volume_of(d),
            DriverCall::ReadDir { directory: n.inode_of(d), reply: Err(e) },
        )),
        Some(list) => if has_child(list, name) {
            s == n && r == Err::<InodeId, FileSystemError>(FileSystemError::AlreadyExists)
        } else {
            exists|reply: Result<Inode, FileSystemError>|
                s == after_create(
                    n,
                    d,
                    name,
                    object.entry_type(),
                    #[trigger] object.call(n.inode_of(d), name, now, reply),
                    reply,
                ) && r == match reply {
                    Ok(_) => Ok::<InodeId, FileSystemError>(n.inodes.len() as InodeId),
                    Err(e) => Err(e),
                }
        },
    }
}

/// What creating something at a path comes to: the path of its parent resolves
/// in some namespace `n` that the old one grew to, and the rest happens there.
pub open spec fn creates(
    o: NamespaceModel,
    s: NamespaceModel,
    path: Seq<char>,
    working_directory: Option<DirectoryId>,
    object: NewObject,
    now: u64,
    r: Result<InodeId, FileSystemError>,
) -> bool {
    match parent_and_name(path) {
        None => s == o && r == Err::<InodeId, FileSystemError>(FileSystemError::InvalidPath),
        Some((parent, name)) => exists|n: NamespaceModel, q: Result<DirectoryId, FileSystemError>|
            grew(o, n) && n.wf() && #[trigger] resolves_dir(
                o,
                n,
                parent,
                working_directory,
                MAX_SYMLINK_DEPTH as nat,
                q,
            ) && match q {
                Err(e) => s == n && r == Err::<InodeId, FileSystemError>(e),
                Ok(d) => n.is_dir(d) && creates_in(o, n, s, d, name, object, now, r),
            },
    }
}

proof fn lemma_after_create(
    n: NamespaceModel,
    d: DirectoryId,
    name: Seq<char>,
    entry_type: DirectoryEntryType,
    call: DriverCall,
    reply: Result<Inode, FileSystemError>,
)
    requires
        n.wf(),
        n.is_dir(d),
        n.directories[d as int].children is Some,
        reply is Ok ==> n.inodes.len() < usize::MAX,
    ensures
        after_create(n, d, name, entry_type, call, reply).wf(),
        reshaped(n, after_create(n, d, name, entry_type, call, reply)),
        forall|i: int|
            0 <= i < n.inodes.len() ==> #[trigger] after_create(
                n,
                d,
                name,
                entry_type,
                call,
                reply,
            ).inodes[i] == n.inodes[i],
{
    let s = after_create(n, d, name, entry_type, call, reply);
    assert(n.dir_wf(d));
    assert(n.inodes[n.directories[d as int].inode as int].filesystem < n.histories.len());
    assert forall|x: DirectoryId| #[trigger] s.is_dir(x) implies {
        &&& s.directories[x as int].inode == n.directories[x as int].inode
        &&& s.directories[x as int].mount_root == n.directories[x as int].mount_root
        &&& s.directories[x as int].parent == n.directories[x as int].parent
        &&& s.directories[x as int].children matches Some(list) ==> s.entries_wf(
            s.volume_of(x),
            list,
        )
    } by {
        assert(n.is_dir(x));
        assert(n.dir_wf(x));
        assert(s.inode_of(x) == n.inode_of(x));
        if let Some(before) = n.directories[x as int].children {
            let list = s.directories[x as int].children->0;
            assert forall|i: int| 0 <= i < list.len() implies ((
            #[trigger] list[i]).inode matches Some(id) ==> id < s.inodes.len()
                && s.inodes[id as int].filesystem == s.volume_of(x)) by {
                if i < before.len() {
                    assert(list[i] == before[i]);
                }
            }
        }
    }
    if let Ok(record) = reply {
        let entry = EntryModel {
            name,
            inode_number: record.inode_number,
            entry_type,
            inode: Some(n.inodes.len() as InodeId),
        };
        let next = n.with_children(d, n.directories[d as int].children->0.push(entry));
        assert(s.directories == next.directories);
    }
    lemma_tree_created(n, s, d);
    lemma_reshaped_wf(n, s);
}

/// A new entry stands for a new inode, or there is none.
pub proof fn lemma_tree_created(n: NamespaceModel, s: NamespaceModel, d: DirectoryId)
    requires
        n.wf(),
        n.is_dir(d),
        n.inodes.is_prefix_of(s.inodes),
        s.directories == n.directories || (n.directories[d as int].children is Some
            && exists|entry: EntryModel|
            s.directories == (#[trigger] n.with_children(
                d,
                n.directories[d as int].children->0.push(entry),
            )).directories && (entry.inode matches Some(id) ==> n.inodes.len() <= id)),
    ensures
        s.tree_wf(),
{
    reveal(NamespaceModel::tree_wf);
    assert forall|x: DirectoryId, i: int, id: InodeId| #[trigger]
        s.lists_directory(x, i, id) implies (x == d && i == n.directories[d as int].children->0.len()
        && n.inodes.len() <= id) || (id < n.inodes.len() && n.lists_directory(x, i, id)) by {
        assert(n.is_dir(x));
        assert(n.dir_wf(x));
        let before = n.directories[x as int].children->0;
        if i < before.len() {
            assert(s.directories[x as int].children->0[i] == before[i]);
            assert(before[i].inode == Some(id));
            assert(s.inodes[id as int] == n.inodes[id as int]);
        }
    }
    assert forall|x: DirectoryId, i: int, id: InodeId, c: DirectoryId|
        #[trigger] s.lists_directory(x, i, id) && #[trigger] s.is_dir(c)
            && s.directories[c as int].inode == id implies s.directories[c as int].parent == Some(x)
        && s.directories[x as int].mount_root != Some(c) by {
        assert(n.is_dir(c));
        assert(n.dir_wf(c));
        assert(n.is_dir(x));
    }
}

impl Namespace {
    /// Checks if a directory has an entry with the name.
    pub fn has_name(&mut self, d: DirectoryId, name: &str) -> (r: Result<bool, FileSystemError>)
        requires
            old(self)@.wf(),
            old(self)@.is_dir(d),
        ensures
            final(self)@.wf(),
            grew(old(self)@, final(self)@),
            final(self)@.is_dir(d),
            final(self)@.inodes == old(self)@.inodes,
            match final(self)@.directories[d as int].children {
                None => r matches Err(e) && asked(
                    old(self)@,
                    final(self)@,
                    final(self)@.volume_of(d),
                    DriverCall::ReadDir { directory: final(self)@.inode_of(d), reply: Err(e) },
                ),
                Some(list) => r matches Ok(found) && found == has_child(list, name@),
            },
    {
        match self.list_children(d) {
            Ok(_) => {},
            Err(e) => {
                return Err(e);
            },
        }
        match &self.directories[d].children {
            Some(list) => Ok(Directory::position(list, name) < list.len()),
            None => Err(FileSystemError::InternalError),
        }
    }

    /// Asks the driver to create something in a directory, and adds it to the
    /// directory if that succeeds.
    pub fn create_in(
        &mut self,
        d: DirectoryId,
        name: &str,
        object: &NewObject,
        now: u64,
    ) -> (r: Result<InodeId, FileSystemError>)
        requires
            old(self)@.wf(),
            old(self)@.is_dir(d),
            old(self)@.directories[d as int].children is Some,
        ensures
            exists|reply: Result<Inode, FileSystemError>|
                final(self)@ == after_create(
                    old(self)@,
                    d,
                    name@,
                    object.entry_type(),
                    #[trigger] object.call(old(self)@.inode_of(d), name@, now, reply),
                    reply,
                ) && r == match reply {
                    Ok(_) => Ok::<InodeId, FileSystemError>(old(self)@.inodes.len() as InodeId),
                    Err(e) => Err(e),
                },
            final(self)@.wf(),
            reshaped(old(self)@, final(self)@),
            forall|i: int|
                0 <= i < old(self)@.inodes.len() ==> #[trigger] final(self)@.inodes[i] == old(
                    self,
                )@.inodes[i],
    {
        let ghost n = self@;
        let ghost before = *self;
        assert(n.dir_wf(d));
        let parent: Inode = self.inodes[self.directories[d].inode];
        let v: VolumeId = parent.filesystem;
        assert(n.inodes[n.directories[d as int].inode as int].filesystem < n.histories.len());
        let timestamps = Timestamps::new(now);
        let (reply, entry_type) = match object {
            NewObject::File(permissions) => (
                self.volumes[v].instance.filesystem.create_file(
                    &parent,
                    name,
                    *permissions,
                    timestamps,
                ),
                DirectoryEntryType::File,
            ),
            NewObject::Directory(permissions) => (
                self.volumes[v].instance.filesystem.create_directory(
                    &parent,
                    name,
                    *permissions,
                    timestamps,
                ),
                DirectoryEntryType::Directory,
            ),
            NewObject::Symlink(target) => (
                self.volumes[v].instance.filesystem.create_symlink(
                    &parent,
                    name,
                    target,
                    timestamps,
                ),
                DirectoryEntryType::Symlink,
            ),
        };
        let ghost call = object.call(parent, name@, now, reply);
        proof {
            lemma_call_shows(before, *self, v, call);
        }
        let ghost called = *self;
        match reply {
            Err(e) => {
                proof {
                    lemma_after_create(n, d, name@, entry_type, call, reply);
                }
                Err(e)
            },
            Ok(record) => {
                let id: InodeId = self.inodes.len();
                self.inodes.push(record.adopt(v));
                let entry = DirectoryEntry::with_inode(
                    name.to_owned(),
                    record.inode_number,
                    entry_type,
                    id,
                );
                let ghost model = entry@;
                let added = self.directories[d].add_child(
                    &parent,
                    &mut self.volumes[v].instance.filesystem,
                    entry,
                );
                proof {
                    assert(self.inodes.len() <= usize::MAX);
                    lemma_after_create(n, d, name@, entry_type, call, reply);
                    let s = after_create(n, d, name@, entry_type, call, reply);
                    assert(self@.inodes =~= s.inodes);
                    assert(self@.directories =~= s.directories);
                    assert(self@.histories =~= s.histories);
                    assert(self@.ids =~= s.ids);
                    assert(self@ =~= s);
                }
                Ok(id)
            },
        }
    }
}

impl VirtualFileSystem {
    /// Creates something at a path.
    fn create(
        &mut self,
        path: &str,
        object: NewObject,
        working_directory: Option<DirectoryId>,
        now: u64,
    ) -> (r: Result<InodeId, FileSystemError>)
        requires
            old(self).wf(),
            wd_wf(old(self).namespace@, working_directory),
        ensures
            final(self).wf(),
            final(self).same_tables(old(self)),
            creates(
                old(self).namespace@,
                final(self).namespace@,
                path@,
                working_directory,
                object,
                now,
                r,
            ),
    {
        let ghost o = self.namespace@;
        let (parent_path, name) = match split_parent_and_name(path) {
            Ok(split) => split,
            Err(e) => {
                return Err(e);
            },
        };
        let q = self.resolve_dir_with_budget(parent_path, working_directory, MAX_SYMLINK_DEPTH);
        let d: DirectoryId = match q {
            Ok(d) => d,
            Err(e) => {
                return Err(e);
            },
        };
        let ghost m = self.namespace@;
        let ghost resolved = *self;
        let known = self.namespace.has_name(d, name);
        let ghost n = self.namespace@;
        proof {
            grew_trans(o, m, n);
            lemma_resolves_dir_later(
                o,
                m,
                n,
                parent_path@,
                working_directory,
                MAX_SYMLINK_DEPTH as nat,
                d,
            );
            lemma_grew_same_mounts(m, n);
            lemma_tables_wf(&resolved, &*self);
            assert(n.dir_wf(d));
            let v = n.volume_of(d);
            assert(n.inodes[n.directories[d as int].inode as int].filesystem < n.histories.len());
            assert(o.histories[v as int].is_prefix_of(m.histories[v as int]));
            assert(m.histories[v as int].is_prefix_of(n.histories[v as int]));
        }
        match known {
            Err(e) => {
                proof {
                    super::namespace::lemma_asked_later(
                        o,
                        m,
                        n,
                        n.volume_of(d),
                        DriverCall::ReadDir { directory: n.inode_of(d), reply: Err(e) },
                    );
                }
                Err(e)
            },
            Ok(true) => Err(FileSystemError::AlreadyExists),
            Ok(false) => {
                let ghost listed = *self;
                let r = self.namespace.create_in(d, name, &object, now);
                proof {
                    lemma_reshaped_same_mounts(n, self.namespace@);
                    lemma_tables_wf(&listed, &*self);
                    assert(creates_in(o, n, self.namespace@, d, name@, object, now, r));
                }
                r
            },
        }
    }

    /// Creates a regular file.
    pub fn create_file(
        &mut self,
        path: &str,
        permissions: Permissions,
        working_directory: Option<DirectoryId>,
        now: u64,
    ) -> (r: Result<InodeId, FileSystemError>)
        requires
            old(self).wf(),
            wd_wf(old(self).namespace@, working_directory),
        ensures
            final(self).wf(),
            final(self).same_tables(old(self)),
            creates(
                old(self).namespace@,
                final(self).namespace@,
                path@,
                working_directory,
                NewObject::File(permissions),
                now,
                r,
            ),
    {
        self.create(path, NewObject::File(permissions), working_directory, now)
    }

    /// Creates a directory.
    pub fn create_directory(
        &mut self,
        path: &str,
        permissions: Permissions,
        working_directory: Option<DirectoryId>,
        now: u64,
    ) -> (r: Result<InodeId, FileSystemError>)
        requires
            old(self).wf(),
            wd_wf(old(self).namespace@, working_directory),
        ensures
            final(self).wf(),
            final(self).same_tables(old(self)),
            creates(
                old(self).namespace@,
                final(self).namespace@,
                path@,
                working_directory,
                NewObject::Directory(permissions),
                now,
                r,
            ),
    {
        self.create(path, NewObject::Directory(permissions), working_directory, now)
    }

    /// Creates a symlink that points to `target`, which must not be empty.
    pub fn create_symlink(
        &mut self,
        path: &str,
        target: &str,
        working_directory: Option<DirectoryId>,
        now: u64,
    ) -> (r: Result<InodeId, FileSystemError>)
        requires
            old(self).wf(),
            wd_wf(old(self).namespace@, working_directory),
        ensures
            final(self).wf(),
            final(self).same_tables(old(self)),
            if target@.len() == 0 {
                r == Err::<InodeId, FileSystemError>(FileSystemError::InvalidPath)
                    && final(self).namespace@ == old(self).namespace@
            } else {
                creates(
                    old(self).namespace@,
                    final(self).namespace@,
                    path@,
                    working_directory,
                    NewObject::Symlink(target),
                    now,
                    r,
                )
            },
    {
        if target.is_empty() {
            return Err(FileSystemError::InvalidPath);
        }
        self.create(path, NewObject::Symlink(target), working_directory, now)
    }
}

/// A path that resolved to a directory still does when the namespace grows.
pub proof fn lemma_resolves_dir_later(
    o: NamespaceModel,
    m: NamespaceModel,
    n: NamespaceModel,
    path: Seq<char>,
    working_directory: Option<DirectoryId>,
    budget: nat,
    d: DirectoryId,
)
    requires
        o.wf(),
        m.wf(),
        n.wf(),
        grew(o, m),
        grew(m, n),
        wd_wf(o, working_directory),
        m.is_dir(d),
        resolves_dir(o, m, path, working_directory, budget, Ok(d)),
    ensures
        resolves_dir(o, n, path, working_directory, budget, Ok(d)),
{
    grew_keeps(m, n);
    let w = choose|w: Result<Place, FileSystemError>|
        #[trigger] path_walks(o, m, path, working_directory, false, budget, w) && Ok::<
            DirectoryId,
            FileSystemError,
        >(d) == as_directory(m, w);
    assert(w == Ok::<Place, FileSystemError>(Place::Directory(d)));
    let start = start_of(m, path, working_directory);
    assert(o.is_dir(o.root));
    assert(m.is_dir(start));
    walks_keep(o, m, n, start, components(path), false, budget, Place::Directory(d));
    assert(path_walks(o, n, path, working_directory, false, budget, w));
    assert(m.dir_wf(d));
    assert(n.inode_of(d) == m.inode_of(d));
}

/// What was created is found: the path of its parent still leads to the
/// directory, and there the new name leads to the new inode. The path of a new
/// file resolves to it, and so does that of a new symlink that is not
/// followed.
pub proof fn created_is_found(
    o: NamespaceModel,
    s: NamespaceModel,
    path: Seq<char>,
    working_directory: Option<DirectoryId>,
    object: NewObject,
    now: u64,
    id: InodeId,
    follow: bool,
)
    requires
        o.wf(),
        s.wf(),
        wd_wf(o, working_directory),
        creates(o, s, path, working_directory, object, now, Ok(id)),
    ensures
        parent_and_name(path) is Some,
        exists|d: DirectoryId|
            #[trigger] resolves_dir(
                o,
                s,
                parent_of(path),
                working_directory,
                MAX_SYMLINK_DEPTH as nat,
                Ok(d),
            ) && s.is_dir(d) && leads_to(s, d, name_of(path), object.entry_type(), id),
        id < s.inodes.len(),
        !s.inodes[id as int].mount_flag,
        extends(o, s),
        (object is File || (object is Symlink && !follow)) && name_of(path) != dot()
            && name_of(path) != dot_dot() ==> resolves(
            o,
            s,
            path,
            working_directory,
            follow,
            MAX_SYMLINK_DEPTH as nat,
            Ok(id),
        ),
{
    let (parent, name) = parent_and_name(path)->0;
    let budget = MAX_SYMLINK_DEPTH as nat;
    let (n, q) = choose|n: NamespaceModel, q: Result<DirectoryId, FileSystemError>|
        grew(o, n) && n.wf() && #[trigger] resolves_dir(
            o,
            n,
            parent,
            working_directory,
            budget,
            q,
        ) && match q {
            Err(e) => s == n && Ok::<InodeId, FileSystemError>(id) == Err::<
                InodeId,
                FileSystemError,
            >(e),
            Ok(d) => n.is_dir(d) && creates_in(o, n, s, d, name, object, now, Ok(id)),
        };
    let d = q->Ok_0;
    let list = n.directories[d as int].children->0;
    let reply = choose|reply: Result<Inode, FileSystemError>|
        s == after_create(
            n,
            d,
            name,
            object.entry_type(),
            #[trigger] object.call(n.inode_of(d), name, now, reply),
            reply,
        ) && Ok::<InodeId, FileSystemError>(id) == match reply {
            Ok(_) => Ok::<InodeId, FileSystemError>(n.inodes.len() as InodeId),
            Err(e) => Err(e),
        };
    let call = object.call(n.inode_of(d), name, now, reply);
    lemma_create_keeps(n, s, d, name, object.entry_type(), call, reply->Ok_0);
    lemma_dir_kept(o, n, s, parent, working_directory, budget, d);
    assert(parent == parent_of(path) && name == name_of(path));
    assert(resolves_dir(o, s, parent_of(path), working_directory, budget, Ok(d)));
    assert(s.is_dir(d) && leads_to(s, d, name_of(path), object.entry_type(), id));
    if (object is File || (object is Symlink && !follow)) && name != dot() && name != dot_dot() {
        entry_is_resolved(
            o,
            s,
            path,
            working_directory,
            follow,
            budget,
            d,
            object.entry_type(),
            id,
        );
    }
    assert forall|v: int| 0 <= v < o.histories.len() implies (
    #[trigger] o.histories[v]).is_prefix_of(s.histories[v]) by {
        assert(o.histories[v].is_prefix_of(n.histories[v]));
        assert(n.histories[v].is_prefix_of(s.histories[v]));
    }
}

/// Whoever resolves the path of what was created gets it: a file, a directory,
/// or a symlink that is not followed. Drivers have to give the same answer
/// whenever they are asked the same.
pub proof fn created_is_found_later(
    o: NamespaceModel,
    s: NamespaceModel,
    t: NamespaceModel,
    path: Seq<char>,
    working_directory: Option<DirectoryId>,
    object: NewObject,
    now: u64,
    id: InodeId,
    follow: bool,
    r: Result<InodeId, FileSystemError>,
)
    requires
        o.wf(),
        s.wf(),
        t.wf(),
        wd_wf(o, working_directory),
        creates(o, s, path, working_directory, object, now, Ok(id)),
        name_of(path) != dot(),
        name_of(path) != dot_dot(),
        object is Symlink ==> !follow,
        grew(s, t),
        steady(o, t),
        resolves(s, t, path, working_directory, follow, MAX_SYMLINK_DEPTH as nat, r),
    ensures
        r == Ok::<InodeId, FileSystemError>(id),
{
    let budget = MAX_SYMLINK_DEPTH as nat;
    created_is_found(o, s, path, working_directory, object, now, id, follow);
    let d = choose|d: DirectoryId|
        #[trigger] resolves_dir(
            o,
            s,
            parent_of(path),
            working_directory,
            budget,
            Ok(d),
        ) && s.is_dir(d) && leads_to(s, d, name_of(path), object.entry_type(), id);
    lemma_create_dirs(o, s, path, working_directory, object, now, id);
    grew_keeps(s, t);
    lemma_dir_kept(o, s, t, parent_of(path), working_directory, budget, d);
    lemma_resolves_earlier(o, s, t, path, working_directory, follow, budget, r);
    only_the_entry_is_resolved(
        o,
        t,
        path,
        working_directory,
        follow,
        budget,
        d,
        object.entry_type(),
        id,
        r,
    );
}

/// A working directory is still there.
proof fn lemma_create_dirs(
    o: NamespaceModel,
    s: NamespaceModel,
    path: Seq<char>,
    working_directory: Option<DirectoryId>,
    object: NewObject,
    now: u64,
    id: InodeId,
)
    requires
        wd_wf(o, working_directory),
        creates(o, s, path, working_directory, object, now, Ok(id)),
    ensures
        wd_wf(s, working_directory),
{
}

/// A path to a directory still leads there when no directory and no symlink has
/// been taken away.
pub proof fn lemma_dir_kept(
    o: NamespaceModel,
    s: NamespaceModel,
    t: NamespaceModel,
    path: Seq<char>,
    working_directory: Option<DirectoryId>,
    budget: nat,
    d: DirectoryId,
)
    requires
        s.wf(),
        keeps(s, t, false),
        extends(o, s),
        wd_wf(s, working_directory),
        s.is_dir(d),
        resolves_dir(o, s, path, working_directory, budget, Ok(d)),
    ensures
        resolves_dir(o, t, path, working_directory, budget, Ok(d)),
        wd_wf(t, working_directory),
{
    let place = Place::Directory(d);
    let w = Ok::<Place, FileSystemError>(place);
    assert(path_walks(o, s, path, working_directory, false, budget, w)) by {
        let u = choose|u: Result<Place, FileSystemError>|
            #[trigger] path_walks(o, s, path, working_directory, false, budget, u) && Ok::<
                DirectoryId,
                FileSystemError,
            >(d) == as_directory(s, u);
        assert(u == w);
    }
    let start = start_of(s, path, working_directory);
    assert(s.is_dir(s.root));
    walks_keep(o, s, t, start, components(path), false, budget, place);
    assert(start_of(t, path, working_directory) == start);
    assert(path_walks(o, t, path, working_directory, false, budget, w));
    assert(s.dir_wf(d));
    assert(t.inode_of(d) == s.inode_of(d));
    assert(as_directory(t, w) == as_directory(s, w));
}

/// Creating something under a free name takes nothing away.
proof fn lemma_create_keeps(
    n: NamespaceModel,
    s: NamespaceModel,
    d: DirectoryId,
    name: Seq<char>,
    entry_type: DirectoryEntryType,
    call: DriverCall,
    record: Inode,
)
    requires
        n.wf(),
        n.is_dir(d),
        n.directories[d as int].children matches Some(list) && !has_child(list, name),
        s == after_create(n, d, name, entry_type, call, Ok(record)),
    ensures
        keeps(n, s, true),
        leads_to(s, d, name, entry_type, n.inodes.len() as InodeId),
{
    let list = n.directories[d as int].children->0;
    let entry = EntryModel {
        name,
        inode_number: record.inode_number,
        entry_type,
        inode: Some(n.inodes.len() as InodeId),
    };
    assert(s.directories[d as int].children == Some(list.push(entry)));
    added_child_is_found(list, entry, name);
    assert forall|v: int| 0 <= v < n.histories.len() implies (
    #[trigger] n.histories[v]).is_prefix_of(s.histories[v]) by {}
    assert forall|x: DirectoryId| #[trigger] n.is_dir(x) implies s.inode_of(x) == n.inode_of(x) by {
        assert(n.dir_wf(x));
    }
    assert forall|x: DirectoryId, c: Seq<char>, t: DirectoryEntryType, k: InodeId|
        n.is_dir(x) && #[trigger] leads_to(n, x, c, t, k) implies leads_to(s, x, c, t, k)
        && s.inodes[k as int] == n.inodes[k as int] by {
        assert(n.dir_wf(x));
        lemma_entry_in_range(n, x, c, t, k);
        if x == d {
            lemma_child_index(list, c);
            added_child_is_found(list, entry, c);
        }
    }
}

} // verus!

//! Deleting.

use vstd::prelude::*;

use super::creation::{lemma_dir_kept, lemma_resolves_dir_later};
use super::directory::{
    child_index, has_child, lemma_child_index, lemma_child_index_is, listed, removed_child_is_gone,
    str_eq, swap_removed, unloaded, DirectoryId,
};
use super::driver::DriverCall;
use super::file::FileId;
use super::inode::{EntryModel, Inode, InodeId, VolumeId};
use super::lookup::{
    lemma_resolves_earlier, missing_name_is_not_found, missing_name_is_only_not_found,
};
use super::namespace::{
    child_found, dir_grew, entry_grew, grew, grew_refl, grew_trans, lemma_asked_later,
    lemma_call_shows, lemma_reshaped_wf, lemma_tree_kept, reshaped, Namespace, NamespaceModel,
};
use super::path::{
    dot, dot_dot, name_of, parent_and_name, parent_of, split_parent_and_name,
};
use super::resolver::{
    extends, grew_keeps, keeps, leads_to, lemma_entry_in_range, steady, types_agree,
    MAX_SYMLINK_DEPTH,
};
use super::types::{DirectoryEntryType, FileSystemError, OpenFileKey};
use super::vfs::{
    key_of, lemma_grew_same_mounts, lemma_reshaped_same_mounts, lemma_tables_wf, resolves,
    resolves_dir, wd_wf, VirtualFileSystem,
};

verus! {

/// A listing without the first entry of this name.
pub open spec fn without_child(list: Seq<EntryModel>, name: Seq<char>) -> Seq<EntryModel> {
    if has_child(list, name) {
        swap_removed(list, child_index(list, name))
    } else {
        list
    }
}

/// The inode that a last name stands for, in directory `d`. A directory that
/// has a volume mounted on it stands for itself.
pub open spec fn names_inode(
    o: NamespaceModel,
    n: NamespaceModel,
    d: DirectoryId,
    name: Seq<char>,
    r: Result<InodeId, FileSystemError>,
) -> bool {
    if name == dot() {
        r == Ok::<InodeId, FileSystemError>(n.directories[d as int].inode)
    } else if name == dot_dot() {
        r == Ok::<InodeId, FileSystemError>(n.directories[n.up(d) as int].inode)
    } else {
        exists|found: Result<Option<(DirectoryEntryType, InodeId)>, FileSystemError>| #[trigger]
            child_found(o, n, d, name, found) && r == inode_found(found)
    }
}

/// The inode that a lookup found.
pub open spec fn inode_found(
    found: Result<Option<(DirectoryEntryType, InodeId)>, FileSystemError>,
) -> Result<InodeId, FileSystemError> {
    match found {
        Ok(Some((_, id))) => Ok(id),
        Ok(None) => Err(FileSystemError::NotFound),
        Err(e) => Err(e),
    }
}

/// The last step of a deletion: the inode has one reference less. One that has
/// none left is freed, unless it is open: then it waits.
pub open spec fn drops_link(
    w: NamespaceModel,
    s: NamespaceModel,
    open: Map<OpenFileKey, FileId>,
    id: InodeId,
    r: Result<(), FileSystemError>,
) -> bool {
    let inode = w.inodes[id as int];
    let dropped = Inode {
        link_count: if inode.link_count == 0 {
            0
        } else {
            (inode.link_count - 1) as u32
        },
        ..inode
    };
    if dropped.link_count > 0 {
        s == w.with_inode(id, dropped) && r == Ok::<(), FileSystemError>(())
    } else if open.contains_key(key_of(w, id)) {
        s == w.with_inode(id, Inode { pending_deletion: true, ..dropped }) && r == Ok::<
            (),
            FileSystemError,
        >(())
    } else {
        s == w.with_inode(id, dropped).with_call(
            inode.filesystem,
            DriverCall::FreeInode { inode: dropped, reply: r },
        )
    }
}

/// A name is taken out of a listing, which is loaded first if need be. The
/// result says whether the name was there.
pub open spec fn takes_name(
    u: NamespaceModel,
    w: NamespaceModel,
    d: DirectoryId,
    name: Seq<char>,
    r: Result<bool, FileSystemError>,
) -> bool {
    match u.directories[d as int].children {
        Some(list) => {
            &&& w == u.with_children(d, without_child(list, name))
            &&& r == Ok::<bool, FileSystemError>(has_child(list, name))
        },
        None => exists|reply: Result<Seq<EntryModel>, FileSystemError>| {
            let x = #[trigger] u.with_call(
                u.volume_of(d),
                DriverCall::ReadDir { directory: u.inode_of(d), reply },
            );
            match reply {
                Err(e) => w == x && r == Err::<bool, FileSystemError>(e),
                Ok(list) => {
                    &&& w == x.with_children(d, without_child(unloaded(list), name))
                    &&& r == Ok::<bool, FileSystemError>(has_child(unloaded(list), name))
                },
            }
        },
    }
}

/// The name is taken out of the listing, and the inode loses a reference. If
/// the listing lacks the name, it does not show what the driver has removed:
/// that is an internal error. It is so of `.` and `..`, which are no entries.
pub open spec fn drops_entry(
    u: NamespaceModel,
    s: NamespaceModel,
    open: Map<OpenFileKey, FileId>,
    d: DirectoryId,
    name: Seq<char>,
    id: InodeId,
    r: Result<(), FileSystemError>,
) -> bool {
    exists|w: NamespaceModel, taken: Result<bool, FileSystemError>|
        #[trigger] takes_name(u, w, d, name, taken) && match taken {
            Err(e) => s == w && r == Err::<(), FileSystemError>(e),
            Ok(false) => s == w && r == Err::<(), FileSystemError>(FileSystemError::InternalError),
            Ok(true) => drops_link(w, s, open, id, r),
        }
}

/// The driver is asked to remove the entry.
pub open spec fn unlinks(
    m: NamespaceModel,
    s: NamespaceModel,
    open: Map<OpenFileKey, FileId>,
    d: DirectoryId,
    name: Seq<char>,
    id: InodeId,
    r: Result<(), FileSystemError>,
) -> bool {
    exists|reply: Result<(), FileSystemError>| {
        let u = #[trigger] m.with_call(
            m.inodes[id as int].filesystem,
            DriverCall::Unlink { parent: m.inode_of(d), name, reply },
        );
        match reply {
            Err(e) => s == u && r == Err::<(), FileSystemError>(e),
            Ok(_) => drops_entry(u, s, open, d, name, id, r),
        }
    }
}

/// Deleting the inode `id`, which `name` stands for in directory `d`. Neither
/// a directory on which a volume is mounted nor one that is not empty is
/// deleted.
pub open spec fn deletes_inode(
    n: NamespaceModel,
    s: NamespaceModel,
    open: Map<OpenFileKey, FileId>,
    d: DirectoryId,
    name: Seq<char>,
    id: InodeId,
    r: Result<(), FileSystemError>,
) -> bool {
    let inode = n.inodes[id as int];
    if inode.mount_flag {
        s == n && r == Err::<(), FileSystemError>(FileSystemError::AlreadyMounted)
    } else if inode.inode_type is Directory {
        exists|reply: Result<Seq<EntryModel>, FileSystemError>| {
            let m = #[trigger] n.with_call(
                inode.filesystem,
                DriverCall::ReadDir { directory: inode, reply },
            );
            match reply {
                Err(e) => s == m && r == Err::<(), FileSystemError>(e),
                Ok(list) => if list.len() > 0 {
                    s == m && r == Err::<(), FileSystemError>(FileSystemError::DirectoryNotEmpty)
                } else {
                    unlinks(m, s, open, d, name, id, r)
                },
            }
        }
    } else {
        unlinks(n, s, open, d, name, id, r)
    }
}

/// What deleting a path comes to.
pub open spec fn deletes(
    o: NamespaceModel,
    s: NamespaceModel,
    open: Map<OpenFileKey, FileId>,
    path: Seq<char>,
    working_directory: Option<DirectoryId>,
    r: Result<(), FileSystemError>,
) -> bool {
    match parent_and_name(path) {
        None => s == o && r == Err::<(), FileSystemError>(FileSystemError::InvalidPath),
        Some((parent, name)) => exists|n: NamespaceModel, q: Result<DirectoryId, FileSystemError>|
            grew(o, n) && n.wf() && #[trigger] resolves_dir(
                o,
                n,
                parent,
                working_directory,
                MAX_SYMLINK_DEPTH as nat,
                q,
            ) && match q {
                Err(e) => s == n && r == Err::<(), FileSystemError>(e),
                Ok(d) => n.is_dir(d) && exists|t: Result<InodeId, FileSystemError>|
                    #[trigger] names_inode(o, n, d, name, t) && match t {
                        Err(e) => s == n && r == Err::<(), FileSystemError>(e),
                        Ok(id) => deletes_inode(n, s, open, d, name, id, r),
                    },
            },
    }
}

/// Another listing, other calls and other contents of inodes keep the file
/// system sound.
pub proof fn lemma_changed_wf(before: &VirtualFileSystem, after: &VirtualFileSystem)
    requires
        before.wf(),
        after.same_tables(before),
        reshaped(before.namespace@, after.namespace@),
        forall|i: int|
            0 <= i < before.namespace@.inodes.len() ==> (
            #[trigger] after.namespace@.inodes[i]).inode_number
                == before.namespace@.inodes[i].inode_number,
    ensures
        after.wf(),
{
    lemma_reshaped_wf(before.namespace@, after.namespace@);
    lemma_reshaped_same_mounts(before.namespace@, after.namespace@);
    lemma_tables_wf(before, after);
}

/// The inodes of `o` with the same listings are reshaped.
pub proof fn lemma_same_listings_reshaped(o: NamespaceModel, s: NamespaceModel)
    requires
        o.wf(),
        s.root == o.root,
        s.ids == o.ids,
        s.histories.len() == o.histories.len(),
        s.directories == o.directories,
        s.inodes.len() == o.inodes.len(),
        forall|i: int|
            0 <= i < o.inodes.len() ==> (#[trigger] s.inodes[i]).filesystem
                == o.inodes[i].filesystem && s.inodes[i].mount_flag == o.inodes[i].mount_flag
                && s.inodes[i].inode_type == o.inodes[i].inode_type,
    ensures
        reshaped(o, s),
{
    assert forall|x: DirectoryId, i: int, id: InodeId| #[trigger]
        s.lists_directory(x, i, id) implies o.lists_directory(x, i, id) by {
        assert(o.is_dir(x));
        assert(o.dir_wf(x));
        assert(s.directories[x as int].children->0[i].inode == Some(id));
        assert(s.inodes[id as int].inode_type == o.inodes[id as int].inode_type);
    }
    lemma_tree_kept(o, s);
    assert forall|d: DirectoryId| #[trigger] s.is_dir(d) implies (
    s.directories[d as int].children matches Some(list) ==> s.entries_wf(
        s.volume_of(d),
        list,
    )) by {
        assert(o.is_dir(d));
        assert(o.dir_wf(d));
        if let Some(list) = s.directories[d as int].children {
            assert forall|i: int| 0 <= i < list.len() implies ((
            #[trigger] list[i]).inode matches Some(id) ==> id < s.inodes.len()
                && s.inodes[id as int].filesystem == s.volume_of(d)) by {
                if let Some(id) = list[i].inode {
                    assert(s.inodes[id as int].filesystem == o.inodes[id as int].filesystem);
                }
            }
            let k = o.directories[d as int].inode;
            assert(s.inodes[k as int].filesystem == o.inodes[k as int].filesystem);
        }
    }
}

/// A directory that lists less lists no directory twice.
pub proof fn lemma_tree_without(o: NamespaceModel, d: DirectoryId, name: Seq<char>)
    requires
        o.tree_wf(),
        o.is_dir(d),
        o.directories[d as int].children is Some,
    ensures
        o.with_children(d, without_child(o.directories[d as int].children->0, name)).tree_wf(),
{
    reveal(NamespaceModel::tree_wf);
    let list = o.directories[d as int].children->0;
    let next = without_child(list, name);
    let s = o.with_children(d, next);
    lemma_child_index(list, name);
    let at = child_index(list, name);
    let source = |x: DirectoryId, i: int|
        if x == d && has_child(list, name) && i == at {
            list.len() - 1
        } else {
            i
        };
    assert forall|x: DirectoryId, i: int, id: InodeId| #[trigger]
        s.lists_directory(x, i, id) implies o.lists_directory(x, source(x, i), id) by {
        assert(o.is_dir(x));
        if x == d {
            assert(next[i] == list[source(x, i)]);
        }
    }
    assert forall|x: DirectoryId, i: int, y: DirectoryId, j: int, id: InodeId|
        #[trigger] s.lists_directory(x, i, id) && #[trigger] s.lists_directory(
            y,
            j,
            id,
        ) implies x == y && i == j by {
        assert(o.lists_directory(x, source(x, i), id));
        assert(o.lists_directory(y, source(y, j), id));
    }
    assert forall|x: DirectoryId, i: int, id: InodeId, c: DirectoryId|
        #[trigger] s.lists_directory(x, i, id) && #[trigger] s.is_dir(c)
            && s.directories[c as int].inode == id implies s.directories[c as int].parent == Some(x)
        && s.directories[x as int].mount_root != Some(c) by {
        assert(o.lists_directory(x, source(x, i), id));
        assert(o.is_dir(c));
    }
}

/// A listing with other entries of the same volume is reshaped.
pub proof fn lemma_relisted_reshaped(o: NamespaceModel, d: DirectoryId, list: Seq<EntryModel>)
    requires
        o.wf(),
        o.is_dir(d),
        o.entries_wf(o.volume_of(d), list),
        o.with_children(d, list).tree_wf(),
    ensures
        reshaped(o, o.with_children(d, list)),
{
    let s = o.with_children(d, list);
    assert forall|x: DirectoryId| #[trigger] s.is_dir(x) implies {
        &&& s.directories[x as int].inode == o.directories[x as int].inode
        &&& s.directories[x as int].mount_root == o.directories[x as int].mount_root
        &&& s.directories[x as int].parent == o.directories[x as int].parent
        &&& s.directories[x as int].children matches Some(l) ==> s.entries_wf(s.volume_of(x), l)
    } by {
        assert(o.is_dir(x));
        assert(o.dir_wf(x));
        if let Some(l) = s.directories[x as int].children {
            assert(o.entries_wf(o.volume_of(x), l));
        }
    }
    assert(o.inodes.len() <= usize::MAX);
}

impl Namespace {
    /// Finds the inode that a last name stands for.
    pub fn inode_named(&mut self, d: DirectoryId, name: &str) -> (r: Result<
        InodeId,
        FileSystemError,
    >)
        requires
            old(self)@.wf(),
            old(self)@.is_dir(d),
        ensures
            final(self)@.wf(),
            grew(old(self)@, final(self)@),
            final(self)@.is_dir(d),
            names_inode(old(self)@, final(self)@, d, name@, r),
            r matches Ok(id) ==> id < final(self)@.inodes.len(),
    {
        let ghost o = self@;
        proof {
            reveal_strlit(".");
            reveal_strlit("..");
            assert("."@ =~= dot());
            assert(".."@ =~= dot_dot());
            grew_refl(o);
            assert(o.dir_wf(d));
        }
        if str_eq(name, ".") {
            return Ok(self.directories[d].inode);
        }
        if str_eq(name, "..") {
            let up: DirectoryId = match self.directories[d].parent {
                Some(parent) => parent,
                None => d,
            };
            assert(o.dir_wf(up));
            return Ok(self.directories[up].inode);
        }
        let found = self.find_child(d, name);
        match found {
            Err(e) => Err(e),
            Ok(None) => Err(FileSystemError::NotFound),
            Ok(Some((_, id))) => Ok(id),
        }
    }

    /// Takes a name out of a directory's listing.
    pub fn remove_name(&mut self, d: DirectoryId, name: &str) -> (r: Result<bool, FileSystemError>)
        requires
            old(self)@.wf(),
            old(self)@.is_dir(d),
        ensures
            final(self)@.inodes == old(self)@.inodes,
            reshaped(old(self)@, final(self)@),
            takes_name(old(self)@, final(self)@, d, name@, r),
    {
        let ghost u = self@;
        assert(u.dir_wf(d));
        let inode: Inode = self.inodes[self.directories[d].inode];
        let v: VolumeId = inode.filesystem;
        assert(u.inodes[u.directories[d as int].inode as int].filesystem < u.histories.len());
        let removed = self.directories[d].remove_child(
            &inode,
            &mut self.volumes[v].instance.filesystem,
            name,
        );
        proof {
            let dir = u.directories[d as int];
            let later = self@.histories[v as int];
            assert(listed(dir, inode, u.histories[v as int], later));
            match dir.children {
                Some(list) => {
                    let next = without_child(list, name@);
                    let s = u.with_children(d, next);
                    assert(self@.directories =~= s.directories);
                    assert(self@.histories =~= s.histories);
                    assert(self@.ids =~= s.ids);
                    assert(self@ =~= s);
                    lemma_child_index(list, name@);
                    assert(u.entries_wf(u.volume_of(d), next));
                    lemma_tree_without(u, d, name@);
                    lemma_relisted_reshaped(u, d, next);
                },
                None => {
                    let reply = later.last()->ReadDir_reply;
                    let call = DriverCall::ReadDir { directory: inode, reply };
                    let w = u.with_call(v, call);
                    assert(later.last() == call);
                    assert(w == u.with_call(
                        u.volume_of(d),
                        DriverCall::ReadDir { directory: u.inode_of(d), reply },
                    ));
                    lemma_same_listings_reshaped(u, w);
                    lemma_reshaped_wf(u, w);
                    match reply {
                        Ok(list) => {
                            let next = without_child(unloaded(list), name@);
                            let s = w.with_children(d, next);
                            assert(self@.directories =~= s.directories);
                            assert(self@.histories =~= s.histories);
                            assert(self@.ids =~= s.ids);
                            assert(self@ =~= s);
                            lemma_child_index(unloaded(list), name@);
                            assert(w.is_dir(d));
                            assert(w.entries_wf(w.volume_of(d), next));
                            assert forall|x: DirectoryId, i: int, id: InodeId| #[trigger]
                                s.lists_directory(x, i, id) implies w.lists_directory(x, i, id) by {
                                assert(x != d);
                            }
                            lemma_tree_kept(w, s);
                            lemma_relisted_reshaped(w, d, next);
                            lemma_reshaped_trans(u, w, s);
                        },
                        Err(_) => {
                            assert(self@.directories =~= w.directories);
                            assert(self@.histories =~= w.histories);
                            assert(self@.ids =~= w.ids);
                            assert(self@ =~= w);
                        },
                    }
                },
            }
        }
        removed
    }
}

proof fn lemma_reshaped_trans(a: NamespaceModel, b: NamespaceModel, c: NamespaceModel)
    requires
        reshaped(a, b),
        reshaped(b, c),
    ensures
        reshaped(a, c),
{
    assert forall|i: int| 0 <= i < a.inodes.len() implies (#[trigger] c.inodes[i]).filesystem
        == a.inodes[i].filesystem && c.inodes[i].mount_flag == a.inodes[i].mount_flag by {
        assert(b.inodes[i].filesystem == a.inodes[i].filesystem);
    }
    assert forall|i: int| a.inodes.len() <= i < c.inodes.len() implies (
    #[trigger] c.inodes[i]).filesystem < c.histories.len() && !c.inodes[i].mount_flag by {
        if i < b.inodes.len() {
            assert(b.inodes[i].filesystem < b.histories.len());
        }
    }
    assert forall|d: DirectoryId| #[trigger] c.is_dir(d) implies b.is_dir(d) by {}
}

impl VirtualFileSystem {
    /// Takes one reference from an inode, and frees it if it has none left and
    /// is not open.
    fn drop_link(&mut self, id: InodeId) -> (r: Result<(), FileSystemError>)
        requires
            old(self).wf(),
            id < old(self).namespace@.inodes.len(),
        ensures
            final(self).wf(),
            final(self).same_tables(old(self)),
            drops_link(
                old(self).namespace@,
                final(self).namespace@,
                old(self).open_files@,
                id,
                r,
            ),
    {
        let ghost before = *self;
        let ghost w = self.namespace@;
        let inode: Inode = self.namespace.inodes[id];
        let v: VolumeId = inode.filesystem;
        assert(w.inodes[id as int].filesystem < w.histories.len());
        self.namespace.inodes[id].link_count = inode.link_count.saturating_sub(1);
        let dropped: Inode = self.namespace.inodes[id];
        let ghost s = w.with_inode(id, dropped);
        proof {
            assert(self.namespace.inodes@ =~= before.namespace.inodes@.update(id as int, dropped));
            assert(self.namespace@ =~= s);
            lemma_same_listings_reshaped(w, s);
            lemma_changed_wf(&before, &*self);
        }
        if dropped.link_count == 0 {
            let key = OpenFileKey::new(
                self.namespace.volumes[v].filesystem_id,
                inode.inode_number,
            );
            assert(key == key_of(w, id));
            if self.open_files.contains_key(&key) {
                self.namespace.inodes[id].pending_deletion = true;
                proof {
                    let waiting = Inode { pending_deletion: true, ..dropped };
                    assert(self.namespace.inodes@ =~= before.namespace.inodes@.update(
                        id as int,
                        waiting,
                    ));
                    assert(self.namespace@ =~= w.with_inode(id, waiting));
                    lemma_same_listings_reshaped(w, self.namespace@);
                    lemma_changed_wf(&before, &*self);
                }
            } else {
                let ghost middle = *self;
                let r = self.namespace.volumes[v].instance.filesystem.free_inode(&dropped);
                proof {
                    lemma_call_shows(
                        middle.namespace,
                        self.namespace,
                        v,
                        DriverCall::FreeInode { inode: dropped, reply: r },
                    );
                    lemma_same_listings_reshaped(s, self.namespace@);
                    lemma_changed_wf(&middle, &*self);
                }
                return r;
            }
        }
        Ok(())
    }

    /// Asks the driver to remove an entry, and removes it from memory if that
    /// succeeds.
    fn unlink_inode(&mut self, d: DirectoryId, name: &str, id: InodeId) -> (r: Result<
        (),
        FileSystemError,
    >)
        requires
            old(self).wf(),
            old(self).namespace@.is_dir(d),
            id < old(self).namespace@.inodes.len(),
        ensures
            final(self).wf(),
            final(self).same_tables(old(self)),
            unlinks(
                old(self).namespace@,
                final(self).namespace@,
                old(self).open_files@,
                d,
                name@,
                id,
                r,
            ),
    {
        let ghost before = *self;
        let ghost m = self.namespace@;
        assert(m.dir_wf(d));
        let parent: Inode = self.namespace.inodes[self.namespace.directories[d].inode];
        let v: VolumeId = self.namespace.inodes[id].filesystem;
        assert(m.inodes[id as int].filesystem < m.histories.len());
        let reply = self.namespace.volumes[v].instance.filesystem.unlink(&parent, name);
        let ghost call = DriverCall::Unlink { parent, name: name@, reply };
        let ghost u = m.with_call(v, call);
        proof {
            lemma_call_shows(before.namespace, self.namespace, v, call);
            lemma_same_listings_reshaped(m, u);
            lemma_changed_wf(&before, &*self);
            assert(u == m.with_call(
                m.inodes[id as int].filesystem,
                DriverCall::Unlink { parent: m.inode_of(d), name: name@, reply },
            ));
        }
        match reply {
            Err(e) => {
                return Err(e);
            },
            Ok(_) => {},
        }
        let ghost unlinked = *self;
        assert(u.is_dir(d));
        let removed = self.namespace.remove_name(d, name);
        proof {
            lemma_changed_wf(&unlinked, &*self);
        }
        let ghost w = self.namespace@;
        assert(takes_name(u, w, d, name@, removed));
        let r = match removed {
            Err(e) => Err(e),
            Ok(true) => self.drop_link(id),
            Ok(false) => Err(FileSystemError::InternalError),
        };
        assert(drops_entry(u, self.namespace@, before.open_files@, d, name@, id, r));
        r
    }

    /// Deletes what a name stands for in a directory.
    fn delete_inode(&mut self, d: DirectoryId, name: &str, id: InodeId) -> (r: Result<
        (),
        FileSystemError,
    >)
        requires
            old(self).wf(),
            old(self).namespace@.is_dir(d),
            id < old(self).namespace@.inodes.len(),
        ensures
            final(self).wf(),
            final(self).same_tables(old(self)),
            deletes_inode(
                old(self).namespace@,
                final(self).namespace@,
                old(self).open_files@,
                d,
                name@,
                id,
                r,
            ),
    {
        let ghost before = *self;
        let ghost n = self.namespace@;
        let inode: Inode = self.namespace.inodes[id];
        if inode.mount_flag {
            return Err(FileSystemError::AlreadyMounted);
        }
        if inode.is_directory() {
            let v: VolumeId = inode.filesystem;
            assert(n.inodes[id as int].filesystem < n.histories.len());
            let answer = self.namespace.volumes[v].instance.filesystem.read_dir(&inode);
            let ghost reply = super::driver::entries_reply(answer);
            let ghost call = DriverCall::ReadDir { directory: inode, reply };
            let ghost m = n.with_call(v, call);
            proof {
                lemma_call_shows(before.namespace, self.namespace, v, call);
                lemma_same_listings_reshaped(n, m);
                lemma_changed_wf(&before, &*self);
                assert(m == n.with_call(
                    n.inodes[id as int].filesystem,
                    DriverCall::ReadDir { directory: n.inodes[id as int], reply },
                ));
            }
            match answer {
                Err(e) => {
                    return Err(e);
                },
                Ok(entries) => {
                    if entries.len() > 0 {
                        return Err(FileSystemError::DirectoryNotEmpty);
                    }
                },
            }
            assert(m.is_dir(d));
        }
        self.unlink_inode(d, name, id)
    }

    /// Deletes the entry at a path.
    pub fn delete(&mut self, path: &str, working_directory: Option<DirectoryId>) -> (r: Result<
        (),
        FileSystemError,
    >)
        requires
            old(self).wf(),
            wd_wf(old(self).namespace@, working_directory),
        ensures
            final(self).wf(),
            final(self).same_tables(old(self)),
            deletes(
                old(self).namespace@,
                final(self).namespace@,
                old(self).open_files@,
                path@,
                working_directory,
                r,
            ),
    {
        let ghost o = self.namespace@;
        let (parent_path, name) = match split_parent_and_name(path) {
            Ok(split) => split,
            Err(e) => {
                return Err(e);
            },
        };
        let q = self.resolve_dir_with_budget(parent_path, working_directory, MAX_SYMLINK_DEPTH);
        let d: DirectoryId = match q {
            Ok(d) => d,
            Err(e) => {
                return Err(e);
            },
        };
        let ghost m = self.namespace@;
        let ghost resolved = *self;
        let t = self.namespace.inode_named(d, name);
        let ghost n = self.namespace@;
        proof {
            grew_trans(o, m, n);
            lemma_resolves_dir_later(
                o,
                m,
                n,
                parent_path@,
                working_directory,
                MAX_SYMLINK_DEPTH as nat,
                d,
            );
            lemma_grew_same_mounts(m, n);
            lemma_tables_wf(&resolved, &*self);
            lemma_names_inode_earlier(o, m, n, d, name@, t);
        }
        match t {
            Err(e) => Err(e),
            Ok(id) => self.delete_inode(d, name, id),
        }
    }
}

/// What was found since a later point was found since an earlier one.
pub proof fn lemma_names_inode_earlier(
    o: NamespaceModel,
    m: NamespaceModel,
    n: NamespaceModel,
    d: DirectoryId,
    name: Seq<char>,
    r: Result<InodeId, FileSystemError>,
)
    requires
        o.wf(),
        m.wf(),
        n.wf(),
        grew(o, m),
        grew(m, n),
        n.is_dir(d),
        names_inode(m, n, d, name, r),
    ensures
        names_inode(o, n, d, name, r),
{
    assert(n.dir_wf(d));
    let v = n.volume_of(d);
    assert(n.inodes[n.directories[d as int].inode as int].filesystem < n.histories.len());
    assert(o.histories[v as int].is_prefix_of(m.histories[v as int]));
    assert(m.histories[v as int].is_prefix_of(n.histories[v as int]));
    if name != dot() && name != dot_dot() {
        let found = choose|
            found: Result<Option<(DirectoryEntryType, InodeId)>, FileSystemError>,
        | #[trigger]
            child_found(m, n, d, name, found) && r == inode_found(found);
        if let Err(e) = found {
            lemma_asked_later(
                o,
                m,
                n,
                v,
                DriverCall::ReadDir { directory: n.inode_of(d), reply: Err(e) },
            );
            if let Some(list) = n.directories[d as int].children {
                let entry = list[child_index(list, name)];
                lemma_asked_later(
                    o,
                    m,
                    n,
                    v,
                    DriverCall::LoadInode { inode_number: entry.inode_number, reply: Err(e) },
                );
            }
        }
        assert(child_found(o, n, d, name, found));
    }
}

/// No name occurs twice.
pub open spec fn names_distinct(list: Seq<EntryModel>) -> bool {
    forall|i: int, j: int|
        0 <= i < j < list.len() ==> (#[trigger] list[i]).name != (#[trigger] list[j]).name
}

/// The name is that of an entry of directory `d`, which is loaded as `id`.
pub open spec fn leads_to_inode(
    s: NamespaceModel,
    d: DirectoryId,
    name: Seq<char>,
    id: InodeId,
) -> bool {
    s.directories[d as int].children matches Some(list) && has_child(list, name)
        && list[child_index(list, name)].inode == Some(id)
}

/// A file whose name occurs once, where entries and inodes agree on what is a
/// file.
pub open spec fn is_plain_file(n: NamespaceModel, d: DirectoryId, id: InodeId) -> bool {
    &&& n.inodes[id as int].inode_type is File
    &&& types_agree(n)
    &&& names_distinct(n.directories[d as int].children->0)
}

/// The listing of a directory is in memory, and lacks a name.
pub open spec fn lacks(s: NamespaceModel, d: DirectoryId, name: Seq<char>) -> bool {
    s.directories[d as int].children matches Some(list) && !has_child(list, name)
}

/// The inode `id`, which the path led to in namespace `n` as an entry of `d`, is
/// no longer listed in namespace `s`: the directory lists what it listed,
/// without the name. If the name occurred once, it does not occur any more. To
/// delete a plain file leaves the directory where it is.
pub open spec fn deleted_from(
    o: NamespaceModel,
    n: NamespaceModel,
    s: NamespaceModel,
    path: Seq<char>,
    working_directory: Option<DirectoryId>,
    d: DirectoryId,
    id: InodeId,
) -> bool {
    let budget = MAX_SYMLINK_DEPTH as nat;
    let parent = parent_of(path);
    let name = name_of(path);
    let list = n.directories[d as int].children->0;
    &&& grew(o, n)
    &&& resolves_dir(o, n, parent, working_directory, budget, Ok(d))
    &&& leads_to_inode(n, d, name, id)
    &&& s.is_dir(d)
    &&& extends(n, s)
    &&& s.directories[d as int].children == Some(without_child(list, name))
    &&& names_distinct(list) ==> lacks(s, d, name)
    &&& is_plain_file(n, d, id) ==> resolves_dir(o, s, parent, working_directory, budget, Ok(d))
}

/// What was deleted is gone. The result names the namespace in which the path
/// was resolved, the directory and the inode.
pub proof fn deleted_is_gone(
    o: NamespaceModel,
    s: NamespaceModel,
    open: Map<OpenFileKey, FileId>,
    path: Seq<char>,
    working_directory: Option<DirectoryId>,
) -> (w: (NamespaceModel, DirectoryId, InodeId))
    requires
        o.wf(),
        wd_wf(o, working_directory),
        deletes(o, s, open, path, working_directory, Ok(())),
        name_of(path) != dot(),
        name_of(path) != dot_dot(),
    ensures
        parent_and_name(path) is Some,
        deleted_from(o, w.0, s, path, working_directory, w.1, w.2),
{
    let r = Ok::<(), FileSystemError>(());
    let budget = MAX_SYMLINK_DEPTH as nat;
    let (parent, name) = parent_and_name(path)->0;
    let (n, q) = choose|n: NamespaceModel, q: Result<DirectoryId, FileSystemError>|
        grew(o, n) && n.wf() && #[trigger] resolves_dir(
            o,
            n,
            parent,
            working_directory,
            budget,
            q,
        ) && match q {
            Err(e) => s == n && r == Err::<(), FileSystemError>(e),
            Ok(d) => n.is_dir(d) && exists|t: Result<InodeId, FileSystemError>|
                #[trigger] names_inode(o, n, d, name, t) && match t {
                    Err(e) => s == n && r == Err::<(), FileSystemError>(e),
                    Ok(id) => deletes_inode(n, s, open, d, name, id, r),
                },
        };
    let d = q->Ok_0;
    let t = choose|t: Result<InodeId, FileSystemError>|
        #[trigger] names_inode(o, n, d, name, t) && match t {
            Err(e) => s == n && r == Err::<(), FileSystemError>(e),
            Ok(id) => deletes_inode(n, s, open, d, name, id, r),
        };
    let id = t->Ok_0;
    let found = choose|found: Result<Option<(DirectoryEntryType, InodeId)>, FileSystemError>|
        #[trigger] child_found(o, n, d, name, found) && t == inode_found(found);
    let list = n.directories[d as int].children->0;
    assert(has_child(list, name));
    assert(leads_to_inode(n, d, name, id));
    lemma_child_index(list, name);
    assert(n.dir_wf(d));
    assert(n.entries_wf(n.volume_of(d), list));
    assert(list[child_index(list, name)].inode == Some(id));
    assert(n.inodes[id as int].filesystem < n.histories.len());
    lemma_deleted_listing(n, s, open, d, name, id);
    if names_distinct(list) {
        removed_child_is_gone(list, name, name);
    }
    if is_plain_file(n, d, id) {
        lemma_delete_keeps(n, s, open, d, name, id);
        assert(wd_wf(n, working_directory));
        lemma_dir_kept(o, n, s, parent, working_directory, budget, d);
    }
    (n, d, id)
}

/// The listing after an inode was deleted.
proof fn lemma_deleted_listing(
    n: NamespaceModel,
    s: NamespaceModel,
    open: Map<OpenFileKey, FileId>,
    d: DirectoryId,
    name: Seq<char>,
    id: InodeId,
)
    requires
        n.is_dir(d),
        id < n.inodes.len(),
        n.directories[d as int].children is Some,
        n.inodes[id as int].filesystem < n.histories.len(),
        deletes_inode(n, s, open, d, name, id, Ok(())),
    ensures
        s.is_dir(d),
        extends(n, s),
        s.directories[d as int].children == Some(
            without_child(n.directories[d as int].children->0, name),
        ),
{
    let r = Ok::<(), FileSystemError>(());
    let inode = n.inodes[id as int];
    if inode.inode_type is Directory {
        let reply = choose|reply: Result<Seq<EntryModel>, FileSystemError>| {
            let m = #[trigger] n.with_call(
                inode.filesystem,
                DriverCall::ReadDir { directory: inode, reply },
            );
            match reply {
                Err(e) => s == m && r == Err::<(), FileSystemError>(e),
                Ok(list) => if list.len() > 0 {
                    s == m && r == Err::<(), FileSystemError>(FileSystemError::DirectoryNotEmpty)
                } else {
                    unlinks(m, s, open, d, name, id, r)
                },
            }
        };
        let call = DriverCall::ReadDir { directory: inode, reply };
        let m = n.with_call(inode.filesystem, call);
        lemma_call_extends(n, inode.filesystem, call);
        lemma_unlinked_listing(m, s, open, d, name, id);
        assert forall|v: int| 0 <= v < n.histories.len() implies (
        #[trigger] n.histories[v]).is_prefix_of(s.histories[v]) by {
            assert(n.histories[v].is_prefix_of(m.histories[v]));
            assert(m.histories[v].is_prefix_of(s.histories[v]));
        }
    } else {
        lemma_unlinked_listing(n, s, open, d, name, id);
    }
}

/// A call only adds to what was asked.
proof fn lemma_call_extends(n: NamespaceModel, v: VolumeId, call: DriverCall)
    requires
        v < n.histories.len(),
    ensures
        extends(n, n.with_call(v, call)),
{
    let m = n.with_call(v, call);
    assert(n.histories[v as int].is_prefix_of(m.histories[v as int]));
    assert forall|i: int| 0 <= i < n.histories.len() implies (
    #[trigger] n.histories[i]).is_prefix_of(m.histories[i]) by {}
}

/// Unlinking changes the listing of the directory and the record of the inode,
/// and nothing else in memory.
proof fn lemma_unlinked_listing(
    m: NamespaceModel,
    s: NamespaceModel,
    open: Map<OpenFileKey, FileId>,
    d: DirectoryId,
    name: Seq<char>,
    id: InodeId,
)
    requires
        m.is_dir(d),
        id < m.inodes.len(),
        m.directories[d as int].children is Some,
        m.inodes[id as int].filesystem < m.histories.len(),
        unlinks(m, s, open, d, name, id, Ok(())),
    ensures
        extends(m, s),
        s.root == m.root,
        s.directories == m.with_children(
            d,
            without_child(m.directories[d as int].children->0, name),
        ).directories,
        s.inodes == m.inodes.update(id as int, s.inodes[id as int]),
{
    let reply = choose|reply: Result<(), FileSystemError>| {
        let u = #[trigger] m.with_call(
            m.inodes[id as int].filesystem,
            DriverCall::Unlink { parent: m.inode_of(d), name, reply },
        );
        match reply {
            Err(e) => s == u && Ok::<(), FileSystemError>(()) == Err::<(), FileSystemError>(e),
            Ok(_) => drops_entry(u, s, open, d, name, id, Ok(())),
        }
    };
    let v = m.inodes[id as int].filesystem;
    let call = DriverCall::Unlink { parent: m.inode_of(d), name, reply };
    let u = m.with_call(v, call);
    lemma_call_extends(m, v, call);
    assert(u.directories[d as int] == m.directories[d as int]);
    let (w, taken) = choose|w: NamespaceModel, taken: Result<bool, FileSystemError>|
        #[trigger] takes_name(u, w, d, name, taken) && match taken {
            Err(e) => s == w && Ok::<(), FileSystemError>(()) == Err::<(), FileSystemError>(e),
            Ok(false) => s == w && Ok::<(), FileSystemError>(()) == Err::<(), FileSystemError>(
                FileSystemError::InternalError,
            ),
            Ok(true) => drops_link(w, s, open, id, Ok(())),
        };
    assert(drops_link(w, s, open, id, Ok(())));
    assert forall|i: int| 0 <= i < m.histories.len() implies (
    #[trigger] m.histories[i]).is_prefix_of(s.histories[i]) by {
        assert(m.histories[i].is_prefix_of(u.histories[i]));
        assert(u.histories[i].is_prefix_of(s.histories[i]));
    }
    assert(s.inodes =~= m.inodes.update(id as int, s.inodes[id as int]));
}

/// Deleting a plain file takes no directory and no symlink away.
proof fn lemma_delete_keeps(
    n: NamespaceModel,
    s: NamespaceModel,
    open: Map<OpenFileKey, FileId>,
    d: DirectoryId,
    name: Seq<char>,
    id: InodeId,
)
    requires
        forall|x: DirectoryId| #[trigger] n.is_dir(x) ==> n.dir_wf(x),
        n.is_dir(d),
        id < n.inodes.len(),
        leads_to_inode(n, d, name, id),
        is_plain_file(n, d, id),
        n.inodes[id as int].filesystem < n.histories.len(),
        deletes_inode(n, s, open, d, name, id, Ok(())),
    ensures
        keeps(n, s, false),
{
    lemma_unlinked_listing(n, s, open, d, name, id);
    let list = n.directories[d as int].children->0;
    assert forall|x: DirectoryId| #[trigger] n.is_dir(x) implies s.is_dir(x) && s.inode_of(x)
        == n.inode_of(x) by {
        assert(n.dir_wf(x));
        assert(n.inode_of(x).inode_type is Directory);
    }
    assert forall|x: DirectoryId, c: Seq<char>, t: DirectoryEntryType, k: InodeId|
        n.is_dir(x) && !(t is File) && #[trigger] leads_to(n, x, c, t, k) implies leads_to(
        s,
        x,
        c,
        t,
        k,
    ) && s.inodes[k as int] == n.inodes[k as int] by {
        lemma_entry_in_range(n, x, c, t, k);
        assert(k != id);
        if x == d {
            removed_child_is_gone(list, name, c);
            if c == name {
                assert(leads_to(n, d, name, t, id));
            }
        }
    }
}

/// A listing that is in memory keeps its names.
pub proof fn lemma_same_names(
    m: NamespaceModel,
    n: NamespaceModel,
    d: DirectoryId,
    name: Seq<char>,
)
    requires
        grew(m, n),
        m.is_dir(d),
        m.directories[d as int].children is Some,
    ensures
        n.directories[d as int].children matches Some(list) && has_child(list, name) == has_child(
            m.directories[d as int].children->0,
            name,
        ),
{
    assert(n.is_dir(d));
    assert(dir_grew(m, n, d));
    let before = m.directories[d as int].children->0;
    let after = n.directories[d as int].children->0;
    let i = child_index(before, name);
    lemma_child_index(before, name);
    assert forall|j: int| 0 <= j < after.len() implies (#[trigger] after[j]).name == before[j].name by {
        assert(entry_grew(m, n, n.volume_of(d), before[j], after[j]));
    }
    assert forall|j: int| 0 <= j < i implies (#[trigger] after[j]).name != name by {
        assert(before[j].name != name);
    }
    lemma_child_index_is(after, name, i);
}

/// The path of a plain file that was deleted is not found, and whoever resolves
/// it later finds nothing, if drivers give the same answer whenever they are
/// asked the same.
pub proof fn deleted_file_is_not_found(
    o: NamespaceModel,
    n: NamespaceModel,
    s: NamespaceModel,
    t: NamespaceModel,
    path: Seq<char>,
    working_directory: Option<DirectoryId>,
    d: DirectoryId,
    id: InodeId,
    follow: bool,
    r: Result<InodeId, FileSystemError>,
)
    requires
        s.wf(),
        t.wf(),
        wd_wf(s, working_directory),
        parent_and_name(path) is Some,
        name_of(path) != dot(),
        name_of(path) != dot_dot(),
        deleted_from(o, n, s, path, working_directory, d, id),
        is_plain_file(n, d, id),
        grew(s, t),
        steady(o, t),
    ensures
        resolves(
            o,
            s,
            path,
            working_directory,
            follow,
            MAX_SYMLINK_DEPTH as nat,
            Err(FileSystemError::NotFound),
        ),
        resolves(s, t, path, working_directory, follow, MAX_SYMLINK_DEPTH as nat, r) ==> r == Err::<
            InodeId,
            FileSystemError,
        >(FileSystemError::NotFound),
{
    let budget = MAX_SYMLINK_DEPTH as nat;
    missing_name_is_not_found(o, s, path, working_directory, follow, budget, d);
    if resolves(s, t, path, working_directory, follow, budget, r) {
        assert forall|v: int| 0 <= v < o.histories.len() implies (
        #[trigger] o.histories[v]).is_prefix_of(s.histories[v]) by {
            assert(o.histories[v].is_prefix_of(n.histories[v]));
            assert(n.histories[v].is_prefix_of(s.histories[v]));
        }
        grew_keeps(s, t);
        lemma_dir_kept(o, s, t, parent_of(path), working_directory, budget, d);
        lemma_resolves_earlier(o, s, t, path, working_directory, follow, budget, r);
        lemma_same_names(s, t, d, name_of(path));
        missing_name_is_only_not_found(
            o,
            t,
            path,
            working_directory,
            follow,
            budget,
            d,
            r,
        );
    }
}

} // verus!

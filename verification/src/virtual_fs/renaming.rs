//! Renaming.

use vstd::prelude::*;

use super::creation::{lemma_dir_kept, lemma_resolves_dir_later};
use super::directory::{
    added_child_is_found, child_index, has_child, lemma_child_index, removed_child_is_gone, str_eq,
    DirectoryId, DirectoryModel,
};
use super::driver::DriverCall;
use super::inode::{DirectoryEntry, EntryModel, Inode, InodeId, VolumeId};
use super::lookup::{
    entry_is_resolved, lemma_resolves_earlier, missing_name_is_only_not_found,
    only_the_entry_is_resolved,
};
use super::namespace::{
    asked, dir_grew, grew, grew_trans, lemma_asked_later, lemma_call_shows, reshaped,
    Namespace, NamespaceModel,
};
use super::path::{
    components, dot, dot_dot, name_of, parent_and_name, parent_of, split_parent_and_name,
};
use super::removal::{
    is_plain_file, lacks, leads_to_inode, lemma_changed_wf, lemma_names_inode_earlier,
    lemma_relisted_reshaped, lemma_same_listings_reshaped, lemma_same_names, names_distinct,
    names_inode, takes_name, without_child,
};
use super::resolver::{
    extends, grew_keeps, keeps, leads_to, lemma_walks_earlier, path_walks, start_of, steady,
    Place, MAX_SYMLINK_DEPTH,
};
use super::types::{entry_type_of, DirectoryEntryType, FileSystemError, InodeType};
use super::vfs::{
    as_directory, lemma_grew_same_mounts, lemma_tables_wf, resolves, resolves_dir, same_mounts,
    wd_wf, VirtualFileSystem,
};

verus! {

/// The directory for an inode now stands below `parent`. The roots of volumes
/// stay where they are.
pub open spec fn reparented(
    s: NamespaceModel,
    id: InodeId,
    parent: DirectoryId,
) -> NamespaceModel {
    NamespaceModel {
        directories: Seq::new(
            s.directories.len(),
            |x: int|
                if s.directories[x].inode == id && x != s.root && s.host(x as DirectoryId) == x {
                    DirectoryModel { parent: Some(parent), ..s.directories[x] }
                } else {
                    s.directories[x]
                },
        ),
        ..s
    }
}

/// The namespace with one more entry in directory `d`, for the inode `id`. The
/// entry is loaded, or will be when it is looked up.
pub open spec fn with_entry(
    s: NamespaceModel,
    d: DirectoryId,
    name: Seq<char>,
    id: InodeId,
    loaded: bool,
) -> NamespaceModel {
    let inode = s.inodes[id as int];
    s.with_children(
        d,
        s.directories[d as int].children->0.push(
            EntryModel {
                name,
                inode_number: inode.inode_number,
                entry_type: entry_type_of(inode.inode_type),
                inode: if loaded {
                    Some(id)
                } else {
                    None
                },
            },
        ),
    )
}

/// The name is that of an entry.
pub open spec fn is_entry_name(name: Seq<char>) -> bool {
    name != dot() && name != dot_dot()
}

/// The namespace without the entry that was moved. A directory that was moved
/// stands below its new parent.
pub open spec fn taken_out(
    w: NamespaceModel,
    old_parent: DirectoryId,
    old_name: Seq<char>,
    new_parent: DirectoryId,
    id: InodeId,
) -> NamespaceModel {
    let list = w.directories[old_parent as int].children->0;
    let removed = w.with_children(old_parent, without_child(list, old_name));
    if w.inodes[id as int].inode_type is Directory {
        reparented(removed, id, new_parent)
    } else {
        removed
    }
}

/// The namespace after an entry was moved.
pub open spec fn after_move(
    w: NamespaceModel,
    old_parent: DirectoryId,
    old_name: Seq<char>,
    new_parent: DirectoryId,
    new_name: Seq<char>,
    id: InodeId,
) -> NamespaceModel {
    with_entry(
        taken_out(w, old_parent, old_name, new_parent, id),
        new_parent,
        new_name,
        id,
        true,
    )
}

/// What showing in memory that the driver has moved a name comes to. `.` and
/// `..` are no entries: a listing that lacks them does not show what the driver
/// has done, which is an internal error. From a listing that has an entry of
/// such a name the entry is moved; what the name stands for stays where it is.
pub open spec fn shows_move(
    u: NamespaceModel,
    s: NamespaceModel,
    old_parent: DirectoryId,
    old_name: Seq<char>,
    new_parent: DirectoryId,
    new_name: Seq<char>,
    id: InodeId,
    r: Result<(), FileSystemError>,
) -> bool {
    if is_entry_name(old_name) {
        &&& s == after_move(u, old_parent, old_name, new_parent, new_name, id)
        &&& r == Ok::<(), FileSystemError>(())
    } else {
        exists|w: NamespaceModel, taken: Result<bool, FileSystemError>|
            #[trigger] takes_name(u, w, old_parent, old_name, taken) && match taken {
                Err(e) => s == w && r == Err::<(), FileSystemError>(e),
                Ok(false) => s == w && r == Err::<(), FileSystemError>(
                    FileSystemError::InternalError,
                ),
                Ok(true) => s == with_entry(w, new_parent, new_name, id, false) && r == Ok::<
                    (),
                    FileSystemError,
                >(()),
            }
    }
}

/// What moving the inode `id`, which the old name stands for, comes to: its
/// driver decides, and if it has moved the entry, both listings in memory show
/// it.
pub open spec fn moves(
    n: NamespaceModel,
    s: NamespaceModel,
    old_parent: DirectoryId,
    old_name: Seq<char>,
    new_parent: DirectoryId,
    new_name: Seq<char>,
    id: InodeId,
    r: Result<(), FileSystemError>,
) -> bool {
    exists|reply: Result<(), FileSystemError>| {
        let u = #[trigger] n.with_call(
            n.volume_of(old_parent),
            DriverCall::Rename {
                old_parent: n.inode_of(old_parent),
                old_name,
                new_parent: n.inode_of(new_parent),
                new_name,
                reply,
            },
        );
        match reply {
            Err(e) => s == u && r == Err::<(), FileSystemError>(e),
            Ok(_) => shows_move(u, s, old_parent, old_name, new_parent, new_name, id, r),
        }
    }
}

/// What moving an entry between two directories of namespace `n` comes to. Both
/// directories, and what is moved, have to be on one volume, the new name has
/// to be free, and the old one has to stand for something.
pub open spec fn renames_in(
    o: NamespaceModel,
    n: NamespaceModel,
    s: NamespaceModel,
    old_parent: DirectoryId,
    old_name: Seq<char>,
    new_parent: DirectoryId,
    new_name: Seq<char>,
    r: Result<(), FileSystemError>,
) -> bool {
    if n.volume_of(old_parent) != n.volume_of(new_parent) {
        s == n && r == Err::<(), FileSystemError>(FileSystemError::InvalidPath)
    } else {
        match n.directories[new_parent as int].children {
            None => s == n && (r matches Err(e) && asked(
                o,
                n,
                n.volume_of(new_parent),
                DriverCall::ReadDir { directory: n.inode_of(new_parent), reply: Err(e) },
            )),
            Some(list) => if has_child(list, new_name) {
                s == n && r == Err::<(), FileSystemError>(FileSystemError::AlreadyExists)
            } else {
                exists|t: Result<InodeId, FileSystemError>|
                    #[trigger] names_inode(o, n, old_parent, old_name, t) && match t {
                        Err(e) => s == n && r == Err::<(), FileSystemError>(e),
                        Ok(id) => id < n.inodes.len()
                            && if n.inodes[id as int].filesystem != n.volume_of(new_parent) {
                            s == n && r == Err::<(), FileSystemError>(FileSystemError::InvalidPath)
                        } else {
                            moves(n, s, old_parent, old_name, new_parent, new_name, id, r)
                        },
                    }
            },
        }
    }
}

/// What renaming a path comes to.
pub open spec fn renames(
    o: NamespaceModel,
    s: NamespaceModel,
    old_path: Seq<char>,
    new_path: Seq<char>,
    working_directory: Option<DirectoryId>,
    r: Result<(), FileSystemError>,
) -> bool {
    match (parent_and_name(old_path), parent_and_name(new_path)) {
        (Some((old_parent, old_name)), Some((new_parent, new_name))) => exists|
            n: NamespaceModel,
            p: Result<DirectoryId, FileSystemError>,
        |
            grew(o, n) && n.wf() && #[trigger] resolves_dir(
                o,
                n,
                old_parent,
                working_directory,
                MAX_SYMLINK_DEPTH as nat,
                p,
            ) && match p {
                Err(e) => s == n && r == Err::<(), FileSystemError>(e),
                Ok(from) => n.is_dir(from) && exists|q: Result<DirectoryId, FileSystemError>|
                    #[trigger] resolves_dir(
                        o,
                        n,
                        new_parent,
                        working_directory,
                        MAX_SYMLINK_DEPTH as nat,
                        q,
                    ) && match q {
                        Err(e) => s == n && r == Err::<(), FileSystemError>(e),
                        Ok(to) => n.is_dir(to) && renames_in(
                            o,
                            n,
                            s,
                            from,
                            old_name,
                            to,
                            new_name,
                            r,
                        ),
                    },
            },
        _ => s == o && r == Err::<(), FileSystemError>(FileSystemError::InvalidPath),
    }
}

/// What was taken out can be entered below its new parent.
proof fn lemma_taken_out_enters(
    w: NamespaceModel,
    y: NamespaceModel,
    old_parent: DirectoryId,
    old_name: Seq<char>,
    new_parent: DirectoryId,
    new_name: Seq<char>,
    id: InodeId,
)
    requires
        w.wf(),
        y.wf(),
        w.is_dir(old_parent),
        w.is_dir(new_parent),
        w.directories[new_parent as int].children is Some,
        id < w.inodes.len(),
        leads_to_inode(w, old_parent, old_name, id),
        y == taken_out(w, old_parent, old_name, new_parent, id),
    ensures
        y.is_dir(new_parent),
        y.directories[new_parent as int].children is Some,
        y.inodes == w.inodes,
        y.volume_of(new_parent) == w.volume_of(new_parent),
        with_entry(y, new_parent, new_name, id, true).tree_wf(),
{
    let inode = w.inodes[id as int];
    let list = w.directories[old_parent as int].children->0;
    let x = w.with_children(old_parent, without_child(list, old_name));
    assert(w.dir_wf(new_parent));
    if inode.inode_type is Directory {
        lemma_unlisted(w, old_parent, old_name, id);
        assert forall|c: DirectoryId| #[trigger]
            y.is_dir(c) && y.directories[c as int].inode == id implies y.directories[c as int].parent
            == Some(new_parent) && y.directories[new_parent as int].mount_root != Some(c) by {
            assert(w.is_dir(c));
            assert(w.dir_wf(c));
            assert(x.host(c) == w.host(c));
        }
        assert forall|z: DirectoryId, i: int| !#[trigger] y.lists_directory(z, i, id) by {
            if y.lists_directory(z, i, id) {
                assert(x.lists_directory(z, i, id));
            }
        }
    }
    lemma_tree_entered(
        y,
        new_parent,
        EntryModel {
            name: new_name,
            inode_number: inode.inode_number,
            entry_type: entry_type_of(inode.inode_type),
            inode: Some(id),
        },
    );
}

/// An entry that is not loaded can be listed anywhere.
proof fn lemma_unloaded_enters(w: NamespaceModel, d: DirectoryId, name: Seq<char>, id: InodeId)
    requires
        w.wf(),
        w.is_dir(d),
        w.directories[d as int].children is Some,
    ensures
        with_entry(w, d, name, id, false).tree_wf(),
{
    let inode = w.inodes[id as int];
    lemma_tree_entered(
        w,
        d,
        EntryModel {
            name,
            inode_number: inode.inode_number,
            entry_type: entry_type_of(inode.inode_type),
            inode: None,
        },
    );
}

/// No entry stands for the inode as a directory.
spec fn unlisted(s: NamespaceModel, id: InodeId) -> bool {
    forall|x: DirectoryId, i: int| !#[trigger] s.lists_directory(x, i, id)
}

/// A directory that has been taken out of its listing is in no other.
proof fn lemma_unlisted(
    w: NamespaceModel,
    d: DirectoryId,
    name: Seq<char>,
    id: InodeId,
)
    requires
        w.wf(),
        w.is_dir(d),
        leads_to_inode(w, d, name, id),
        w.inodes[id as int].inode_type is Directory,
    ensures
        ({
            let list = w.directories[d as int].children->0;
            unlisted(w.with_children(d, without_child(list, name)), id)
        }),
        forall|c: DirectoryId| #[trigger]
            w.is_dir(c) && w.directories[c as int].inode == id ==> c != w.root && w.host(c) == c
                && w.directories[c as int].parent == Some(d),
{
    reveal(NamespaceModel::tree_wf);
    let list = w.directories[d as int].children->0;
    let at = child_index(list, name);
    let next = without_child(list, name);
    let s = w.with_children(d, next);
    lemma_child_index(list, name);
    assert(w.lists_directory(d, at, id));
    assert forall|x: DirectoryId, i: int| !#[trigger] s.lists_directory(x, i, id) by {
        if s.lists_directory(x, i, id) {
            assert(w.is_dir(x));
            if x == d {
                let from = if i == at {
                    list.len() - 1
                } else {
                    i
                };
                assert(next[i] == list[from]);
                assert(w.lists_directory(d, from, id));
            } else {
                assert(w.lists_directory(x, i, id));
            }
        }
    }
    assert forall|c: DirectoryId| #[trigger]
        w.is_dir(c) && w.directories[c as int].inode == id implies c != w.root && w.host(c) == c
        && w.directories[c as int].parent == Some(d) by {
        assert(w.dir_wf(c));
    }
}

/// A directory that stands below its new parent, and is listed nowhere, can be
/// listed there.
proof fn lemma_tree_entered(s: NamespaceModel, d: DirectoryId, entry: EntryModel)
    requires
        s.wf(),
        s.is_dir(d),
        s.directories[d as int].children is Some,
        entry.inode matches Some(id) ==> {
            &&& id < s.inodes.len()
            &&& entry.entry_type is Directory <==> s.inodes[id as int].inode_type is Directory
            &&& s.inodes[id as int].inode_type is Directory ==> unlisted(s, id) && forall|
                c: DirectoryId,
            | #[trigger]
                s.is_dir(c) && s.directories[c as int].inode == id
                    ==> s.directories[c as int].parent == Some(d)
                    && s.directories[d as int].mount_root != Some(c)
        },
    ensures
        s.with_children(d, s.directories[d as int].children->0.push(entry)).tree_wf(),
{
    reveal(NamespaceModel::tree_wf);
    let list = s.directories[d as int].children->0;
    let t = s.with_children(d, list.push(entry));
    assert forall|x: DirectoryId, i: int, id: InodeId| #[trigger]
        t.lists_directory(x, i, id) implies (x == d && i == list.len() && entry.inode == Some(id)
        && s.inodes[id as int].inode_type is Directory) || s.lists_directory(x, i, id) by {
        assert(s.is_dir(x));
        if x == d && i < list.len() {
            assert(list.push(entry)[i] == list[i]);
        }
    }
    assert forall|x: DirectoryId, i: int, id: InodeId, c: DirectoryId|
        #[trigger] t.lists_directory(x, i, id) && #[trigger] t.is_dir(c)
            && t.directories[c as int].inode == id implies t.directories[c as int].parent == Some(x)
        && t.directories[x as int].mount_root != Some(c) by {
        assert(s.is_dir(c) && s.is_dir(x));
    }
}

proof fn lemma_reparented_wf(s: NamespaceModel, id: InodeId, parent: DirectoryId)
    requires
        s.wf(),
        s.is_dir(parent),
        unlisted(s, id),
    ensures
        reparented(s, id, parent).wf(),
        same_mounts(s, reparented(s, id, parent)),
{
    let t = reparented(s, id, parent);
    assert(t.tree_wf()) by {
        reveal(NamespaceModel::tree_wf);
        assert forall|x: DirectoryId, i: int, y: InodeId| #[trigger]
            t.lists_directory(x, i, y) implies s.lists_directory(x, i, y) by {
            assert(s.is_dir(x));
        }
        assert forall|x: DirectoryId, i: int, y: InodeId, c: DirectoryId|
            #[trigger] t.lists_directory(x, i, y) && #[trigger] t.is_dir(c)
                && t.directories[c as int].inode == y implies t.directories[c as int].parent
            == Some(x) && t.directories[x as int].mount_root != Some(c) by {
            assert(s.lists_directory(x, i, y));
            assert(s.is_dir(c) && s.is_dir(x));
        }
    }
    assert forall|x: DirectoryId| #[trigger] s.is_dir(x) implies {
        &&& t.directories[x as int].inode == s.directories[x as int].inode
        &&& t.directories[x as int].mount_root == s.directories[x as int].mount_root
        &&& t.directories[x as int].children == s.directories[x as int].children
        &&& t.host(x) == s.host(x)
        &&& t.dir_wf(x)
    } by {
        assert(s.dir_wf(x));
        assert(s.is_dir(s.root));
        if let Some(p) = s.directories[x as int].parent {
            assert(s.dir_wf(p));
            assert(t.directories[p as int].mount_root == s.directories[p as int].mount_root);
        }
        assert(s.dir_wf(parent));
        assert(t.directories[parent as int].mount_root
            == s.directories[parent as int].mount_root);
        if let Some(m) = s.directories[x as int].mount_root {
            assert(s.is_dir(m));
            assert(s.dir_wf(m));
            assert(s.directories[m as int].parent == Some(x));
            assert(s.host(m) == x);
        }
        if let Some(list) = t.directories[x as int].children {
            assert(t.entries_wf(t.volume_of(x), list));
        }
    }
    assert forall|x: DirectoryId| #[trigger] t.is_dir(x) implies t.dir_wf(x) by {
        assert(s.is_dir(x));
    }
    assert forall|a: DirectoryId, b: DirectoryId|
        #[trigger] t.is_dir(a) && #[trigger] t.is_dir(b) && t.directories[a as int].inode
            == t.directories[b as int].inode implies a == b by {
        assert(s.is_dir(a) && s.is_dir(b));
    }
    assert forall|k: InodeId|
        k < t.inodes.len() && (#[trigger] t.inodes[k as int]).mount_flag implies t.has_dir(k) by {
        assert(s.inodes[k as int].mount_flag);
        let x = choose|x: DirectoryId| #[trigger]
            s.is_dir(x) && s.directories[x as int].inode == k;
        assert(t.is_dir(x));
    }
    assert(t.is_dir(t.root)) by {
        assert(s.is_dir(s.root));
    }
}

impl Namespace {
    /// Adds an entry to a directory whose entries are in memory.
    fn add_entry(&mut self, d: DirectoryId, name: &str, id: InodeId, loaded: bool)
        requires
            old(self)@.wf(),
            old(self)@.is_dir(d),
            old(self)@.directories[d as int].children is Some,
            id < old(self)@.inodes.len(),
            old(self)@.inodes[id as int].filesystem == old(self)@.volume_of(d),
            with_entry(old(self)@, d, name@, id, loaded).tree_wf(),
        ensures
            final(self)@ == with_entry(old(self)@, d, name@, id, loaded),
            reshaped(old(self)@, final(self)@),
    {
        let ghost o = self@;
        assert(o.dir_wf(d));
        let parent: Inode = self.inodes[self.directories[d].inode];
        let v: VolumeId = parent.filesystem;
        assert(o.inodes[o.directories[d as int].inode as int].filesystem < o.histories.len());
        let inode: Inode = self.inodes[id];
        let entry_type = match inode.inode_type {
            InodeType::File => DirectoryEntryType::File,
            InodeType::Directory => DirectoryEntryType::Directory,
            InodeType::Symlink => DirectoryEntryType::Symlink,
        };
        let entry = if loaded {
            DirectoryEntry::with_inode(name.to_owned(), inode.inode_number, entry_type, id)
        } else {
            DirectoryEntry::new(name.to_owned(), inode.inode_number, entry_type)
        };
        let ghost model = entry@;
        let _ = self.directories[d].add_child(
            &parent,
            &mut self.volumes[v].instance.filesystem,
            entry,
        );
        proof {
            let list = o.directories[d as int].children->0;
            let s = with_entry(o, d, name@, id, loaded);
            assert(self@.directories =~= s.directories);
            assert(self@.histories =~= s.histories);
            assert(self@.ids =~= s.ids);
            assert(self@ =~= s);
            let next = list.push(model);
            assert(o.entries_wf(o.volume_of(d), next));
            lemma_relisted_reshaped(o, d, next);
        }
    }

    /// Puts the directory for an inode below another directory.
    fn reparent(&mut self, id: InodeId, parent: DirectoryId)
        requires
            old(self)@.wf(),
            old(self)@.is_dir(parent),
            unlisted(old(self)@, id),
        ensures
            final(self)@ == reparented(old(self)@, id, parent),
            final(self)@.wf(),
            same_mounts(old(self)@, final(self)@),
    {
        let ghost o = self@;
        let ghost t = reparented(o, id, parent);
        proof {
            lemma_reparented_wf(o, id, parent);
        }
        let mut x: DirectoryId = 0;
        while x < self.directories.len()
            invariant
                o == old(self)@,
                o.wf(),
                t == reparented(o, id, parent),
                t.wf(),
                same_mounts(o, t),
                self@ == o,
                x <= self.directories@.len(),
                forall|y: DirectoryId| #[trigger] o.is_dir(y) && y < x ==> o.directories[y as int].inode
                    != id,
            decreases self.directories@.len() - x,
        {
            if self.directories[x].inode == id {
                assert(o.is_dir(x));
                assert(o.dir_wf(x));
                let mounted = match self.directories[x].parent {
                    Some(p) => {
                        assert(o.is_dir(p));
                        match self.directories[p].mount_root {
                            Some(root) => root == x && p != x,
                            None => false,
                        }
                    },
                    None => false,
                };
                if x != self.root && !mounted {
                    self.directories[x].parent = Some(parent);
                }
                proof {
                    assert forall|y: int| 0 <= y < o.directories.len() implies (
                    #[trigger] self@.directories[y]) == t.directories[y] by {
                        assert(o.is_dir(y as DirectoryId));
                    }
                    assert(self@.directories =~= t.directories);
                    assert(self@ =~= t);
                }
                return ;
            }
            x = x + 1;
        }
        proof {
            assert forall|y: int| 0 <= y < o.directories.len() implies (
            #[trigger] self@.directories[y]) == t.directories[y] by {
                assert(o.is_dir(y as DirectoryId));
            }
            assert(self@.directories =~= t.directories);
            assert(self@ =~= t);
        }
    }
}

/// What resolves to a directory since a later point does so since an earlier
/// one.
pub proof fn lemma_resolves_dir_earlier(
    o: NamespaceModel,
    m: NamespaceModel,
    n: NamespaceModel,
    path: Seq<char>,
    working_directory: Option<DirectoryId>,
    budget: nat,
    r: Result<DirectoryId, FileSystemError>,
)
    requires
        o.wf(),
        m.wf(),
        n.wf(),
        grew(o, m),
        grew(m, n),
        wd_wf(o, working_directory),
        resolves_dir(m, n, path, working_directory, budget, r),
    ensures
        resolves_dir(o, n, path, working_directory, budget, r),
{
    let w = choose|w: Result<Place, FileSystemError>|
        #[trigger] path_walks(m, n, path, working_directory, false, budget, w) && r
            == as_directory(n, w);
    if path.len() > 0 {
        let start = start_of(n, path, working_directory);
        assert(n.is_dir(n.root));
        assert(n.is_dir(start));
        lemma_walks_earlier(o, m, n, start, components(path), false, budget, w);
    }
    assert(path_walks(o, n, path, working_directory, false, budget, w));
}

/// Whether a name is that of an entry.
fn names_entry(name: &str) -> (r: bool)
    ensures
        r == is_entry_name(name@),
{
    proof {
        reveal_strlit(".");
        reveal_strlit("..");
        assert("."@ =~= dot());
        assert(".."@ =~= dot_dot());
    }
    !str_eq(name, ".") && !str_eq(name, "..")
}

impl VirtualFileSystem {
    /// Takes an entry out of its listing, and puts a directory below its new
    /// parent, where it can be listed under the new name.
    fn take_out(
        &mut self,
        old_parent: DirectoryId,
        old_name: &str,
        new_parent: DirectoryId,
        id: InodeId,
        Ghost(new_name): Ghost<Seq<char>>,
    )
        requires
            old(self).wf(),
            old(self).namespace@.is_dir(old_parent),
            old(self).namespace@.is_dir(new_parent),
            id < old(self).namespace@.inodes.len(),
            leads_to_inode(old(self).namespace@, old_parent, old_name@, id),
            old(self).namespace@.directories[new_parent as int].children is Some,
            old(self).namespace@.inodes[id as int].filesystem == old(self).namespace@.volume_of(
                new_parent,
            ),
        ensures
            final(self).wf(),
            final(self).same_tables(old(self)),
            final(self).namespace@ == taken_out(
                old(self).namespace@,
                old_parent,
                old_name@,
                new_parent,
                id,
            ),
            final(self).namespace@.is_dir(new_parent),
            final(self).namespace@.directories[new_parent as int].children is Some,
            id < final(self).namespace@.inodes.len(),
            final(self).namespace@.inodes[id as int].filesystem
                == final(self).namespace@.volume_of(new_parent),
            with_entry(final(self).namespace@, new_parent, new_name, id, true).tree_wf(),
    {
        let ghost w = self.namespace@;
        let ghost before = *self;
        let is_directory = self.namespace.inodes[id].is_directory();
        proof {
            if is_directory {
                lemma_unlisted(w, old_parent, old_name@, id);
            }
        }
        let _ = self.namespace.remove_name(old_parent, old_name);
        proof {
            lemma_changed_wf(&before, &*self);
            assert(self.namespace@.is_dir(new_parent));
        }
        let ghost removed = *self;
        if is_directory {
            self.namespace.reparent(id, new_parent);
            proof {
                lemma_tables_wf(&removed, &*self);
            }
        }
        proof {
            let y = self.namespace@;
            lemma_taken_out_enters(w, y, old_parent, old_name@, new_parent, new_name, id);
        }
    }

    /// Adds an entry to a listing.
    fn put_in(&mut self, d: DirectoryId, name: &str, id: InodeId, loaded: bool)
        requires
            old(self).wf(),
            old(self).namespace@.is_dir(d),
            old(self).namespace@.directories[d as int].children is Some,
            id < old(self).namespace@.inodes.len(),
            old(self).namespace@.inodes[id as int].filesystem == old(self).namespace@.volume_of(d),
            with_entry(old(self).namespace@, d, name@, id, loaded).tree_wf(),
        ensures
            final(self).wf(),
            final(self).same_tables(old(self)),
            final(self).namespace@ == with_entry(old(self).namespace@, d, name@, id, loaded),
    {
        let ghost before = *self;
        self.namespace.add_entry(d, name, id, loaded);
        proof {
            lemma_changed_wf(&before, &*self);
        }
    }

    /// Shows in memory that the driver has moved a name that is `.` or `..`.
    fn move_dots(
        &mut self,
        old_parent: DirectoryId,
        old_name: &str,
        new_parent: DirectoryId,
        new_name: &str,
        id: InodeId,
    ) -> (r: Result<(), FileSystemError>)
        requires
            old(self).wf(),
            old(self).namespace@.is_dir(old_parent),
            old(self).namespace@.is_dir(new_parent),
            old(self).namespace@.directories[new_parent as int].children is Some,
            id < old(self).namespace@.inodes.len(),
            old(self).namespace@.inodes[id as int].filesystem == old(self).namespace@.volume_of(
                new_parent,
            ),
            !is_entry_name(old_name@),
        ensures
            final(self).wf(),
            final(self).same_tables(old(self)),
            shows_move(
                old(self).namespace@,
                final(self).namespace@,
                old_parent,
                old_name@,
                new_parent,
                new_name@,
                id,
                r,
            ),
    {
        let ghost before = *self;
        let taken = self.namespace.remove_name(old_parent, old_name);
        let ghost w = self.namespace@;
        proof {
            lemma_changed_wf(&before, &*self);
            assert(takes_name(before.namespace@, w, old_parent, old_name@, taken));
        }
        match taken {
            Err(e) => Err(e),
            Ok(false) => Err(FileSystemError::InternalError),
            Ok(true) => {
                proof {
                    lemma_unloaded_enters(w, new_parent, new_name@, id);
                }
                self.put_in(new_parent, new_name, id, false);
                Ok(())
            },
        }
    }

    /// Moves an entry in memory that the driver has moved.
    fn move_entry(
        &mut self,
        old_parent: DirectoryId,
        old_name: &str,
        new_parent: DirectoryId,
        new_name: &str,
        id: InodeId,
    ) -> (r: Result<(), FileSystemError>)
        requires
            old(self).wf(),
            old(self).namespace@.is_dir(old_parent),
            old(self).namespace@.is_dir(new_parent),
            old(self).namespace@.directories[new_parent as int].children is Some,
            old(self).namespace@.volume_of(old_parent) == old(self).namespace@.volume_of(
                new_parent,
            ),
            id < old(self).namespace@.inodes.len(),
            old(self).namespace@.inodes[id as int].filesystem == old(self).namespace@.volume_of(
                new_parent,
            ),
            is_entry_name(old_name@) ==> leads_to_inode(
                old(self).namespace@,
                old_parent,
                old_name@,
                id,
            ),
        ensures
            final(self).wf(),
            final(self).same_tables(old(self)),
            shows_move(
                old(self).namespace@,
                final(self).namespace@,
                old_parent,
                old_name@,
                new_parent,
                new_name@,
                id,
                r,
            ),
    {
        if names_entry(old_name) {
            self.take_out(old_parent, old_name, new_parent, id, Ghost(new_name@));
            self.put_in(new_parent, new_name, id, true);
            Ok(())
        } else {
            self.move_dots(old_parent, old_name, new_parent, new_name, id)
        }
    }

    /// Asks the driver to move an entry, and moves it in memory if that
    /// succeeds.
    fn rename_in(
        &mut self,
        old_parent: DirectoryId,
        old_name: &str,
        new_parent: DirectoryId,
        new_name: &str,
        id: InodeId,
    ) -> (r: Result<(), FileSystemError>)
        requires
            old(self).wf(),
            old(self).namespace@.is_dir(old_parent),
            old(self).namespace@.is_dir(new_parent),
            old(self).namespace@.directories[new_parent as int].children is Some,
            old(self).namespace@.volume_of(old_parent) == old(self).namespace@.volume_of(
                new_parent,
            ),
            id < old(self).namespace@.inodes.len(),
            old(self).namespace@.inodes[id as int].filesystem == old(self).namespace@.volume_of(
                new_parent,
            ),
            is_entry_name(old_name@) ==> leads_to_inode(
                old(self).namespace@,
                old_parent,
                old_name@,
                id,
            ),
        ensures
            final(self).wf(),
            final(self).same_tables(old(self)),
            moves(
                old(self).namespace@,
                final(self).namespace@,
                old_parent,
                old_name@,
                new_parent,
                new_name@,
                id,
                r,
            ),
    {
        let ghost n = self.namespace@;
        let ghost before = *self;
        assert(n.dir_wf(old_parent));
        assert(n.dir_wf(new_parent));
        let from: Inode = self.namespace.inodes[self.namespace.directories[old_parent].inode];
        let to: Inode = self.namespace.inodes[self.namespace.directories[new_parent].inode];
        let v: VolumeId = from.filesystem;
        assert(n.inodes[n.directories[old_parent as int].inode as int].filesystem
            < n.histories.len());
        let reply = self.namespace.volumes[v].instance.filesystem.rename(
            &from,
            old_name,
            &to,
            new_name,
        );
        let ghost call = DriverCall::Rename {
            old_parent: from,
            old_name: old_name@,
            new_parent: to,
            new_name: new_name@,
            reply,
        };
        let ghost u = n.with_call(v, call);
        proof {
            lemma_call_shows(before.namespace, self.namespace, v, call);
            lemma_same_listings_reshaped(n, u);
            lemma_changed_wf(&before, &*self);
            assert(u == n.with_call(
                n.volume_of(old_parent),
                DriverCall::Rename {
                    old_parent: n.inode_of(old_parent),
                    old_name: old_name@,
                    new_parent: n.inode_of(new_parent),
                    new_name: new_name@,
                    reply,
                },
            ));
            assert(u.is_dir(old_parent) && u.is_dir(new_parent));
        }
        match reply {
            Err(e) => Err(e),
            Ok(_) => {
                self.move_entry(old_parent, old_name, new_parent, new_name, id)
            },
        }
    }

    /// Moves the entry at one path to another path of the same volume, where
    /// nothing must be.
    pub fn rename(
        &mut self,
        old_path: &str,
        new_path: &str,
        working_directory: Option<DirectoryId>,
    ) -> (r: Result<(), FileSystemError>)
        requires
            old(self).wf(),
            wd_wf(old(self).namespace@, working_directory),
        ensures
            final(self).wf(),
            final(self).same_tables(old(self)),
            renames(
                old(self).namespace@,
                final(self).namespace@,
                old_path@,
                new_path@,
                working_directory,
                r,
            ),
    {
        let ghost o = self.namespace@;
        let (old_parent_path, old_name) = match split_parent_and_name(old_path) {
            Ok(split) => split,
            Err(e) => {
                return Err(e);
            },
        };
        let (new_parent_path, new_name) = match split_parent_and_name(new_path) {
            Ok(split) => split,
            Err(e) => {
                return Err(e);
            },
        };
        let p = self.resolve_dir_with_budget(old_parent_path, working_directory, MAX_SYMLINK_DEPTH);
        let from: DirectoryId = match p {
            Ok(d) => d,
            Err(e) => {
                return Err(e);
            },
        };
        let ghost a = self.namespace@;
        let q = self.resolve_dir_with_budget(new_parent_path, working_directory, MAX_SYMLINK_DEPTH);
        let ghost b = self.namespace@;
        let ghost budget = MAX_SYMLINK_DEPTH as nat;
        proof {
            grew_trans(o, a, b);
            lemma_resolves_dir_later(o, a, b, old_parent_path@, working_directory, budget, from);
            lemma_resolves_dir_earlier(o, a, b, new_parent_path@, working_directory, budget, q);
            assert(b.is_dir(from));
        }
        let to: DirectoryId = match q {
            Ok(d) => d,
            Err(e) => {
                return Err(e);
            },
        };
        proof {
            assert(b.dir_wf(from));
            assert(b.dir_wf(to));
            assert(b.inodes[b.directories[from as int].inode as int].filesystem
                < b.histories.len());
            assert(b.inodes[b.directories[to as int].inode as int].filesystem < b.histories.len());
        }
        let from_volume: VolumeId =
            self.namespace.inodes[self.namespace.directories[from].inode].filesystem;
        let to_volume: VolumeId =
            self.namespace.inodes[self.namespace.directories[to].inode].filesystem;
        if self.namespace.volumes[from_volume].filesystem_id
            != self.namespace.volumes[to_volume].filesystem_id {
            assert(b.ids[from_volume as int] != b.ids[to_volume as int]);
            assert(renames_in(
                o,
                b,
                b,
                from,
                old_name@,
                to,
                new_name@,
                Err(FileSystemError::InvalidPath),
            ));
            return Err(FileSystemError::InvalidPath);
        }
        let ghost resolved = *self;
        let known = self.namespace.has_name(to, new_name);
        let ghost m = self.namespace@;
        proof {
            assert(b.ids[from_volume as int] == b.ids[to_volume as int]);
            assert(from_volume == to_volume) by {
                if from_volume < to_volume {
                    assert(b.ids[from_volume as int] != b.ids[to_volume as int]);
                } else if to_volume < from_volume {
                    assert(b.ids[to_volume as int] != b.ids[from_volume as int]);
                }
            }
            grew_trans(o, b, m);
            lemma_resolves_dir_later(o, b, m, old_parent_path@, working_directory, budget, from);
            lemma_resolves_dir_later(o, b, m, new_parent_path@, working_directory, budget, to);
            lemma_grew_same_mounts(b, m);
            lemma_tables_wf(&resolved, &*self);
            assert(m.is_dir(from));
            assert(dir_grew(b, m, from));
            assert(dir_grew(b, m, to));
            assert(m.volume_of(from) == from_volume);
            assert(m.volume_of(to) == to_volume);
            assert(o.histories[to_volume as int].is_prefix_of(b.histories[to_volume as int]));
            assert(b.histories[to_volume as int].is_prefix_of(m.histories[to_volume as int]));
        }
        match known {
            Err(e) => {
                proof {
                    lemma_asked_later(
                        o,
                        b,
                        m,
                        to_volume,
                        DriverCall::ReadDir { directory: m.inode_of(to), reply: Err(e) },
                    );
                    assert(renames_in(o, m, m, from, old_name@, to, new_name@, Err(e)));
                }
                return Err(e);
            },
            Ok(true) => {
                assert(renames_in(
                    o,
                    m,
                    m,
                    from,
                    old_name@,
                    to,
                    new_name@,
                    Err(FileSystemError::AlreadyExists),
                ));
                return Err(FileSystemError::AlreadyExists);
            },
            Ok(false) => {},
        }
        let ghost checked = *self;
        let t = self.namespace.inode_named(from, old_name);
        let ghost n = self.namespace@;
        proof {
            grew_trans(o, m, n);
            lemma_resolves_dir_later(o, m, n, old_parent_path@, working_directory, budget, from);
            lemma_resolves_dir_later(o, m, n, new_parent_path@, working_directory, budget, to);
            lemma_grew_same_mounts(m, n);
            lemma_tables_wf(&checked, &*self);
            assert(n.is_dir(to));
            assert(dir_grew(m, n, from));
            assert(dir_grew(m, n, to));
            assert(m.dir_wf(from) && m.dir_wf(to));
            assert(n.volume_of(from) == from_volume);
            assert(n.volume_of(to) == to_volume);
            lemma_same_names(m, n, to, new_name@);
            lemma_names_inode_earlier(o, m, n, from, old_name@, t);
        }
        let id: InodeId = match t {
            Err(e) => {
                assert(renames_in(o, n, n, from, old_name@, to, new_name@, Err(e)));
                return Err(e);
            },
            Ok(id) => id,
        };
        if self.namespace.inodes[id].filesystem != to_volume {
            assert(renames_in(
                o,
                n,
                n,
                from,
                old_name@,
                to,
                new_name@,
                Err(FileSystemError::InvalidPath),
            ));
            return Err(FileSystemError::InvalidPath);
        }
        let r = self.rename_in(from, old_name, to, new_name, id);
        assert(renames_in(o, n, self.namespace@, from, old_name@, to, new_name@, r));
        r
    }
}

/// What was moved is listed under its new name, and no longer under the old
/// one, if that occurred once.
proof fn lemma_moved_is_listed(
    w: NamespaceModel,
    old_parent: DirectoryId,
    old_name: Seq<char>,
    new_parent: DirectoryId,
    new_name: Seq<char>,
    id: InodeId,
)
    requires
        is_entry_name(old_name),
        w.is_dir(old_parent),
        w.is_dir(new_parent),
        w.directories[old_parent as int].children matches Some(list) && has_child(list, old_name),
        w.directories[new_parent as int].children matches Some(list) && !has_child(list, new_name),
    ensures
        ({
            let s = after_move(w, old_parent, old_name, new_parent, new_name, id);
            &&& leads_to(
                s,
                new_parent,
                new_name,
                entry_type_of(w.inodes[id as int].inode_type),
                id,
            )
            &&& names_distinct(w.directories[old_parent as int].children->0)
                ==> s.directories[old_parent as int].children is Some && !has_child(
                s.directories[old_parent as int].children->0,
                old_name,
            )
        }),
{
    let s = after_move(w, old_parent, old_name, new_parent, new_name, id);
    let list = w.directories[old_parent as int].children->0;
    let target = w.directories[new_parent as int].children->0;
    let left = without_child(list, old_name);
    let x = w.with_children(old_parent, left);
    let before = x.directories[new_parent as int].children->0;
    let inode = w.inodes[id as int];
    let entry = EntryModel {
        name: new_name,
        inode_number: inode.inode_number,
        entry_type: entry_type_of(inode.inode_type),
        inode: Some(id),
    };
    lemma_child_index(list, old_name);
    lemma_child_index(target, new_name);
    lemma_child_index(left, new_name);
    if old_parent == new_parent && has_child(left, new_name) {
        let i = child_index(left, new_name);
        let at = child_index(list, old_name);
        if i == at {
            assert(left[i] == list[list.len() - 1]);
            assert(target[list.len() - 1].name == new_name);
        } else {
            assert(left[i] == list[i]);
            assert(target[i].name == new_name);
        }
    }
    assert(!has_child(before, new_name));
    assert(s.directories[new_parent as int].children == Some(before.push(entry)));
    added_child_is_found(before, entry, new_name);
    if names_distinct(list) {
        removed_child_is_gone(list, old_name, old_name);
        if old_parent == new_parent {
            added_child_is_found(before, entry, old_name);
        }
    }
}

/// The inode `id`, which the old path led to in namespace `n` as an entry of
/// `from`, is an entry of `to` in namespace `s`, under the last name of the new
/// path. Its old name is gone if it occurred once. To move a plain file leaves
/// both directories where they are.
pub open spec fn moved_to(
    o: NamespaceModel,
    n: NamespaceModel,
    s: NamespaceModel,
    old_path: Seq<char>,
    new_path: Seq<char>,
    working_directory: Option<DirectoryId>,
    from: DirectoryId,
    to: DirectoryId,
    id: InodeId,
) -> bool {
    let budget = MAX_SYMLINK_DEPTH as nat;
    let old_parent = parent_of(old_path);
    let new_parent = parent_of(new_path);
    &&& grew(o, n)
    &&& resolves_dir(o, n, old_parent, working_directory, budget, Ok(from))
    &&& resolves_dir(o, n, new_parent, working_directory, budget, Ok(to))
    &&& leads_to_inode(n, from, name_of(old_path), id)
    &&& s.is_dir(from)
    &&& s.is_dir(to)
    &&& s.inodes == n.inodes
    &&& extends(n, s)
    &&& leads_to(s, to, name_of(new_path), entry_type_of(n.inodes[id as int].inode_type), id)
    &&& names_distinct(n.directories[from as int].children->0) ==> lacks(
        s,
        from,
        name_of(old_path),
    )
    &&& is_plain_file(n, from, id) ==> {
        &&& resolves_dir(o, s, old_parent, working_directory, budget, Ok(from))
        &&& resolves_dir(o, s, new_parent, working_directory, budget, Ok(to))
    }
}

/// Moving a plain file takes nothing else away.
proof fn lemma_move_keeps(
    n: NamespaceModel,
    u: NamespaceModel,
    s: NamespaceModel,
    call: DriverCall,
    from: DirectoryId,
    old_name: Seq<char>,
    to: DirectoryId,
    new_name: Seq<char>,
    id: InodeId,
)
    requires
        n.is_dir(from),
        n.is_dir(to),
        is_entry_name(old_name),
        leads_to_inode(n, from, old_name, id),
        n.directories[to as int].children matches Some(list) && !has_child(list, new_name),
        n.volume_of(from) < n.histories.len(),
        u == n.with_call(n.volume_of(from), call),
        s == after_move(u, from, old_name, to, new_name, id),
    ensures
        s.is_dir(from),
        s.is_dir(to),
        s.inodes == n.inodes,
        extends(n, s),
        is_plain_file(n, from, id) ==> keeps(n, s, false),
{
    let v = n.volume_of(from) as int;
    assert(n.histories[v].is_prefix_of(u.histories[v]));
    assert forall|i: int| 0 <= i < n.histories.len() implies (
    #[trigger] n.histories[i]).is_prefix_of(s.histories[i]) by {}
    if is_plain_file(n, from, id) {
        let list = n.directories[from as int].children->0;
        let left = without_child(list, old_name);
        let x = u.with_children(from, left);
        let before = x.directories[to as int].children->0;
        let inode = n.inodes[id as int];
        let entry = EntryModel {
            name: new_name,
            inode_number: inode.inode_number,
            entry_type: entry_type_of(inode.inode_type),
            inode: Some(id),
        };
        removed_child_is_gone(list, old_name, new_name);
        assert(!has_child(before, new_name));
        assert(s.directories[to as int].children == Some(before.push(entry)));
        assert forall|d: DirectoryId, name: Seq<char>, t: DirectoryEntryType, k: InodeId|
            n.is_dir(d) && !(t is File) && #[trigger] leads_to(n, d, name, t, k) implies leads_to(
            s,
            d,
            name,
            t,
            k,
        ) by {
            let was = n.directories[d as int].children->0;
            if d == from {
                removed_child_is_gone(list, old_name, name);
                if name == old_name {
                    assert(leads_to(n, from, name, t, id));
                }
            }
            if d == to {
                added_child_is_found(before, entry, name);
                lemma_child_index(before, name);
            }
        }
    }
}

/// A rename that succeeds moves what the old path led to: it is listed where the
/// new path says, and no longer under the old name, if that occurred once. The
/// result names the namespace in which both paths were resolved, the two
/// directories and the inode.
pub proof fn renamed_is_found(
    o: NamespaceModel,
    s: NamespaceModel,
    old_path: Seq<char>,
    new_path: Seq<char>,
    working_directory: Option<DirectoryId>,
) -> (w: (NamespaceModel, DirectoryId, DirectoryId, InodeId))
    requires
        o.wf(),
        wd_wf(o, working_directory),
        renames(o, s, old_path, new_path, working_directory, Ok(())),
        is_entry_name(name_of(old_path)),
    ensures
        parent_and_name(old_path) is Some,
        parent_and_name(new_path) is Some,
        moved_to(o, w.0, s, old_path, new_path, working_directory, w.1, w.2, w.3),
{
    let budget = MAX_SYMLINK_DEPTH as nat;
    let (old_parent, old_name) = parent_and_name(old_path)->0;
    let (new_parent, new_name) = parent_and_name(new_path)->0;
    let ok = Ok::<(), FileSystemError>(());
    let (n, p) = choose|n: NamespaceModel, p: Result<DirectoryId, FileSystemError>|
        grew(o, n) && n.wf() && #[trigger] resolves_dir(
            o,
            n,
            old_parent,
            working_directory,
            budget,
            p,
        ) && match p {
            Err(e) => s == n && ok == Err::<(), FileSystemError>(e),
            Ok(from) => n.is_dir(from) && exists|q: Result<DirectoryId, FileSystemError>|
                #[trigger] resolves_dir(o, n, new_parent, working_directory, budget, q)
                    && match q {
                    Err(e) => s == n && ok == Err::<(), FileSystemError>(e),
                    Ok(to) => n.is_dir(to) && renames_in(
                        o,
                        n,
                        s,
                        from,
                        old_name,
                        to,
                        new_name,
                        ok,
                    ),
                },
        };
    let from = p->Ok_0;
    let q = choose|q: Result<DirectoryId, FileSystemError>|
        #[trigger] resolves_dir(o, n, new_parent, working_directory, budget, q) && match q {
            Err(e) => s == n && ok == Err::<(), FileSystemError>(e),
            Ok(to) => n.is_dir(to) && renames_in(o, n, s, from, old_name, to, new_name, ok),
        };
    let to = q->Ok_0;
    let id = lemma_moved(o, n, s, from, old_name, to, new_name);
    if is_plain_file(n, from, id) {
        assert(wd_wf(n, working_directory));
        lemma_dir_kept(o, n, s, old_parent, working_directory, budget, from);
        lemma_dir_kept(o, n, s, new_parent, working_directory, budget, to);
    }
    (n, from, to, id)
}

/// What a rename that succeeds does to the two listings.
proof fn lemma_moved(
    o: NamespaceModel,
    n: NamespaceModel,
    s: NamespaceModel,
    from: DirectoryId,
    old_name: Seq<char>,
    to: DirectoryId,
    new_name: Seq<char>,
) -> (id: InodeId)
    requires
        n.wf(),
        n.is_dir(from),
        n.is_dir(to),
        is_entry_name(old_name),
        renames_in(o, n, s, from, old_name, to, new_name, Ok(())),
    ensures
        leads_to_inode(n, from, old_name, id),
        s.is_dir(from),
        s.is_dir(to),
        s.inodes == n.inodes,
        extends(n, s),
        leads_to(s, to, new_name, entry_type_of(n.inodes[id as int].inode_type), id),
        names_distinct(n.directories[from as int].children->0) ==> lacks(s, from, old_name),
        is_plain_file(n, from, id) ==> keeps(n, s, false),
{
    let ok = Ok::<(), FileSystemError>(());
    let t = choose|t: Result<InodeId, FileSystemError>|
        #[trigger] names_inode(o, n, from, old_name, t) && match t {
            Err(e) => s == n && ok == Err::<(), FileSystemError>(e),
            Ok(id) => id < n.inodes.len()
                && if n.inodes[id as int].filesystem != n.volume_of(to) {
                s == n && ok == Err::<(), FileSystemError>(FileSystemError::InvalidPath)
            } else {
                moves(n, s, from, old_name, to, new_name, id, ok)
            },
        };
    let id = t->Ok_0;
    assert(leads_to_inode(n, from, old_name, id));
    let reply = choose|reply: Result<(), FileSystemError>| {
        let u = #[trigger] n.with_call(
            n.volume_of(from),
            DriverCall::Rename {
                old_parent: n.inode_of(from),
                old_name,
                new_parent: n.inode_of(to),
                new_name,
                reply,
            },
        );
        match reply {
            Err(e) => s == u && ok == Err::<(), FileSystemError>(e),
            Ok(_) => shows_move(u, s, from, old_name, to, new_name, id, ok),
        }
    };
    let call = DriverCall::Rename {
        old_parent: n.inode_of(from),
        old_name,
        new_parent: n.inode_of(to),
        new_name,
        reply,
    };
    let u = n.with_call(n.volume_of(from), call);
    assert(s == after_move(u, from, old_name, to, new_name, id));
    assert(n.dir_wf(from));
    assert(n.volume_of(from) < n.histories.len());
    lemma_moved_is_listed(u, from, old_name, to, new_name, id);
    lemma_move_keeps(n, u, s, call, from, old_name, to, new_name, id);
    id
}

/// The new path resolves to what was renamed, as long as the path of its parent
/// leads where it led.
pub proof fn renamed_is_resolved(
    o: NamespaceModel,
    n: NamespaceModel,
    s: NamespaceModel,
    old_path: Seq<char>,
    new_path: Seq<char>,
    working_directory: Option<DirectoryId>,
    from: DirectoryId,
    to: DirectoryId,
    id: InodeId,
    follow: bool,
)
    requires
        s.wf(),
        wd_wf(s, working_directory),
        parent_and_name(new_path) is Some,
        is_entry_name(name_of(new_path)),
        moved_to(o, n, s, old_path, new_path, working_directory, from, to, id),
        is_plain_file(n, from, id) || resolves_dir(
            o,
            s,
            parent_of(new_path),
            working_directory,
            MAX_SYMLINK_DEPTH as nat,
            Ok(to),
        ),
        s.inodes[id as int].inode_type is Symlink ==> !follow,
        s.inodes[id as int].inode_type is Directory ==> !s.inodes[id as int].mount_flag
            && s.has_dir(id),
    ensures
        resolves(
            o,
            s,
            new_path,
            working_directory,
            follow,
            MAX_SYMLINK_DEPTH as nat,
            Ok(id),
        ),
{
    entry_is_resolved(
        o,
        s,
        new_path,
        working_directory,
        follow,
        MAX_SYMLINK_DEPTH as nat,
        to,
        entry_type_of(s.inodes[id as int].inode_type),
        id,
    );
}

/// Whoever resolves the two paths of a plain file that was renamed gets it by
/// the new one and nothing by the old one. Drivers have to give the same answer
/// whenever they are asked the same.
pub proof fn renamed_file_is_found_later(
    o: NamespaceModel,
    n: NamespaceModel,
    s: NamespaceModel,
    t: NamespaceModel,
    old_path: Seq<char>,
    new_path: Seq<char>,
    working_directory: Option<DirectoryId>,
    from: DirectoryId,
    to: DirectoryId,
    id: InodeId,
    follow: bool,
    r: Result<InodeId, FileSystemError>,
)
    requires
        s.wf(),
        t.wf(),
        wd_wf(s, working_directory),
        parent_and_name(old_path) is Some,
        parent_and_name(new_path) is Some,
        is_entry_name(name_of(old_path)),
        is_entry_name(name_of(new_path)),
        moved_to(o, n, s, old_path, new_path, working_directory, from, to, id),
        is_plain_file(n, from, id),
        grew(s, t),
        steady(o, t),
    ensures
        resolves(s, t, new_path, working_directory, follow, MAX_SYMLINK_DEPTH as nat, r) ==> r
            == Ok::<InodeId, FileSystemError>(id),
        resolves(s, t, old_path, working_directory, follow, MAX_SYMLINK_DEPTH as nat, r) ==> r
            == Err::<InodeId, FileSystemError>(FileSystemError::NotFound),
{
    let budget = MAX_SYMLINK_DEPTH as nat;
    assert forall|v: int| 0 <= v < o.histories.len() implies (
    #[trigger] o.histories[v]).is_prefix_of(s.histories[v]) by {
        assert(o.histories[v].is_prefix_of(n.histories[v]));
        assert(n.histories[v].is_prefix_of(s.histories[v]));
    }
    grew_keeps(s, t);
    if resolves(s, t, new_path, working_directory, follow, budget, r) {
        lemma_dir_kept(o, s, t, parent_of(new_path), working_directory, budget, to);
        lemma_resolves_earlier(o, s, t, new_path, working_directory, follow, budget, r);
        only_the_entry_is_resolved(
            o,
            t,
            new_path,
            working_directory,
            follow,
            budget,
            to,
            DirectoryEntryType::File,
            id,
            r,
        );
    }
    if resolves(s, t, old_path, working_directory, follow, budget, r) {
        lemma_dir_kept(o, s, t, parent_of(old_path), working_directory, budget, from);
        lemma_resolves_earlier(o, s, t, old_path, working_directory, follow, budget, r);
        lemma_same_names(s, t, from, name_of(old_path));
        missing_name_is_only_not_found(
            o,
            t,
            old_path,
            working_directory,
            follow,
            budget,
            from,
            r,
        );
    }
}

} // verus!

//! What is kept of listings, inodes, open files and volumes while operations go
//! on.

use vstd::prelude::*;

use super::directory::{child_index, has_child, listed, DirectoryId, DirectoryModel};
use super::driver::{DriverCall, Instance};
use super::effects::names_are_listed;
use super::file::{FileHandle, FileId};
use super::inode::{shared_record, EntryModel, Inode, InodeId, VolumeId};
use super::mounting::{asked_for_root, mounted, roots, unmounts_from};
use super::namespace::{asked, asked_for_missing, child_found, grew, was_missing, NamespaceModel};
use super::outcomes::{lists_name, unchanged};
use super::path::{dot, dot_dot, name_of, parent_and_name, parent_of};
use super::removal::{deletes, names_inode, takes_name, without_child};
use super::renaming::{moves, renames, renames_in, shows_move, with_entry};
use super::types::{
    AccessMode, DirectoryEntryType, FileLockState, FileSystemError, InodeStat, OpenFileKey,
    Permissions,
};
use super::vfs::{resolves_dir, VirtualFileSystem};

verus! {

/// Looking something up takes nothing away: inodes stay as they are, directories
/// stay where they are, and entries keep their place, name, number and type, and
/// the inode they were loaded as.
pub proof fn lookups_take_nothing_away(
    o: NamespaceModel,
    s: NamespaceModel,
    d: DirectoryId,
    k: int,
    i: int,
)
    requires
        grew(o, s),
        o.is_dir(d),
        0 <= k < o.inodes.len(),
    ensures
        s.is_dir(d),
        s.root == o.root,
        s.ids == o.ids,
        s.inodes[k] == o.inodes[k],
        s.directories[d as int].inode == o.directories[d as int].inode,
        s.directories[d as int].parent == o.directories[d as int].parent,
        s.directories[d as int].mount_root == o.directories[d as int].mount_root,
        o.directories[d as int].children is Some ==> s.directories[d as int].children is Some,
        o.directories[d as int].children is Some ==> {
            let list = o.directories[d as int].children->0;
            let later = s.directories[d as int].children->0;
            &&& later.len() == list.len()
            &&& 0 <= i < list.len() ==> {
                &&& later[i].name == list[i].name
                &&& later[i].inode_number == list[i].inode_number
                &&& later[i].entry_type == list[i].entry_type
                &&& list[i].inode is Some ==> later[i].inode == list[i].inode
            }
        },
{
    assert(s.is_dir(d));
    assert(o.inodes.is_prefix_of(s.inodes));
    assert(s.inodes.subrange(0, o.inodes.len() as int)[k] == s.inodes[k]);
}

/// Looking something up asks drivers for listings, inodes and the targets of
/// symlinks, and for nothing that is in memory.
pub proof fn lookups_only_ask(
    o: NamespaceModel,
    s: NamespaceModel,
    v: int,
    k: int,
)
    requires
        grew(o, s),
        0 <= v < o.histories.len(),
        v <= usize::MAX,
        o.histories[v].len() <= k < s.histories[v].len(),
    ensures
        s.histories[v][k] is ReadDir || s.histories[v][k] is LoadInode || s.histories[v][k]
            is ReadSymlink,
        s.histories[v][k] matches DriverCall::ReadDir { directory, .. } ==> exists|d: DirectoryId|
            #[trigger] s.is_dir(d) && s.inodes[s.directories[d as int].inode as int] == directory
                && directory.filesystem == v && (o.is_dir(d)
                ==> o.directories[d as int].children is None),
{
    reveal(asked_for_missing);
    let call = s.histories[v][k];
    assert(was_missing(o, s, v as VolumeId, call));
    if let DriverCall::ReadDir { directory, .. } = call {
        let d = choose|d: DirectoryId| #[trigger]
            s.is_dir(d) && s.inode_of(d) == directory && s.volume_of(d) == v && (o.is_dir(d)
                ==> o.directories[d as int].children is None);
        assert(s.is_dir(d));
    }
}

/// What is found under a name: nothing if no entry has it, and else what its
/// entry stands for. If the listing or the inode cannot be had, the driver's
/// error is the result.
pub proof fn names_are_found(
    o: NamespaceModel,
    s: NamespaceModel,
    d: DirectoryId,
    name: Seq<char>,
    r: Result<Option<(DirectoryEntryType, InodeId)>, FileSystemError>,
    i: int,
)
    requires
        child_found(o, s, d, name, r),
    ensures
        ({
            let volume = s.inodes[s.directories[d as int].inode as int].filesystem;
            let inode = s.inodes[s.directories[d as int].inode as int];
            &&& s.directories[d as int].children is None ==> (r matches Err(e) && asked(
                o,
                s,
                volume,
                DriverCall::ReadDir { directory: inode, reply: Err(e) },
            ))
            &&& s.directories[d as int].children is Some && !lists_name(s, d, name) ==> r == Ok::<
                Option<(DirectoryEntryType, InodeId)>,
                FileSystemError,
            >(None)
            &&& s.directories[d as int].children is Some ==> {
                let list = s.directories[d as int].children->0;
                0 <= i < list.len() && list[i].name == name && (forall|j: int|
                    0 <= j < i ==> (#[trigger] list[j]).name != name) ==> {
                    &&& list[i].inode matches Some(id) ==> r == Ok::<
                        Option<(DirectoryEntryType, InodeId)>,
                        FileSystemError,
                    >(Some((list[i].entry_type, id)))
                    &&& list[i].inode is None ==> (r matches Err(e) && asked(
                        o,
                        s,
                        volume,
                        DriverCall::LoadInode {
                            inode_number: list[i].inode_number,
                            reply: Err(e),
                        },
                    ))
                }
            }
        }),
{
    if let Some(list) = s.directories[d as int].children {
        names_are_listed(list, name);
        if 0 <= i < list.len() && list[i].name == name && (forall|j: int|
            0 <= j < i ==> (#[trigger] list[j]).name != name) {
            super::directory::lemma_child_index_is(list, name, i);
        }
    }
}

/// An entry is loaded once. The driver is asked for the inode of its number if
/// that is not in memory under another name; what it hands out is added behind
/// the inodes that are there. Its name, number and type stay.
pub proof fn entries_are_loaded_once(
    entry: EntryModel,
    after: EntryModel,
    inodes: Seq<Inode>,
    inodes_after: Seq<Inode>,
    volume: VolumeId,
    history: Seq<DriverCall>,
    history_after: Seq<DriverCall>,
    r: Result<InodeId, FileSystemError>,
)
    requires
        inodes.len() < usize::MAX,
        super::inode::loads_entry(
            entry,
            after,
            inodes,
            inodes_after,
            volume,
            history,
            history_after,
            r,
        ),
    ensures
        after.name == entry.name,
        after.inode_number == entry.inode_number,
        after.entry_type == entry.entry_type,
        r matches Ok(id) ==> after.inode == Some(id),
        r is Err ==> after.inode is None && inodes_after == inodes,
        entry.inode matches Some(id) ==> r == Ok::<InodeId, FileSystemError>(id),
        entry.inode is Some || shared_record(inodes, volume, entry.inode_number, entry.entry_type)
            is Some ==> history_after == history && inodes_after == inodes && r is Ok,
        entry.inode is None ==> (shared_record(
            inodes,
            volume,
            entry.inode_number,
            entry.entry_type,
        ) matches Some(id) ==> r == Ok::<InodeId, FileSystemError>(id)),
        entry.inode is None && shared_record(inodes, volume, entry.inode_number, entry.entry_type)
            is None ==> {
            &&& history_after.len() == history.len() + 1
            &&& history_after.drop_last() == history
            &&& history_after.last() matches DriverCall::LoadInode { inode_number, reply }
                && inode_number == entry.inode_number && match reply {
                Err(e) => r == Err::<InodeId, FileSystemError>(e),
                Ok(record) => r == Ok::<InodeId, FileSystemError>(inodes.len() as InodeId)
                    && inodes_after.drop_last() == inodes && inodes_after.last().filesystem
                    == volume && inodes_after.last().inode_number == record.inode_number
                    && inodes_after.last().size == record.size,
            }
        },
{
    if entry.inode is None && shared_record(inodes, volume, entry.inode_number, entry.entry_type)
        is None {
        assert(history_after.drop_last() =~= history);
        if r is Ok {
            assert(inodes_after.drop_last() =~= inodes);
        }
    }
}

/// Closing a handle releases the lock if the handle has it, and no other; no
/// record of another file changes, and nothing is numbered anew.
pub proof fn closing_settles_the_record(
    before: VirtualFileSystem,
    handle: FileHandle,
    handle_value: u32,
    f: int,
)
    requires
        before.wf(),
        handle.file < before.files@.len(),
        0 <= f < before.files@.len(),
    ensures
        forall|vfs: &mut VirtualFileSystem, r: Result<(), FileSystemError>|
            *vfs == before && #[trigger] call_ensures(
                VirtualFileSystem::close,
                (vfs, handle, handle_value),
                r,
            ) ==> {
                let file = before.files@[handle.file as int];
                let later = final(vfs).files@[handle.file as int];
                let held = file.lock_state == (FileLockState::WriteExclusive {
                    holder_handle: handle_value,
                });
                &&& held ==> later.lock_state == FileLockState::Unlocked
                &&& !held ==> later.lock_state == file.lock_state
                &&& later.pending_deletion == file.pending_deletion
                &&& f != handle.file ==> final(vfs).files@[f] == before.files@[f]
                &&& final(vfs).next_handle_id == before.next_handle_id
                &&& final(vfs).next_filesystem_id == before.next_filesystem_id
                &&& final(vfs).mounts == before.mounts
                &&& final(vfs).mounted_root_index == before.mounted_root_index
                &&& final(vfs).drivers == before.drivers
                &&& final(vfs).namespace@.inodes == before.namespace@.inodes
                &&& final(vfs).namespace@.directories == before.namespace@.directories
                &&& final(vfs).namespace@.root == before.namespace@.root
            },
{
}

/// Once a driver has taken a device, the root of the volume decides: if it
/// cannot be had, the driver's error is the result, and if it is no directory,
/// that is; else the volume is mounted.
pub proof fn root_decides(
    before: &VirtualFileSystem,
    after: &VirtualFileSystem,
    n: NamespaceModel,
    h: DirectoryId,
    instance: Instance,
    r: Result<(), FileSystemError>,
)
    requires
        roots(before, after, n, h, instance, r),
    ensures
        after.next_filesystem_id == before.next_filesystem_id + 1,
        after.next_handle_id == before.next_handle_id,
        after.files == before.files,
        after.open_files == before.open_files,
        after.drivers == before.drivers,
        exists|used: Instance, root: Result<Inode, FileSystemError>|
            {
                &&& #[trigger] asked_for_root(instance, used, root)
                &&& (root matches Err(e) ==> r == Err::<(), FileSystemError>(e))
                &&& (root matches Ok(inode) ==> if inode.inode_type is Directory {
                    r is Ok && mounted(before, after, n, h, used.filesystem.history(), inode)
                } else {
                    r == Err::<(), FileSystemError>(FileSystemError::NotADirectory)
                })
                &&& r is Err ==> unchanged(after.namespace@, n) && after.mounts == before.mounts
                    && after.mounted_root_index == before.mounted_root_index
            },
{
    let (used, root) = choose|used: Instance, root: Result<Inode, FileSystemError>| {
        &&& #[trigger] asked_for_root(instance, used, root)
        &&& match root {
            Ok(inode) if inode.inode_type is Directory => {
                &&& r == Ok::<(), FileSystemError>(())
                &&& mounted(before, after, n, h, used.filesystem.history(), inode)
            },
            _ => {
                &&& r == Err::<(), FileSystemError>(
                    match root {
                        Ok(_) => FileSystemError::NotADirectory,
                        Err(e) => e,
                    },
                )
                &&& after.namespace@ == n
                &&& after.mounts == before.mounts
                &&& after.mounted_root_index == before.mounted_root_index
            },
        }
    };
    assert(asked_for_root(instance, used, root));
}

/// What unmounting changes: the directory has no root of a volume any more, and
/// its inode is marked no longer. All else in memory stays.
pub proof fn unmounting_changes(
    before: &VirtualFileSystem,
    after: &VirtualFileSystem,
    n: NamespaceModel,
    h: DirectoryId,
    r: Result<(), FileSystemError>,
    x: int,
    k: int,
)
    requires
        n.wf(),
        n.is_dir(h),
        n.inodes[n.directories[h as int].inode as int].mount_flag,
        unmounts_from(before, after, n, h, r),
        r != Err::<(), FileSystemError>(FileSystemError::FileLocked),
        0 <= x < n.directories.len(),
        0 <= k < n.inodes.len(),
    ensures
        ({
            let s = after.namespace@;
            let i = n.directories[h as int].inode as int;
            &&& s.directories.len() == n.directories.len()
            &&& s.directories[x].inode == n.directories[x].inode
            &&& s.directories[x].parent == n.directories[x].parent
            &&& s.directories[x].children == n.directories[x].children
            &&& s.directories[x].mount_root == if x == h {
                None
            } else {
                n.directories[x].mount_root
            }
            &&& s.inodes.len() == n.inodes.len()
            &&& s.inodes[k] == if k == i {
                Inode { mount_flag: false, ..n.inodes[i] }
            } else {
                n.inodes[k]
            }
            &&& s.ids == n.ids
            &&& s.root == n.root
            &&& after.files == before.files
            &&& after.open_files == before.open_files
            &&& after.drivers == before.drivers
            &&& after.next_filesystem_id == before.next_filesystem_id
            &&& after.next_handle_id == before.next_handle_id
        }),
{
    assert(n.dir_wf(h));
}

/// A renaming goes by the parents of both paths: the old one is resolved first,
/// then the new one, with sixteen symlinks at most for each. Errors are passed
/// on.
pub proof fn renaming_goes_by_parents(
    o: NamespaceModel,
    s: NamespaceModel,
    old_path: Seq<char>,
    new_path: Seq<char>,
    wd: Option<DirectoryId>,
    r: Result<(), FileSystemError>,
)
    requires
        parent_and_name(old_path) is Some,
        parent_and_name(new_path) is Some,
        renames(o, s, old_path, new_path, wd, r),
    ensures
        exists|n: NamespaceModel, p: Result<DirectoryId, FileSystemError>|
            #[trigger] resolves_dir(o, n, parent_of(old_path), wd, 16, p) && grew(o, n) && match p {
                Err(e) => unchanged(n, s) && r == Err::<(), FileSystemError>(e),
                Ok(from) => exists|q: Result<DirectoryId, FileSystemError>|
                    #[trigger] resolves_dir(o, n, parent_of(new_path), wd, 16, q) && match q {
                        Err(e) => unchanged(n, s) && r == Err::<(), FileSystemError>(e),
                        Ok(to) => renames_in(
                            o,
                            n,
                            s,
                            from,
                            name_of(old_path),
                            to,
                            name_of(new_path),
                            r,
                        ),
                    },
            },
{
    let old_parent = parent_of(old_path);
    let new_parent = parent_of(new_path);
    let (n, p) = choose|n: NamespaceModel, p: Result<DirectoryId, FileSystemError>|
        grew(o, n) && n.wf() && #[trigger] resolves_dir(o, n, old_parent, wd, 16, p) && match p {
            Err(e) => s == n && r == Err::<(), FileSystemError>(e),
            Ok(from) => n.is_dir(from) && exists|q: Result<DirectoryId, FileSystemError>|
                #[trigger] resolves_dir(o, n, new_parent, wd, 16, q) && match q {
                    Err(e) => s == n && r == Err::<(), FileSystemError>(e),
                    Ok(to) => n.is_dir(to) && renames_in(
                        o,
                        n,
                        s,
                        from,
                        name_of(old_path),
                        to,
                        name_of(new_path),
                        r,
                    ),
                },
        };
    assert(resolves_dir(o, n, old_parent, wd, 16, p));
}

/// What is renamed is what the old name stands for. If it stands for nothing,
/// that is the error; if for something on another volume, the path is refused;
/// else it is moved.
pub proof fn renaming_moves_what_is_named(
    o: NamespaceModel,
    n: NamespaceModel,
    s: NamespaceModel,
    from: DirectoryId,
    old_name: Seq<char>,
    to: DirectoryId,
    new_name: Seq<char>,
    r: Result<(), FileSystemError>,
)
    requires
        renames_in(o, n, s, from, old_name, to, new_name, r),
        n.volume_of(from) == n.volume_of(to),
        n.directories[to as int].children is Some,
        !lists_name(n, to, new_name),
    ensures
        exists|t: Result<InodeId, FileSystemError>|
            #[trigger] names_inode(o, n, from, old_name, t) && match t {
                Err(e) => unchanged(n, s) && r == Err::<(), FileSystemError>(e),
                Ok(id) => if n.inodes[id as int].filesystem
                    != n.inodes[n.directories[to as int].inode as int].filesystem {
                    unchanged(n, s) && r == Err::<(), FileSystemError>(FileSystemError::InvalidPath)
                } else {
                    moves(n, s, from, old_name, to, new_name, id, r)
                },
            },
{
    names_are_listed(n.directories[to as int].children->0, new_name);
}

/// `.` and `..` are no entries. If the driver moves one, and the listing has no
/// entry of that name, that is an internal error, and both listings stay.
pub proof fn dots_are_not_moved(
    u: NamespaceModel,
    s: NamespaceModel,
    from: DirectoryId,
    old_name: Seq<char>,
    to: DirectoryId,
    new_name: Seq<char>,
    id: InodeId,
    r: Result<(), FileSystemError>,
)
    requires
        old_name == seq!['.'] || old_name == seq!['.', '.'],
        u.is_dir(from),
        u.directories[from as int].children is Some,
        !lists_name(u, from, old_name),
        shows_move(u, s, from, old_name, to, new_name, id, r),
    ensures
        r == Err::<(), FileSystemError>(FileSystemError::InternalError),
        s.directories[from as int].children == u.directories[from as int].children,
        s.inodes == u.inodes,
        s.histories == u.histories,
{
    assert(seq!['.'] =~= dot());
    assert(seq!['.', '.'] =~= dot_dot());
    names_are_listed(u.directories[from as int].children->0, old_name);
}

/// A name is taken out of a listing that is in memory without asking the driver,
/// and the result tells if it was there. A listing that is not in memory is asked
/// for first; an error is passed on.
pub proof fn names_are_taken_out(
    u: NamespaceModel,
    w: NamespaceModel,
    d: DirectoryId,
    name: Seq<char>,
    r: Result<bool, FileSystemError>,
)
    requires
        u.is_dir(d),
        u.volume_of(d) < u.histories.len(),
        takes_name(u, w, d, name, r),
    ensures
        w.inodes == u.inodes,
        w.root == u.root,
        w.directories.len() == u.directories.len(),
        u.directories[d as int].children is Some ==> {
            &&& w.histories == u.histories
            &&& r == Ok::<bool, FileSystemError>(lists_name(u, d, name))
            &&& w.directories[d as int].children == Some(
                without_child(u.directories[d as int].children->0, name),
            )
        },
        u.directories[d as int].children is None ==> {
            let v = u.volume_of(d) as int;
            &&& w.histories[v].drop_last() == u.histories[v]
            &&& w.histories[v].last() matches DriverCall::ReadDir { directory, reply } && directory
                == u.inodes[u.directories[d as int].inode as int] && (reply matches Err(e) ==> r
                == Err::<bool, FileSystemError>(e)) && (reply is Ok ==> r is Ok)
        },
{
    if let Some(list) = u.directories[d as int].children {
        names_are_listed(list, name);
    } else {
        let v = u.volume_of(d) as int;
        assert(w.histories[v].drop_last() =~= u.histories[v]);
    }
}

/// An entry for an inode that is not to be loaded has its name, its number and
/// its type, and is the last of the listing.
pub proof fn entries_can_wait_to_be_loaded(
    s: NamespaceModel,
    d: DirectoryId,
    name: Seq<char>,
    id: InodeId,
)
    requires
        s.is_dir(d),
        s.directories[d as int].children is Some,
    ensures
        ({
            let t = with_entry(s, d, name, id, false);
            let list = s.directories[d as int].children->0;
            let next = t.directories[d as int].children->0;
            &&& next.drop_last() == list
            &&& next.last().name == name
            &&& next.last().inode_number == s.inodes[id as int].inode_number
            &&& next.last().inode is None
            &&& t.inodes == s.inodes
            &&& t.histories == s.histories
        }),
{
    let list = s.directories[d as int].children->0;
    assert(with_entry(s, d, name, id, false).directories[d as int].children->0.drop_last() =~= list);
}

/// Where a name leads is the first entry that has it.
pub proof fn first_entry_counts(list: Seq<EntryModel>, name: Seq<char>, i: int)
    requires
        0 <= i < list.len(),
        list[i].name == name,
        forall|j: int| 0 <= j < i ==> (#[trigger] list[j]).name != name,
    ensures
        has_child(list, name),
        child_index(list, name) == i,
{
    super::directory::lemma_child_index_is(list, name, i);
}

/// What only goes by paths, and what fails to open, leaves the tables of files,
/// handles, mounts and drivers as they are.
pub proof fn tables_are_kept(
    before: VirtualFileSystem,
    path: &str,
    other: &str,
    mode: AccessMode,
    p: Permissions,
    wd: Option<DirectoryId>,
    follow: bool,
    now: u64,
)
    ensures
        forall|vfs: &mut VirtualFileSystem, r: Result<FileHandle, FileSystemError>|
            *vfs == before && #[trigger] call_ensures(
                VirtualFileSystem::open,
                (vfs, path, mode, wd),
                r,
            ) && r is Err ==> final(vfs).same_tables(&before),
        forall|vfs: &mut VirtualFileSystem, r: Result<InodeStat, FileSystemError>|
            *vfs == before && #[trigger] call_ensures(
                VirtualFileSystem::stat,
                (vfs, path, wd, follow),
                r,
            ) ==> final(vfs).same_tables(&before),
        forall|vfs: &mut VirtualFileSystem, r: Result<InodeId, FileSystemError>|
            *vfs == before && #[trigger] call_ensures(
                VirtualFileSystem::create_file,
                (vfs, path, p, wd, now),
                r,
            ) ==> final(vfs).same_tables(&before),
        forall|vfs: &mut VirtualFileSystem, r: Result<InodeId, FileSystemError>|
            *vfs == before && #[trigger] call_ensures(
                VirtualFileSystem::create_directory,
                (vfs, path, p, wd, now),
                r,
            ) ==> final(vfs).same_tables(&before),
        forall|vfs: &mut VirtualFileSystem, r: Result<InodeId, FileSystemError>|
            *vfs == before && #[trigger] call_ensures(
                VirtualFileSystem::create_symlink,
                (vfs, path, other, wd, now),
                r,
            ) ==> final(vfs).same_tables(&before),
        forall|vfs: &mut VirtualFileSystem, r: Result<(), FileSystemError>|
            *vfs == before && #[trigger] call_ensures(VirtualFileSystem::delete, (vfs, path, wd), r)
                ==> final(vfs).same_tables(&before),
        forall|vfs: &mut VirtualFileSystem, r: Result<(), FileSystemError>|
            *vfs == before && #[trigger] call_ensures(
                VirtualFileSystem::rename,
                (vfs, path, other, wd),
                r,
            ) ==> final(vfs).same_tables(&before),
{
}

/// Tables are the same if all of them are.
pub proof fn tables_are_seven(after: VirtualFileSystem, before: VirtualFileSystem)
    requires
        after.same_tables(&before),
    ensures
        after.drivers == before.drivers,
        after.mounts == before.mounts,
        after.mounted_root_index == before.mounted_root_index,
        after.files == before.files,
        after.open_files == before.open_files,
        after.next_filesystem_id == before.next_filesystem_id,
        after.next_handle_id == before.next_handle_id,
{
}

/// A path without a last name is deleted nowhere.
pub proof fn deletions_need_a_name(
    o: NamespaceModel,
    s: NamespaceModel,
    open: Map<OpenFileKey, FileId>,
    path: Seq<char>,
    wd: Option<DirectoryId>,
    r: Result<(), FileSystemError>,
)
    requires
        parent_and_name(path) is None,
        deletes(o, s, open, path, wd, r),
    ensures
        unchanged(o, s),
        r == Err::<(), FileSystemError>(FileSystemError::InvalidPath),
{
}

/// The driver is asked for a listing that is not in memory, by the directory's
/// inode and once; for one that is, it is not asked.
pub proof fn listings_are_asked_for_once(
    before: DirectoryModel,
    inode: Inode,
    history: Seq<DriverCall>,
    later: Seq<DriverCall>,
)
    requires
        listed(before, inode, history, later),
    ensures
        before.children is Some ==> later == history,
        before.children is None ==> {
            &&& later.len() == history.len() + 1
            &&& later.drop_last() == history
            &&& later.last() matches DriverCall::ReadDir { directory, .. } && directory == inode
        },
{
    if before.children is None {
        assert(later.drop_last() =~= history);
    }
}

} // verus!

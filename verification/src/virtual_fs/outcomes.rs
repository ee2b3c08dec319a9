//! When operations succeed, and how they fail.

use vstd::prelude::*;

use super::creation::{after_create, creates, creates_in, NewObject};
use super::directory::{child_index, has_child, DirectoryId};
use super::driver::{Device, DriverCall, Instance};
use super::effects::names_are_listed;
use super::file::{live_handles, without_handle, FileHandle, FileId};
use super::inode::{EntryModel, Inode, InodeId};
use super::mounting::{
    asked_for_root, mounted, mounts_at, mounts_on, unmounts_at, unmounts_from, with_mount,
};
use super::namespace::{grew, NamespaceModel};
use super::operations::opened;
use super::path::{dot, dot_dot, name_of, parent_and_name, parent_of};
use super::removal::{
    deletes, deletes_inode, drops_entry, drops_link, names_inode, unlinks, without_child,
};
use super::renaming::{moves, renames, renames_in, reparented, shows_move, with_entry};
use super::types::{
    AccessMode, FileSystemError, InodeStat, InodeType, OpenFileKey, Permissions,
};
use super::vfs::{resolves, resolves_dir, VirtualFileSystem};

verus! {

/// Everything that is asked of drivers, and all that is in memory, is the same.
pub open spec fn unchanged(a: NamespaceModel, b: NamespaceModel) -> bool {
    &&& a.inodes == b.inodes
    &&& a.directories == b.directories
    &&& a.histories == b.histories
    &&& a.ids == b.ids
    &&& a.root == b.root
}

/// A name of the listing is spelled so.
pub open spec fn lists_name(s: NamespaceModel, d: DirectoryId, name: Seq<char>) -> bool {
    s.directories[d as int].children matches Some(list) && exists|i: int|
        0 <= i < list.len() && (#[trigger] list[i]).name == name
}

/// Opening a path follows symlinks, up to sixteen. It gives a handle if the path
/// leads to a file that does not wait to be freed. What is no file is refused as
/// such, and what waits is not found.
pub proof fn opening(
    before: VirtualFileSystem,
    path: &str,
    mode: AccessMode,
    wd: Option<DirectoryId>,
)
    ensures
        forall|vfs: &mut VirtualFileSystem, r: Result<FileHandle, FileSystemError>|
            *vfs == before && #[trigger] call_ensures(
                VirtualFileSystem::open,
                (vfs, path, mode, wd),
                r,
            ) ==> exists|q: Result<InodeId, FileSystemError>|
                {
                    let s = final(vfs).namespace@;
                    &&& #[trigger] resolves(
                        before.namespace@,
                        final(vfs).namespace@,
                        path@,
                        wd,
                        true,
                        16,
                        q,
                    )
                    &&& match q {
                        Err(e) => r == Err::<FileHandle, FileSystemError>(e),
                        Ok(id) => {
                            let inode = s.inodes[id as int];
                            &&& inode.inode_type != InodeType::File ==> r == Err::<
                                FileHandle,
                                FileSystemError,
                            >(FileSystemError::NotAFile)
                            &&& inode.inode_type == InodeType::File && inode.pending_deletion ==> r
                                == Err::<FileHandle, FileSystemError>(FileSystemError::NotFound)
                            &&& inode.inode_type == InodeType::File && !inode.pending_deletion ==> (
                            r matches Ok(handle) && opened(&before, final(vfs), id, mode, handle))
                        },
                    }
                },
{
    assert forall|vfs: &mut VirtualFileSystem, r: Result<FileHandle, FileSystemError>|
        *vfs == before && #[trigger] call_ensures(
            VirtualFileSystem::open,
            (vfs, path, mode, wd),
            r,
        ) implies exists|q: Result<InodeId, FileSystemError>|
        {
            let s = final(vfs).namespace@;
            &&& #[trigger] resolves(
                        before.namespace@,
                        final(vfs).namespace@,
                        path@,
                        wd,
                        true,
                        16,
                        q,
                    )
            &&& match q {
                Err(e) => r == Err::<FileHandle, FileSystemError>(e),
                Ok(id) => {
                    let inode = s.inodes[id as int];
                    &&& inode.inode_type != InodeType::File ==> r == Err::<
                        FileHandle,
                        FileSystemError,
                    >(FileSystemError::NotAFile)
                    &&& inode.inode_type == InodeType::File && inode.pending_deletion ==> r == Err::<
                        FileHandle,
                        FileSystemError,
                    >(FileSystemError::NotFound)
                    &&& inode.inode_type == InodeType::File && !inode.pending_deletion ==> (
                    r matches Ok(handle) && opened(&before, final(vfs), id, mode, handle))
                },
            }
        } by {
        let s = final(vfs).namespace@;
        let q = choose|q: Result<InodeId, FileSystemError>|
            #[trigger] resolves(before.namespace@, s, path@, wd, true, 16, q) && match q {
                Err(e) => r == Err::<FileHandle, FileSystemError>(e),
                Ok(id) => {
                    let inode = s.inodes[id as int];
                    if !(inode.inode_type is File) {
                        r == Err::<FileHandle, FileSystemError>(FileSystemError::NotAFile)
                    } else if inode.pending_deletion {
                        r == Err::<FileHandle, FileSystemError>(FileSystemError::NotFound)
                    } else {
                        r matches Ok(handle) && opened(&before, final(vfs), id, mode, handle)
                    }
                },
            };
        assert(resolves(before.namespace@, s, path@, wd, true, 16, q));
    }
}

/// Metadata is that of what the path resolves to, following a symlink at its end
/// or not, as it was asked; up to sixteen symlinks are followed.
pub proof fn taking_metadata(
    before: VirtualFileSystem,
    path: &str,
    wd: Option<DirectoryId>,
    follow: bool,
)
    ensures
        forall|vfs: &mut VirtualFileSystem, r: Result<InodeStat, FileSystemError>|
            *vfs == before && #[trigger] call_ensures(
                VirtualFileSystem::stat,
                (vfs, path, wd, follow),
                r,
            ) ==> exists|q: Result<InodeId, FileSystemError>|
                #[trigger] resolves(
                    before.namespace@,
                    final(vfs).namespace@,
                    path@,
                    wd,
                    follow,
                    16,
                    q,
                ) && match q {
                    Ok(id) => r == Ok::<InodeStat, FileSystemError>(
                        final(vfs).namespace@.inodes[id as int].stat_of(),
                    ),
                    Err(e) => r == Err::<InodeStat, FileSystemError>(e),
                },
{
}

/// Closing a handle takes it, and those that went out of use, off the list of
/// its record. The record is filed no longer when no handle is left, and then an
/// inode that waits, without a reference, is freed. No driver is asked else.
pub proof fn closing(before: VirtualFileSystem, handle: FileHandle, handle_value: u32)
    requires
        before.wf(),
        handle.file < before.files@.len(),
    ensures
        forall|vfs: &mut VirtualFileSystem, r: Result<(), FileSystemError>|
            *vfs == before && #[trigger] call_ensures(
                VirtualFileSystem::close,
                (vfs, handle, handle_value),
                r,
            ) ==> {
                let o = before.namespace@;
                let s = final(vfs).namespace@;
                let file = before.files@[handle.file as int];
                let inode = o.inodes[file.inode as int];
                let left = live_handles(without_handle(file.handles@, handle.id));
                let key = OpenFileKey {
                    filesystem_id: o.ids[inode.filesystem as int],
                    inode_number: inode.inode_number,
                };
                let filed = before.open_files@.contains_key(key);
                &&& final(vfs).files@.len() == before.files@.len()
                &&& final(vfs).files@[handle.file as int].handles@ == left
                &&& final(vfs).files@[handle.file as int].inode == file.inode
                &&& left.len() > 0 || !filed ==> final(vfs).open_files@ == before.open_files@
                    && unchanged(o, s) && r is Ok
                &&& left.len() == 0 && filed ==> final(vfs).open_files@ == before.open_files@.remove(
                    key,
                )
                &&& left.len() == 0 && filed && before.open_files@[key] == handle.file ==> {
                    let v = inode.filesystem as int;
                    let freed = inode.pending_deletion && inode.link_count == 0;
                    &&& !freed ==> unchanged(o, s) && r is Ok
                    &&& freed ==> s.inodes == o.inodes && s.directories == o.directories
                        && s.histories[v] == o.histories[v].push(
                        DriverCall::FreeInode { inode, reply: r },
                    )
                }
            },
{
    let file = before.files@[handle.file as int];
    assert(before.namespace@.inodes[file.inode as int].filesystem
        < before.namespace@.histories.len());
}

/// What can be created: nothing without a last name, nothing where the parent
/// cannot be resolved, nothing in a directory that has the name; else the driver
/// decides, and its error is the result.
pub proof fn creating(
    o: NamespaceModel,
    n: NamespaceModel,
    s: NamespaceModel,
    path: Seq<char>,
    wd: Option<DirectoryId>,
    d: DirectoryId,
    name: Seq<char>,
    object: NewObject,
    now: u64,
    r: Result<InodeId, FileSystemError>,
)
    ensures
        parent_and_name(path) is None && creates(o, s, path, wd, object, now, r) ==> unchanged(o, s)
            && r == Err::<InodeId, FileSystemError>(FileSystemError::InvalidPath),
        lists_name(n, d, name) && creates_in(o, n, s, d, name, object, now, r) ==> unchanged(n, s)
            && r == Err::<InodeId, FileSystemError>(FileSystemError::AlreadyExists),
        n.directories[d as int].children is None && creates_in(o, n, s, d, name, object, now, r)
            ==> unchanged(n, s) && r is Err,
        n.directories[d as int].children is Some && !lists_name(n, d, name) && creates_in(
            o,
            n,
            s,
            d,
            name,
            object,
            now,
            r,
        ) ==> exists|reply: Result<Inode, FileSystemError>|
            {
                let call = #[trigger] object.call(
                    n.inodes[n.directories[d as int].inode as int],
                    name,
                    now,
                    reply,
                );
                &&& s == after_create(n, d, name, object.entry_type(), call, reply)
                &&& (reply matches Err(e) ==> r == Err::<InodeId, FileSystemError>(e))
                &&& reply is Ok ==> r == Ok::<InodeId, FileSystemError>(n.inodes.len() as InodeId)
            },
{
    if let Some(list) = n.directories[d as int].children {
        names_are_listed(list, name);
        if !has_child(list, name) && creates_in(o, n, s, d, name, object, now, r) {
            let reply = choose|reply: Result<Inode, FileSystemError>|
                s == after_create(
                    n,
                    d,
                    name,
                    object.entry_type(),
                    #[trigger] object.call(n.inode_of(d), name, now, reply),
                    reply,
                ) && r == match reply {
                    Ok(_) => Ok::<InodeId, FileSystemError>(n.inodes.len() as InodeId),
                    Err(e) => Err(e),
                };
            let call = object.call(
                n.inodes[n.directories[d as int].inode as int],
                name,
                now,
                reply,
            );
            assert(s == after_create(n, d, name, object.entry_type(), call, reply));
        }
    }
}

/// Files, directories and symlinks are created with what was asked for; a
/// symlink needs a target.
pub proof fn creating_by_path(
    before: VirtualFileSystem,
    path: &str,
    p: Permissions,
    target: &str,
    wd: Option<DirectoryId>,
    now: u64,
)
    ensures
        forall|vfs: &mut VirtualFileSystem, r: Result<InodeId, FileSystemError>|
            *vfs == before && #[trigger] call_ensures(
                VirtualFileSystem::create_file,
                (vfs, path, p, wd, now),
                r,
            ) ==> creates(
                before.namespace@,
                final(vfs).namespace@,
                path@,
                wd,
                NewObject::File(p),
                now,
                r,
            ),
        forall|vfs: &mut VirtualFileSystem, r: Result<InodeId, FileSystemError>|
            *vfs == before && #[trigger] call_ensures(
                VirtualFileSystem::create_directory,
                (vfs, path, p, wd, now),
                r,
            ) ==> creates(
                before.namespace@,
                final(vfs).namespace@,
                path@,
                wd,
                NewObject::Directory(p),
                now,
                r,
            ),
        forall|vfs: &mut VirtualFileSystem, r: Result<InodeId, FileSystemError>|
            *vfs == before && #[trigger] call_ensures(
                VirtualFileSystem::create_symlink,
                (vfs, path, target, wd, now),
                r,
            ) ==> {
                &&& target@.len() == 0 ==> unchanged(before.namespace@, final(vfs).namespace@) && r
                    == Err::<InodeId, FileSystemError>(FileSystemError::InvalidPath)
                &&& target@.len() > 0 ==> creates(
                    before.namespace@,
                    final(vfs).namespace@,
                    path@,
                    wd,
                    NewObject::Symlink(target),
                    now,
                    r,
                )
            },
{
}

/// The parent of what is created, deleted or renamed is resolved with sixteen
/// symlinks at most.
pub proof fn parents_are_resolved(
    o: NamespaceModel,
    s: NamespaceModel,
    path: Seq<char>,
    wd: Option<DirectoryId>,
    object: NewObject,
    now: u64,
    open: Map<OpenFileKey, FileId>,
    r: Result<InodeId, FileSystemError>,
    q: Result<(), FileSystemError>,
)
    requires
        parent_and_name(path) is Some,
    ensures
        creates(o, s, path, wd, object, now, r) ==> exists|
            n: NamespaceModel,
            p: Result<DirectoryId, FileSystemError>,
        |
            #[trigger] resolves_dir(o, n, parent_of(path), wd, 16, p) && grew(o, n)
                && match p {
                Err(e) => unchanged(n, s) && r == Err::<InodeId, FileSystemError>(e),
                Ok(d) => creates_in(o, n, s, d, name_of(path), object, now, r),
            },
        deletes(o, s, open, path, wd, q) ==> exists|
            n: NamespaceModel,
            p: Result<DirectoryId, FileSystemError>,
        |
            #[trigger] resolves_dir(o, n, parent_of(path), wd, 16, p) && grew(o, n)
                && match p {
                Err(e) => unchanged(n, s) && q == Err::<(), FileSystemError>(e),
                Ok(d) => exists|t: Result<InodeId, FileSystemError>|
                    #[trigger] names_inode(o, n, d, name_of(path), t) && match t {
                        Err(e) => unchanged(n, s) && q == Err::<(), FileSystemError>(e),
                        Ok(id) => deletes_inode(
                            n,
                            s,
                            open,
                            d,
                            name_of(path),
                            id,
                            q,
                        ),
                    },
            },
{
    let parent = parent_of(path);
    let name = name_of(path);
    if creates(o, s, path, wd, object, now, r) {
        let (n, p) = choose|n: NamespaceModel, p: Result<DirectoryId, FileSystemError>|
            grew(o, n) && n.wf() && #[trigger] resolves_dir(o, n, parent, wd, 16, p) && match p {
                Err(e) => s == n && r == Err::<InodeId, FileSystemError>(e),
                Ok(d) => n.is_dir(d) && creates_in(o, n, s, d, name, object, now, r),
            };
        assert(resolves_dir(o, n, parent, wd, 16, p));
    }
    if deletes(o, s, open, path, wd, q) {
        let (n, p) = choose|n: NamespaceModel, p: Result<DirectoryId, FileSystemError>|
            grew(o, n) && n.wf() && #[trigger] resolves_dir(o, n, parent, wd, 16, p) && match p {
                Err(e) => s == n && q == Err::<(), FileSystemError>(e),
                Ok(d) => n.is_dir(d) && exists|t: Result<InodeId, FileSystemError>|
                    #[trigger] names_inode(o, n, d, name, t) && match t {
                        Err(e) => s == n && q == Err::<(), FileSystemError>(e),
                        Ok(id) => deletes_inode(n, s, open, d, name, id, q),
                    },
            };
        assert(resolves_dir(o, n, parent, wd, 16, p));
    }
}

/// The driver is asked what a directory holds before that is deleted; one entry
/// is enough to keep it, and no more is asked then. An error is passed on.
pub proof fn directories_are_deleted_empty(
    n: NamespaceModel,
    s: NamespaceModel,
    open: Map<OpenFileKey, FileId>,
    d: DirectoryId,
    name: Seq<char>,
    id: InodeId,
    r: Result<(), FileSystemError>,
)
    requires
        deletes_inode(n, s, open, d, name, id, r),
        !n.inodes[id as int].mount_flag,
        n.inodes[id as int].inode_type is Directory,
        n.inodes[id as int].filesystem < n.histories.len(),
    ensures
        ({
            exists|reply: Result<Seq<EntryModel>, FileSystemError>|
                {
                    let m = #[trigger] n.with_call(
                        n.inodes[id as int].filesystem,
                        DriverCall::ReadDir { directory: n.inodes[id as int], reply },
                    );
                    &&& (reply matches Err(e) ==> unchanged(s, m) && r == Err::<(), FileSystemError>(e))
                    &&& (reply matches Ok(list) && list.len() >= 1) ==> unchanged(s, m) && r == Err::<
                        (),
                        FileSystemError,
                    >(FileSystemError::DirectoryNotEmpty)
                    &&& (reply matches Ok(list) && list.len() == 0) ==> unlinks(
                        m,
                        s,
                        open,
                        d,
                        name,
                        id,
                        r,
                    )
                }
        }),
{
    let inode = n.inodes[id as int];
    let reply = choose|reply: Result<Seq<EntryModel>, FileSystemError>| {
        let m = #[trigger] n.with_call(
            inode.filesystem,
            DriverCall::ReadDir { directory: inode, reply },
        );
        match reply {
            Err(e) => s == m && r == Err::<(), FileSystemError>(e),
            Ok(list) => if list.len() > 0 {
                s == m && r == Err::<(), FileSystemError>(FileSystemError::DirectoryNotEmpty)
            } else {
                unlinks(m, s, open, d, name, id, r)
            },
        }
    };
}

/// The driver is asked to remove the entry of the name from the directory. If it
/// does not, nothing changes in memory, and its error is the result.
pub proof fn entries_are_removed_by_the_driver(
    m: NamespaceModel,
    s: NamespaceModel,
    open: Map<OpenFileKey, FileId>,
    d: DirectoryId,
    name: Seq<char>,
    id: InodeId,
    r: Result<(), FileSystemError>,
)
    requires
        unlinks(m, s, open, d, name, id, r),
    ensures
        exists|reply: Result<(), FileSystemError>|
            {
                let u = #[trigger] m.with_call(
                    m.inodes[id as int].filesystem,
                    DriverCall::Unlink {
                        parent: m.inodes[m.directories[d as int].inode as int],
                        name,
                        reply,
                    },
                );
                &&& (reply matches Err(e) ==> unchanged(s, u) && r == Err::<(), FileSystemError>(e))
                &&& reply is Ok ==> drops_entry(u, s, open, d, name, id, r)
            },
{
    let reply = choose|reply: Result<(), FileSystemError>| {
        let u = #[trigger] m.with_call(
            m.inodes[id as int].filesystem,
            DriverCall::Unlink { parent: m.inode_of(d), name, reply },
        );
        match reply {
            Err(e) => s == u && r == Err::<(), FileSystemError>(e),
            Ok(_) => drops_entry(u, s, open, d, name, id, r),
        }
    };
    let u = m.with_call(
        m.inodes[id as int].filesystem,
        DriverCall::Unlink {
            parent: m.inodes[m.directories[d as int].inode as int],
            name,
            reply,
        },
    );
    assert(reply is Ok ==> drops_entry(u, s, open, d, name, id, r));
}

/// An entry that is listed in memory is taken out of the listing, and its inode
/// loses a reference; a name that is not listed is an internal error.
pub proof fn entries_are_dropped(
    u: NamespaceModel,
    s: NamespaceModel,
    open: Map<OpenFileKey, FileId>,
    d: DirectoryId,
    name: Seq<char>,
    id: InodeId,
    r: Result<(), FileSystemError>,
)
    requires
        u.directories[d as int].children is Some,
        drops_entry(u, s, open, d, name, id, r),
    ensures
        !lists_name(u, d, name) ==> s.inodes == u.inodes && s.histories == u.histories && r == Err::<
            (),
            FileSystemError,
        >(FileSystemError::InternalError),
        lists_name(u, d, name) ==> drops_link(
            u.with_children(d, without_child(u.directories[d as int].children->0, name)),
            s,
            open,
            id,
            r,
        ),
{
    names_are_listed(u.directories[d as int].children->0, name);
}

/// What can be renamed: nothing to another volume, nothing to a name that is
/// taken; no driver is asked to then.
pub proof fn renaming_is_refused(
    o: NamespaceModel,
    n: NamespaceModel,
    s: NamespaceModel,
    old_path: Seq<char>,
    new_path: Seq<char>,
    wd: Option<DirectoryId>,
    from: DirectoryId,
    old_name: Seq<char>,
    to: DirectoryId,
    new_name: Seq<char>,
    r: Result<(), FileSystemError>,
)
    ensures
        (parent_and_name(old_path) is None || parent_and_name(new_path) is None) && renames(
            o,
            s,
            old_path,
            new_path,
            wd,
            r,
        ) ==> unchanged(o, s) && r == Err::<(), FileSystemError>(FileSystemError::InvalidPath),
        n.volume_of(from) != n.volume_of(to) && renames_in(
            o,
            n,
            s,
            from,
            old_name,
            to,
            new_name,
            r,
        ) ==> unchanged(n, s) && r == Err::<(), FileSystemError>(FileSystemError::InvalidPath),
        n.volume_of(from) == n.volume_of(to) && lists_name(n, to, new_name) && renames_in(
            o,
            n,
            s,
            from,
            old_name,
            to,
            new_name,
            r,
        ) ==> unchanged(n, s) && r == Err::<(), FileSystemError>(FileSystemError::AlreadyExists),
{
    if let Some(list) = n.directories[to as int].children {
        names_are_listed(list, new_name);
    }
}

/// An entry that was moved names the same inode, by its number and its type.
pub proof fn moved_entries_name_the_inode(
    s: NamespaceModel,
    d: DirectoryId,
    name: Seq<char>,
    id: InodeId,
    x: int,
)
    requires
        s.is_dir(d),
        s.directories[d as int].children is Some,
        0 <= x < s.directories.len(),
    ensures
        ({
            let t = with_entry(s, d, name, id, true);
            let list = s.directories[d as int].children->0;
            let next = t.directories[d as int].children->0;
            let inode = s.inodes[id as int];
            &&& next.drop_last() == list
            &&& next.last().name == name
            &&& next.last().inode_number == inode.inode_number
            &&& next.last().inode == Some(id)
            &&& inode.inode_type is File ==> next.last().entry_type is File
            &&& inode.inode_type is Directory ==> next.last().entry_type is Directory
            &&& inode.inode_type is Symlink ==> next.last().entry_type is Symlink
            &&& x != d ==> t.directories[x] == s.directories[x]
            &&& t.inodes == s.inodes
            &&& t.histories == s.histories
        }),
{
    let list = s.directories[d as int].children->0;
    assert(with_entry(s, d, name, id, true).directories[d as int].children->0.drop_last() =~= list);
}

/// Where a volume can be mounted: not on a directory that has one, and not
/// without a driver of that name. The driver decides if it takes the device; it
/// is then asked for inode 1, which has to be a directory. A volume that was
/// taken uses up an identifier, even if it is not mounted after all.
pub proof fn mounting_is_refused(
    before: &VirtualFileSystem,
    after: &VirtualFileSystem,
    n: NamespaceModel,
    h: DirectoryId,
    driver_name: Seq<char>,
    device: Device,
    r: Result<(), FileSystemError>,
    instance: Instance,
    used: Instance,
    root: Result<Inode, FileSystemError>,
)
    requires
        mounts_on(before, after, n, h, driver_name, device, r),
    ensures
        ({
            let flagged = n.inodes[n.directories[h as int].inode as int].mount_flag;
            let known = before.drivers@.contains_key(driver_name);
            &&& flagged ==> r == Err::<(), FileSystemError>(FileSystemError::AlreadyMounted)
            &&& !flagged && !known ==> r == Err::<(), FileSystemError>(
                FileSystemError::UnknownDriver,
            )
            &&& flagged || !known ==> unchanged(n, after.namespace@) && after.same_tables(before)
            &&& r is Ok ==> after.next_filesystem_id == before.next_filesystem_id + 1
            &&& r is Err ==> unchanged(n, after.namespace@) && after.mounts == before.mounts
                && after.mounted_root_index == before.mounted_root_index
        }),
        asked_for_root(instance, used, root) ==> used.filesystem.history()
            == instance.filesystem.history().push(
            DriverCall::LoadInode { inode_number: 1, reply: root },
        ),
{
}

/// What a mount changes: the directory gets a root, which lies below it and is a
/// directory of the new volume; the inode of the directory is marked. Nothing
/// else in memory changes.
pub proof fn mounting_changes(
    n: NamespaceModel,
    h: DirectoryId,
    id: u64,
    history: Seq<DriverCall>,
    root: Inode,
    x: int,
    k: int,
)
    requires
        n.is_dir(h),
        n.directories[h as int].inode < n.inodes.len(),
        n.directories.len() < usize::MAX,
        n.inodes.len() < usize::MAX,
        0 <= x < n.directories.len(),
        0 <= k < n.inodes.len(),
    ensures
        ({
            let s = with_mount(n, h, id, history, root);
            let m = n.directories.len() as int;
            let i = n.directories[h as int].inode as int;
            &&& s.directories.len() == m + 1
            &&& s.directories[m].inode == n.inodes.len()
            &&& s.directories[m].parent == Some(h)
            &&& s.directories[m].children is None
            &&& s.directories[m].mount_root is None
            &&& s.directories[h as int].mount_root == Some(m as DirectoryId)
            &&& s.directories[x].inode == n.directories[x].inode
            &&& s.directories[x].parent == n.directories[x].parent
            &&& s.directories[x].children == n.directories[x].children
            &&& x != h ==> s.directories[x].mount_root == n.directories[x].mount_root
            &&& s.inodes.len() == n.inodes.len() + 1
            &&& s.inodes.last() == root.adopted(n.histories.len() as usize)
            &&& s.inodes[i].mount_flag
            &&& s.inodes[i] == (Inode { mount_flag: true, ..n.inodes[i] })
            &&& k != i ==> s.inodes[k] == n.inodes[k]
            &&& s.histories.drop_last() == n.histories && s.histories.last() == history
            &&& s.ids.drop_last() == n.ids && s.ids.last() == id
            &&& s.root == n.root
        }),
{
    let s = with_mount(n, h, id, history, root);
    assert(s.histories.drop_last() =~= n.histories);
    assert(s.ids.drop_last() =~= n.ids);
}

/// When nothing is unmounted: where nothing is mounted, and while a file of the
/// volume is open; no driver is asked to then. Else what the driver answers is
/// the result, and the volume is gone in either case.
pub proof fn unmounting_is_refused(
    before: &VirtualFileSystem,
    after: &VirtualFileSystem,
    n: NamespaceModel,
    h: DirectoryId,
    r: Result<(), FileSystemError>,
)
    requires
        n.wf(),
        n.is_dir(h),
        unmounts_from(before, after, n, h, r),
    ensures
        ({
            let flagged = n.inodes[n.directories[h as int].inode as int].mount_flag;
            let m = n.directories[h as int].mount_root->0;
            let v = n.inodes[n.directories[m as int].inode as int].filesystem;
            let busy = exists|key: OpenFileKey| #[trigger]
                before.open_files@.contains_key(key) && key.filesystem_id == n.ids[v as int];
            &&& !flagged ==> r == Err::<(), FileSystemError>(FileSystemError::NotMounted)
            &&& flagged && busy ==> r == Err::<(), FileSystemError>(FileSystemError::FileLocked)
            &&& !flagged || busy ==> unchanged(n, after.namespace@) && after.same_tables(before)
            &&& flagged && !busy ==> {
                &&& after.namespace@.histories == n.histories.update(
                    v as int,
                    n.histories[v as int].push(DriverCall::Unmount { reply: r }),
                )
                &&& after.mounts@ == before.mounts@.remove(h as u64)
                &&& after.mounted_root_index@ == before.mounted_root_index@.remove(m as u64)
                &&& after.namespace@.directories[h as int].mount_root is None
                &&& !after.namespace@.inodes[n.directories[h as int].inode as int].mount_flag
            }
        }),
{
    assert(n.dir_wf(h));
}

/// Mounting and unmounting go by the directory that a path leads to, with sixteen
/// symlinks at most on the way; the path of a mounted volume stands for the
/// directory it is mounted on.
pub proof fn mounts_go_by_path(
    before: &VirtualFileSystem,
    after: &VirtualFileSystem,
    path: Seq<char>,
    wd: Option<DirectoryId>,
    driver_name: Seq<char>,
    device: Device,
    r: Result<(), FileSystemError>,
)
    ensures
        mounts_at(before, after, path, wd, driver_name, device, r) ==> exists|
            n: NamespaceModel,
            q: Result<DirectoryId, FileSystemError>,
        |
            #[trigger] resolves_dir(before.namespace@, n, path, wd, 16, q) && grew(
                before.namespace@,
                n,
            ) && match q {
                Err(e) => unchanged(n, after.namespace@) && r == Err::<(), FileSystemError>(e),
                Ok(d) => mounts_on(before, after, n, n.host(d), driver_name, device, r),
            },
        unmounts_at(before, after, path, wd, r) ==> exists|
            n: NamespaceModel,
            q: Result<DirectoryId, FileSystemError>,
        |
            #[trigger] resolves_dir(before.namespace@, n, path, wd, 16, q) && grew(
                before.namespace@,
                n,
            ) && match q {
                Err(e) => unchanged(n, after.namespace@) && r == Err::<(), FileSystemError>(e),
                Ok(d) => unmounts_from(before, after, n, n.host(d), r),
            },
{
    let o = before.namespace@;
    if mounts_at(before, after, path, wd, driver_name, device, r) {
        let (n, q) = choose|n: NamespaceModel, q: Result<DirectoryId, FileSystemError>|
            grew(o, n) && n.wf() && #[trigger] resolves_dir(o, n, path, wd, 16, q) && match q {
                Err(e) => after.namespace@ == n && after.same_tables(before) && r == Err::<
                    (),
                    FileSystemError,
                >(e),
                Ok(d) => n.is_dir(d) && mounts_on(
                    before,
                    after,
                    n,
                    n.host(d),
                    driver_name,
                    device,
                    r,
                ),
            };
        assert(resolves_dir(o, n, path, wd, 16, q));
    }
    if unmounts_at(before, after, path, wd, r) {
        let (n, q) = choose|n: NamespaceModel, q: Result<DirectoryId, FileSystemError>|
            grew(o, n) && n.wf() && #[trigger] resolves_dir(o, n, path, wd, 16, q) && match q {
                Err(e) => after.namespace@ == n && after.same_tables(before) && r == Err::<
                    (),
                    FileSystemError,
                >(e),
                Ok(d) => n.is_dir(d) && unmounts_from(before, after, n, n.host(d), r),
            };
        assert(resolves_dir(o, n, path, wd, 16, q));
    }
}

/// The directory that a mounted volume's root is mounted on is the one above it;
/// any other directory hosts itself.
pub proof fn hosts(n: NamespaceModel, d: DirectoryId)
    ensures
        n.directories[d as int].parent is None ==> n.host(d) == d,
        n.directories[d as int].parent matches Some(p) ==> n.host(d) == if n.directories[p as int].mount_root
            == Some(d) {
            p
        } else {
            d
        },
        n.directories[d as int].mount_root is None ==> n.enter(d) == d,
        n.directories[d as int].mount_root matches Some(m) ==> n.enter(d) == m,
        n.directories[d as int].parent is None ==> n.up(d) == d,
        n.directories[d as int].parent matches Some(p) ==> n.up(d) == p,
        n.inode_of(d) == n.inodes[n.directories[d as int].inode as int],
        n.volume_of(d) == n.inodes[n.directories[d as int].inode as int].filesystem,
{
}

/// A deletion, a renaming, a mount and an unmount are done as they are described.
pub proof fn operations_by_path(
    before: VirtualFileSystem,
    path: &str,
    other: &str,
    driver_name: &'static str,
    device: Device,
    wd: Option<DirectoryId>,
)
    ensures
        forall|vfs: &mut VirtualFileSystem, r: Result<(), FileSystemError>|
            *vfs == before && #[trigger] call_ensures(VirtualFileSystem::delete, (vfs, path, wd), r)
                ==> deletes(
                before.namespace@,
                final(vfs).namespace@,
                before.open_files@,
                path@,
                wd,
                r,
            ),
        forall|vfs: &mut VirtualFileSystem, r: Result<(), FileSystemError>|
            *vfs == before && #[trigger] call_ensures(
                VirtualFileSystem::rename,
                (vfs, path, other, wd),
                r,
            ) ==> renames(before.namespace@, final(vfs).namespace@, path@, other@, wd, r),
        forall|vfs: &mut VirtualFileSystem, r: Result<(), FileSystemError>|
            *vfs == before && #[trigger] call_ensures(
                VirtualFileSystem::mount,
                (vfs, driver_name, device, path, wd),
                r,
            ) ==> mounts_at(&before, final(vfs), path@, wd, driver_name@, device, r),
        forall|vfs: &mut VirtualFileSystem, r: Result<(), FileSystemError>|
            *vfs == before && #[trigger] call_ensures(VirtualFileSystem::unmount, (vfs, path, wd), r)
                ==> unmounts_at(&before, final(vfs), path@, wd, r),
{
}

/// A directory that was moved lies below its new parent, and no other directory
/// moves. The root, and the roots of mounted volumes, stay where they are.
pub proof fn moved_directories_lie_below(
    s: NamespaceModel,
    id: InodeId,
    parent: DirectoryId,
    x: DirectoryId,
)
    requires
        s.is_dir(x),
    ensures
        ({
            let t = reparented(s, id, parent);
            let moves = s.directories[x as int].inode == id && x != s.root && s.host(x) == x;
            &&& t.is_dir(x)
            &&& t.directories.len() == s.directories.len()
            &&& t.directories[x as int].parent == if moves {
                Some(parent)
            } else {
                s.directories[x as int].parent
            }
            &&& t.directories[x as int].inode == s.directories[x as int].inode
            &&& t.directories[x as int].children == s.directories[x as int].children
            &&& t.directories[x as int].mount_root == s.directories[x as int].mount_root
            &&& t.inodes == s.inodes
            &&& t.histories == s.histories
        }),
{
}

/// The driver of both directories is asked to move the entry, from one name to
/// the other. If it does not, nothing changes in memory, and its error is the
/// result. If it does, the entry is taken from the one listing and added to the
/// other.
pub proof fn entries_are_moved_by_the_driver(
    n: NamespaceModel,
    s: NamespaceModel,
    from: DirectoryId,
    old_name: Seq<char>,
    to: DirectoryId,
    new_name: Seq<char>,
    id: InodeId,
    r: Result<(), FileSystemError>,
)
    requires
        moves(n, s, from, old_name, to, new_name, id, r),
        old_name != seq!['.'],
        old_name != seq!['.', '.'],
    ensures
        exists|reply: Result<(), FileSystemError>|
            {
                let u = #[trigger] n.with_call(
                    n.inodes[n.directories[from as int].inode as int].filesystem,
                    DriverCall::Rename {
                        old_parent: n.inodes[n.directories[from as int].inode as int],
                        old_name,
                        new_parent: n.inodes[n.directories[to as int].inode as int],
                        new_name,
                        reply,
                    },
                );
                let w = u.with_children(
                    from,
                    without_child(u.directories[from as int].children->0, old_name),
                );
                &&& (reply matches Err(e) ==> unchanged(s, u) && r == Err::<(), FileSystemError>(e))
                &&& reply is Ok ==> r is Ok && s == with_entry(
                    if n.inodes[id as int].inode_type is Directory {
                        reparented(w, id, to)
                    } else {
                        w
                    },
                    to,
                    new_name,
                    id,
                    true,
                )
            },
{
    assert(seq!['.'] =~= dot());
    assert(seq!['.', '.'] =~= dot_dot());
    let reply = choose|reply: Result<(), FileSystemError>| {
        let u = #[trigger] n.with_call(
            n.volume_of(from),
            DriverCall::Rename {
                old_parent: n.inode_of(from),
                old_name,
                new_parent: n.inode_of(to),
                new_name,
                reply,
            },
        );
        match reply {
            Err(e) => s == u && r == Err::<(), FileSystemError>(e),
            Ok(_) => shows_move(u, s, from, old_name, to, new_name, id, r),
        }
    };
    let u = n.with_call(
        n.inodes[n.directories[from as int].inode as int].filesystem,
        DriverCall::Rename {
            old_parent: n.inodes[n.directories[from as int].inode as int],
            old_name,
            new_parent: n.inodes[n.directories[to as int].inode as int],
            new_name,
            reply,
        },
    );
    if reply is Ok {
        assert(shows_move(u, s, from, old_name, to, new_name, id, r));
    }
}

/// What a last name stands for: `.` for the directory, `..` for the one above,
/// and any other name for the inode of its entry; a name without an entry is not
/// found.
pub proof fn names_stand_for_inodes(
    o: NamespaceModel,
    n: NamespaceModel,
    d: DirectoryId,
    name: Seq<char>,
    r: Result<InodeId, FileSystemError>,
)
    requires
        names_inode(o, n, d, name, r),
    ensures
        name == seq!['.'] ==> r == Ok::<InodeId, FileSystemError>(n.directories[d as int].inode),
        name == seq!['.', '.'] ==> (n.directories[d as int].parent matches Some(p) ==> r == Ok::<
            InodeId,
            FileSystemError,
        >(n.directories[p as int].inode)),
        name != seq!['.'] && name != seq!['.', '.'] && n.directories[d as int].children is Some
            && !lists_name(n, d, name) ==> r == Err::<InodeId, FileSystemError>(
            FileSystemError::NotFound,
        ),
        name != seq!['.'] && name != seq!['.', '.'] && r is Ok ==> (
        n.directories[d as int].children matches Some(list) && has_child(list, name) && list[child_index(
            list,
            name,
        )].inode == Some(r->Ok_0)),
{
    assert(seq!['.'] =~= dot());
    assert(seq!['.', '.'] =~= dot_dot());
    assert(dot().len() == 1 && dot_dot().len() == 2);
    if let Some(list) = n.directories[d as int].children {
        names_are_listed(list, name);
    }
}

/// A mount is noted under its directory and under its root, with the identifier
/// that the volume was given.
pub proof fn mounts_are_noted(
    before: &VirtualFileSystem,
    after: &VirtualFileSystem,
    n: NamespaceModel,
    h: DirectoryId,
    history: Seq<DriverCall>,
    root: Inode,
)
    requires
        n.directories.len() < usize::MAX,
        n.histories.len() < usize::MAX,
        mounted(before, after, n, h, history, root),
    ensures
        after.mounts@.contains_key(h as u64),
        after.mounts@[h as u64].filesystem_id == before.next_filesystem_id,
        after.mounts@[h as u64].host_directory == h,
        after.mounts@[h as u64].mounted_root == n.directories.len(),
        after.mounts@[h as u64].instance == n.histories.len(),
        after.mounted_root_index@.contains_key(n.directories.len() as u64),
        after.mounted_root_index@[n.directories.len() as u64] == h,
        forall|x: u64|
            x != h ==> (#[trigger] after.mounts@.contains_key(x) <==> before.mounts@.contains_key(
                x,
            )),
        after.namespace@.ids.last() == before.next_filesystem_id,
{
}

} // verus!

//! What operations do to files, their records and their directories, told field
//! by field.

use vstd::prelude::*;

use super::creation::{after_create, NewObject};
use super::directory::{child_index, has_child, lemma_child_index, swap_removed, DirectoryId};
use super::driver::DriverCall;
use super::file::{
    advanced, holds_lock, live_handles, without_handle, write_blocked, File, FileHandle, FileId,
    HandleRef,
};
use super::inode::{is_record_of, shared_record, EntryModel, Inode, InodeId, VolumeId};
use super::namespace::NamespaceModel;
use super::operations::{accessed_at, lock_after_close, modified_at, opened};
use super::removal::{deletes_inode, drops_link, without_child};
use super::types::{
    entry_type_of, AccessMode, DirectoryEntryType, FileLockState, FileSystemError, InodeType,
    OpenFileKey, Permissions, Timestamps,
};
use super::vfs::{key_of, VirtualFileSystem};

verus! {

/// Two records differ at most in their size, their times and the mark of a
/// change.
pub open spec fn same_object(a: Inode, b: Inode) -> bool {
    &&& a.inode_number == b.inode_number
    &&& a.filesystem == b.filesystem
    &&& a.inode_type == b.inode_type
    &&& a.permissions == b.permissions
    &&& a.link_count == b.link_count
    &&& a.mount_flag == b.mount_flag
    &&& a.pending_deletion == b.pending_deletion
    &&& a.timestamps.created == b.timestamps.created
}

/// What is noted of a write: a file never gets smaller by it, and reaches as far
/// as what was written, and no further. It was modified and accessed now.
pub proof fn writes_never_shrink_a_file(inode: Inode, new_end: u64, now: u64)
    ensures
        ({
            let m = modified_at(inode, new_end, now);
            &&& m.size >= inode.size
            &&& m.size >= new_end
            &&& m.size == inode.size || m.size == new_end
            &&& m.timestamps.modified == now
            &&& m.timestamps.accessed == now
            &&& m.dirty
            &&& same_object(m, inode)
        }),
{
}

/// What is noted of a read: it was accessed now.
pub proof fn reads_touch_one_time(inode: Inode, now: u64)
    ensures
        ({
            let m = accessed_at(inode, now);
            &&& m.size == inode.size
            &&& m.timestamps.modified == inode.timestamps.modified
            &&& m.timestamps.accessed == now
            &&& m.dirty
            &&& same_object(m, inode)
        }),
{
}

/// Everything but one inode, and what one driver was asked, is as it was. The
/// driver was asked once.
pub open spec fn one_call_one_inode(
    o: NamespaceModel,
    s: NamespaceModel,
    id: InodeId,
    volume: VolumeId,
    call: DriverCall,
) -> bool {
    &&& s.directories == o.directories
    &&& s.root == o.root
    &&& s.ids == o.ids
    &&& s.inodes.len() == o.inodes.len()
    &&& forall|j: int| 0 <= j < o.inodes.len() && j != id ==> #[trigger] s.inodes[j] == o.inodes[j]
    &&& s.histories.len() == o.histories.len()
    &&& forall|v: int|
        0 <= v < o.histories.len() ==> #[trigger] s.histories[v] == if v == volume {
            o.histories[v].push(call)
        } else {
            o.histories[v]
        }
}

/// A write through a handle. A handle for reading alone may not write, and one
/// that another handle has locked out may not; no driver is asked then. Else the
/// driver gets the bytes for the handle's position. If it takes them, the handle
/// moves on by as many as it took, and the file reaches at least so far; it does
/// not get smaller, nor larger than that.
pub proof fn writes(
    before: VirtualFileSystem,
    handle: FileHandle,
    handle_value: u32,
    buffer: &[u8],
    now: u64,
)
    requires
        before.wf(),
        handle.file < before.files@.len(),
    ensures
        forall|
            vfs: &mut VirtualFileSystem,
            h: &mut FileHandle,
            r: Result<usize, FileSystemError>,
        |
            *vfs == before && *h == handle && #[trigger] call_ensures(
                VirtualFileSystem::write,
                (vfs, h, handle_value, buffer, now),
                r,
            ) ==> {
                let file = before.files@[handle.file as int];
                let id = file.inode;
                let o = before.namespace@;
                let s = final(vfs).namespace@;
                let inode = o.inodes[id as int];
                let locked_out = file.lock_state matches FileLockState::WriteExclusive {
                    holder_handle,
                } && holder_handle != handle_value;
                let refused = handle.access_mode is ReadOnly || locked_out;
                &&& final(h).file == handle.file
                &&& final(h).id == handle.id
                &&& final(h).access_mode == handle.access_mode
                &&& handle.access_mode is ReadOnly ==> r == Err::<usize, FileSystemError>(
                    FileSystemError::InvalidAccessMode,
                )
                &&& !(handle.access_mode is ReadOnly) && locked_out ==> r == Err::<
                    usize,
                    FileSystemError,
                >(FileSystemError::FileLocked)
                &&& refused ==> s == o && final(h).position == handle.position
                &&& !refused ==> one_call_one_inode(
                    o,
                    s,
                    id,
                    inode.filesystem,
                    DriverCall::Write {
                        inode,
                        offset: handle.position,
                        data: buffer@,
                        reply: r,
                    },
                )
                &&& !refused && r is Err ==> s.inodes[id as int] == inode && final(h).position
                    == handle.position
                &&& !refused && r is Ok ==> {
                    let m = s.inodes[id as int];
                    let end = handle.position + r->Ok_0;
                    &&& final(h).position == if end <= u64::MAX {
                        end as u64
                    } else {
                        u64::MAX
                    }
                    &&& m.size >= inode.size
                    &&& m.size >= final(h).position
                    &&& m.size == inode.size || m.size == final(h).position
                    &&& m.timestamps.modified == now
                    &&& m.timestamps.accessed == now
                    &&& m.dirty
                    &&& same_object(m, inode)
                }
            },
{
    let file = before.files@[handle.file as int];
    let inode = before.namespace@.inodes[file.inode as int];
    assert(inode.filesystem < before.namespace@.histories.len());
}

/// A read through a handle. A handle for writing alone may not read; no driver is
/// asked then, and the buffer stays as it is. Else the driver is asked for what
/// stands at the handle's position; the handle moves on by as many bytes as came.
pub proof fn reads(before: VirtualFileSystem, handle: FileHandle, now: u64)
    requires
        before.wf(),
        handle.file < before.files@.len(),
    ensures
        forall|
            vfs: &mut VirtualFileSystem,
            h: &mut FileHandle,
            buffer: &mut [u8],
            r: Result<usize, FileSystemError>,
        |
            *vfs == before && *h == handle && #[trigger] call_ensures(
                VirtualFileSystem::read,
                (vfs, h, buffer, now),
                r,
            ) ==> {
                let id = before.files@[handle.file as int].inode;
                let o = before.namespace@;
                let s = final(vfs).namespace@;
                let inode = o.inodes[id as int];
                &&& final(h).file == handle.file
                &&& final(h).id == handle.id
                &&& final(h).access_mode == handle.access_mode
                &&& handle.access_mode is WriteOnly ==> {
                    &&& r == Err::<usize, FileSystemError>(FileSystemError::InvalidAccessMode)
                    &&& s == o
                    &&& final(h).position == handle.position
                    &&& final(buffer)@ == buffer@
                }
                &&& !(handle.access_mode is WriteOnly) ==> one_call_one_inode(
                    o,
                    s,
                    id,
                    inode.filesystem,
                    DriverCall::Read {
                        inode,
                        offset: handle.position,
                        data: final(buffer)@,
                        reply: r,
                    },
                )
                &&& !(handle.access_mode is WriteOnly) && r is Err ==> s.inodes[id as int] == inode
                    && final(h).position == handle.position
                &&& !(handle.access_mode is WriteOnly) && r is Ok ==> {
                    let m = s.inodes[id as int];
                    let end = handle.position + r->Ok_0;
                    &&& final(h).position == if end <= u64::MAX {
                        end as u64
                    } else {
                        u64::MAX
                    }
                    &&& m.size == inode.size
                    &&& m.timestamps.modified == inode.timestamps.modified
                    &&& m.timestamps.accessed == now
                    &&& m.dirty
                    &&& same_object(m, inode)
                }
            },
{
    let file = before.files@[handle.file as int];
    let inode = before.namespace@.inodes[file.inode as int];
    assert(inode.filesystem < before.namespace@.histories.len());
}

/// Seeking moves a handle to the offset, and does nothing else.
pub proof fn seeks(vfs: &VirtualFileSystem, handle: FileHandle, offset: u64)
    ensures
        forall|h: &mut FileHandle|
            *h == handle && #[trigger] call_ensures(VirtualFileSystem::seek, (vfs, h, offset), ())
                ==> {
                &&& final(h).position == offset
                &&& final(h).file == handle.file
                &&& final(h).id == handle.id
                &&& final(h).access_mode == handle.access_mode
            },
{
}

/// A handle moves on by as many bytes as were transferred, up to the last
/// position there is.
pub proof fn positions_move_on(position: u64, count: usize)
    ensures
        position <= advanced(position, count),
        position + count <= u64::MAX ==> advanced(position, count) == position + count,
        position + count > u64::MAX ==> advanced(position, count) == 0xFFFF_FFFF_FFFF_FFFF,
{
}

/// A new handle stands at the beginning, has the mode that was asked for and an
/// identifier of its own. The record of the file is the one that is filed for
/// its volume and number; a new one is filed if there is none, which is not
/// locked and has no handles.
pub proof fn handles_begin(
    before: &VirtualFileSystem,
    after: &VirtualFileSystem,
    id: InodeId,
    mode: AccessMode,
    handle: FileHandle,
)
    requires
        before.files@.len() <= usize::MAX,
        opened(before, after, id, mode, handle),
    ensures
        ({
            let s = after.namespace@;
            let inode = s.inodes[id as int];
            let key = OpenFileKey {
                filesystem_id: s.ids[inode.filesystem as int],
                inode_number: inode.inode_number,
            };
            &&& handle.position == 0
            &&& handle.access_mode == mode
            &&& handle.id == before.next_handle_id
            &&& after.next_handle_id > handle.id
            &&& before.open_files@.contains_key(key) ==> handle.file == before.open_files@[key]
                && after.files@ == before.files@ && after.open_files@ == before.open_files@
            &&& !before.open_files@.contains_key(key) ==> {
                &&& handle.file == before.files@.len()
                &&& after.files@.len() == before.files@.len() + 1
                &&& after.files@.drop_last() == before.files@
                &&& after.files@.last().inode == id
                &&& after.files@.last().lock_state is Unlocked
                &&& after.files@.last().handles@.len() == 0
                &&& !after.files@.last().pending_deletion
                &&& after.open_files@ == before.open_files@.insert(key, handle.file)
            }
            &&& after.drivers == before.drivers
            &&& after.mounts == before.mounts
            &&& after.mounted_root_index == before.mounted_root_index
            &&& after.next_filesystem_id == before.next_filesystem_id
        }),
{
    let key = key_of(after.namespace@, id);
    if !before.open_files@.contains_key(key) {
        assert(after.files@.drop_last() =~= before.files@);
    }
}

/// A handle that is closed is in use no longer, and all others stay in use.
pub proof fn one_handle_goes(handles: Seq<HandleRef>, id: u64, i: int)
    requires
        0 <= i < handles.len(),
    ensures
        without_handle(handles, id).len() == handles.len(),
        without_handle(handles, id)[i].id == handles[i].id,
        without_handle(handles, id)[i].live <==> handles[i].live && handles[i].id != id,
{
}

/// The handles that are in use are counted one by one.
pub proof fn handles_in_use(handles: Seq<HandleRef>, h: HandleRef)
    ensures
        live_handles(Seq::empty()) == Seq::<HandleRef>::empty(),
        h.live ==> live_handles(handles.push(h)) == live_handles(handles).push(h),
        !h.live ==> live_handles(handles.push(h)) == live_handles(handles),
{
    reveal(Seq::filter);
    assert(handles.push(h).drop_last() =~= handles);
    assert(live_handles(Seq::empty()) =~= Seq::<HandleRef>::empty());
}

/// A lock is held by one handle, which alone may write. Closing the handle
/// releases the lock, and closing another does not.
pub proof fn locks(lock_state: FileLockState, a: u32, b: u32)
    ensures
        holds_lock(lock_state, a) <==> (lock_state matches FileLockState::WriteExclusive {
            holder_handle,
        } && holder_handle == a),
        write_blocked(lock_state, a) <==> (lock_state matches FileLockState::WriteExclusive {
            holder_handle,
        } && holder_handle != a),
        holds_lock(lock_state, a) ==> lock_after_close(lock_state, a) is Unlocked,
        !holds_lock(lock_state, a) ==> lock_after_close(lock_state, a) == lock_state,
{
}

/// A lock is given to whoever asks first, and taken from nobody else than who has
/// it.
pub proof fn locks_are_given(before: File, a: u32)
    ensures
        forall|f: &mut File, r: Result<(), FileSystemError>|
            *f == before && #[trigger] call_ensures(File::acquire_write_lock, (f, a), r) ==> {
                &&& before.lock_state is Unlocked ==> r is Ok && final(f).lock_state == (
                FileLockState::WriteExclusive { holder_handle: a })
                &&& !(before.lock_state is Unlocked) ==> final(f).lock_state == before.lock_state
                    && r == Err::<(), FileSystemError>(FileSystemError::LockContention)
            },
        forall|f: &mut File, r: Result<(), FileSystemError>|
            *f == before && #[trigger] call_ensures(File::release_write_lock, (f, a), r) ==> {
                let held = before.lock_state == (FileLockState::WriteExclusive {
                    holder_handle: a,
                });
                &&& held ==> r is Ok && final(f).lock_state is Unlocked
                &&& !held ==> final(f).lock_state == before.lock_state && r == Err::<
                    (),
                    FileSystemError,
                >(FileSystemError::InvalidHandle)
            },
{
}

/// Metadata is reported as it is, all of it.
pub proof fn metadata_is_reported(inode: Inode)
    ensures
        inode.stat_of().inode_number == inode.inode_number,
        inode.stat_of().inode_type == inode.inode_type,
        inode.stat_of().size == inode.size,
        inode.stat_of().permissions == inode.permissions,
        inode.stat_of().timestamps.created == inode.timestamps.created,
        inode.stat_of().timestamps.modified == inode.timestamps.modified,
        inode.stat_of().timestamps.accessed == inode.timestamps.accessed,
        inode.stat_of().link_count == inode.link_count,
{
}

/// A record that a driver hands out is kept as it is, under its volume, with
/// nothing mounted on it.
pub proof fn records_are_adopted(inode: Inode, volume: VolumeId)
    ensures
        inode.adopted(volume).filesystem == volume,
        !inode.adopted(volume).mount_flag,
        inode.adopted(volume).inode_number == inode.inode_number,
        inode.adopted(volume).inode_type == inode.inode_type,
        inode.adopted(volume).size == inode.size,
        inode.adopted(volume).permissions == inode.permissions,
        inode.adopted(volume).timestamps == inode.timestamps,
        inode.adopted(volume).link_count == inode.link_count,
        inode.adopted(volume).dirty == inode.dirty,
        inode.adopted(volume).pending_deletion == inode.pending_deletion,
{
}

/// A name shares the latest record of its volume and number that is no
/// directory's.
pub proof fn latest_record_is_shared(
    inodes: Seq<Inode>,
    volume: VolumeId,
    number: u64,
    t: DirectoryEntryType,
    k: int,
)
    requires
        inodes.len() <= usize::MAX,
        !(t is Directory),
        0 <= k < inodes.len(),
        inodes[k].filesystem == volume,
        inodes[k].inode_number == number,
        !(inodes[k].inode_type is Directory),
        forall|j: int|
            k < j < inodes.len() ==> (#[trigger] inodes[j]).filesystem != volume
                || inodes[j].inode_number != number || inodes[j].inode_type is Directory,
    ensures
        shared_record(inodes, volume, number, t) == Some(k as InodeId),
    decreases inodes.len(),
{
    if k < inodes.len() - 1 {
        assert(!is_record_of(inodes.last(), volume, number));
        let front = inodes.drop_last();
        assert(front[k] == inodes[k]);
        assert forall|j: int| k < j < front.len() implies (#[trigger] front[j]).filesystem != volume
            || front[j].inode_number != number || front[j].inode_type is Directory by {
            assert(front[j] == inodes[j]);
        }
        latest_record_is_shared(front, volume, number, t, k);
    }
}

/// What a driver is asked to create: a file or a directory with the permissions,
/// or a symlink with the target, in the directory, under the name, with all
/// three times now.
pub proof fn requests_to_create(
    parent: Inode,
    name: Seq<char>,
    p: Permissions,
    target: &str,
    now: u64,
    reply: Result<Inode, FileSystemError>,
)
    ensures
        ({
            let t = Timestamps { created: now, modified: now, accessed: now };
            &&& NewObject::File(p).call(parent, name, now, reply) == (DriverCall::CreateFile {
                parent,
                name,
                permissions: p,
                timestamps: t,
                reply,
            })
            &&& NewObject::Directory(p).call(parent, name, now, reply) == (
            DriverCall::CreateDirectory { parent, name, permissions: p, timestamps: t, reply })
            &&& NewObject::Symlink(target).call(parent, name, now, reply) == (
            DriverCall::CreateSymlink { parent, name, target: target@, timestamps: t, reply })
            &&& NewObject::File(p).entry_type() is File
            &&& NewObject::Directory(p).entry_type() is Directory
            &&& NewObject::Symlink(target).entry_type() is Symlink
        }),
{
}

/// What was created is the last entry of its directory, and the last inode; all
/// else stays where it is.
pub proof fn creation_adds_one_entry(
    n: NamespaceModel,
    d: DirectoryId,
    name: Seq<char>,
    t: DirectoryEntryType,
    call: DriverCall,
    record: Inode,
    x: int,
)
    requires
        n.is_dir(d),
        n.directories[d as int].children is Some,
        0 <= x < n.directories.len(),
        n.inodes.len() < usize::MAX,
    ensures
        ({
            let s = after_create(n, d, name, t, call, Ok(record));
            let list = n.directories[d as int].children->0;
            let next = s.directories[d as int].children->0;
            &&& s.directories[d as int].children is Some
            &&& next.drop_last() == list
            &&& next.last().name == name
            &&& next.last().inode_number == record.inode_number
            &&& next.last().entry_type == t
            &&& next.last().inode == Some(n.inodes.len() as InodeId)
            &&& s.inodes.drop_last() == n.inodes
            &&& s.inodes.last() == record.adopted(n.inodes[n.directories[d as int].inode as int].filesystem)
            &&& s.directories.len() == n.directories.len()
            &&& x != d ==> s.directories[x] == n.directories[x]
            &&& s.directories[x].inode == n.directories[x].inode
            &&& s.directories[x].parent == n.directories[x].parent
            &&& s.directories[x].mount_root == n.directories[x].mount_root
            &&& s.root == n.root
        }),
{
    let s = after_create(n, d, name, t, call, Ok(record));
    let list = n.directories[d as int].children->0;
    assert(s.directories[d as int].children->0.drop_last() =~= list);
    assert(s.inodes.drop_last() =~= n.inodes);
}

/// An inode that loses a name has one reference less. It is freed when none is
/// left, at once or, if it is open, when it is closed; the driver is asked to
/// free it in no other case.
pub proof fn references_are_counted(
    w: NamespaceModel,
    s: NamespaceModel,
    open: Map<OpenFileKey, FileId>,
    id: InodeId,
    r: Result<(), FileSystemError>,
)
    requires
        w.wf(),
        id < w.inodes.len(),
        drops_link(w, s, open, id, r),
    ensures
        ({
            let inode = w.inodes[id as int];
            let m = s.inodes[id as int];
            let v = inode.filesystem as int;
            let is_open = open.contains_key(
                OpenFileKey { filesystem_id: w.ids[v], inode_number: inode.inode_number },
            );
            &&& m.link_count == if inode.link_count >= 1 {
                inode.link_count - 1
            } else {
                0
            }
            &&& m.size == inode.size && m.timestamps == inode.timestamps && same_but_link(m, inode)
            &&& inode.link_count >= 2 ==> s.histories == w.histories && r is Ok
                && m.pending_deletion == inode.pending_deletion
            &&& inode.link_count <= 1 && is_open ==> s.histories == w.histories && r is Ok
                && m.pending_deletion
            &&& inode.link_count <= 1 && !is_open ==> {
                &&& s.histories == w.histories.update(v, s.histories[v])
                &&& s.histories[v] == w.histories[v].push(
                    DriverCall::FreeInode { inode: m, reply: r },
                )
                &&& m.pending_deletion == inode.pending_deletion
            }
            &&& s.directories == w.directories
            &&& forall|j: int|
                0 <= j < w.inodes.len() && j != id ==> #[trigger] s.inodes[j] == w.inodes[j]
        }),
{
    assert(w.inodes[id as int].filesystem < w.histories.len());
}

/// Two records differ at most in their references and in whether they wait.
pub open spec fn same_but_link(a: Inode, b: Inode) -> bool {
    &&& a.inode_number == b.inode_number
    &&& a.filesystem == b.filesystem
    &&& a.inode_type == b.inode_type
    &&& a.permissions == b.permissions
    &&& a.mount_flag == b.mount_flag
    &&& a.dirty == b.dirty
}

/// What is not deleted: a directory on which a volume is mounted, without asking
/// a driver; and a directory of which the driver still lists an entry, without
/// asking it to remove anything.
pub proof fn what_is_not_deleted(
    n: NamespaceModel,
    s: NamespaceModel,
    open: Map<OpenFileKey, FileId>,
    d: DirectoryId,
    name: Seq<char>,
    id: InodeId,
    r: Result<(), FileSystemError>,
)
    requires
        deletes_inode(n, s, open, d, name, id, r),
    ensures
        n.inodes[id as int].mount_flag ==> s == n && r == Err::<(), FileSystemError>(
            FileSystemError::AlreadyMounted,
        ),
        r == Ok::<(), FileSystemError>(()) ==> !n.inodes[id as int].mount_flag,
{
}

/// An entry is taken out of its listing, and the last entry takes its place.
pub proof fn entries_are_taken_out(list: Seq<EntryModel>, name: Seq<char>, i: int, j: int)
    requires
        0 <= i < list.len(),
        list[i].name == name,
        forall|k: int| 0 <= k < i ==> (#[trigger] list[k]).name != name,
        0 <= j < list.len() - 1,
    ensures
        without_child(list, name).len() == list.len() - 1,
        without_child(list, name)[j] == if j == i {
            list[list.len() - 1]
        } else {
            list[j]
        },
        has_child(list, name),
        child_index(list, name) == i,
        swap_removed(list, i) == without_child(list, name),
{
    super::directory::lemma_child_index_is(list, name, i);
}

/// A name is in a listing if one of its entries has it.
pub proof fn names_are_listed(list: Seq<EntryModel>, name: Seq<char>)
    ensures
        has_child(list, name) <==> exists|i: int|
            0 <= i < list.len() && (#[trigger] list[i]).name == name,
        !has_child(list, name) ==> without_child(list, name) == list,
{
    lemma_child_index(list, name);
    if has_child(list, name) {
        assert(list[child_index(list, name)].name == name);
    }
    if exists|i: int| 0 <= i < list.len() && (#[trigger] list[i]).name == name {
        let i = choose|i: int| 0 <= i < list.len() && (#[trigger] list[i]).name == name;
        if child_index(list, name) == list.len() {
            assert(list[i].name != name);
        }
    }
}

/// Entries and inodes have types of the same names.
pub proof fn types_correspond()
    ensures
        entry_type_of(InodeType::File) is File,
        entry_type_of(InodeType::Directory) is Directory,
        entry_type_of(InodeType::Symlink) is Symlink,
{
}

} // verus!

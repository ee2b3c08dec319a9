//! The operations on files.

use vstd::prelude::*;

use super::directory::DirectoryId;
use super::driver::DriverCall;
use super::file::{
    advanced, holds_lock, live_handles, without_handle, write_blocked, File, FileHandle, FileId,
    HandleRef,
};
use super::inode::{Inode, InodeId, VolumeId};
use super::lookup::{lemma_names_before_last, only, only_the_entry_is_resolved};
use super::namespace::{
    asked, grew, lemma_call_shows, lemma_reshaped_wf, lemma_tree_kept, NamespaceModel,
};
use super::path::{
    components, components_of_name, dot, dot_dot, name_of, parent_and_name, parent_and_name_rejoin,
    parent_of,
};
use super::resolver::{
    endless_walks_are_refused, followed_names_end_at_no_symlink, leads_to, never_ends, path_walks,
    start_of, steady, steps_on, types_agree, walks_split, Place, MAX_SYMLINK_DEPTH,
};
use super::types::{
    AccessMode, DirectoryEntryType, FileLockState, FileSystemError, InodeStat, OpenFileKey,
    Timestamps,
};
use super::vfs::{
    key_of, lemma_reshaped_same_mounts, lemma_tables_wf, resolves, resolves_dir, wd_wf,
    VirtualFileSystem,
};
use crate::kernel_hashmap::capacity_is_sound;

verus! {

/// An inode after its data was read at `now`.
pub open spec fn accessed_at(inode: Inode, now: u64) -> Inode {
    Inode { timestamps: Timestamps { accessed: now, ..inode.timestamps }, dirty: true, ..inode }
}

/// An inode after its data was written at `now`, up to `new_end`.
pub open spec fn modified_at(inode: Inode, new_end: u64, now: u64) -> Inode {
    Inode {
        timestamps: Timestamps { modified: now, accessed: now, ..inode.timestamps },
        size: if new_end > inode.size {
            new_end
        } else {
            inode.size
        },
        dirty: true,
        ..inode
    }
}

/// What opening an inode that can be opened does: the master record is the one
/// that is filed under the key, or a new one, and the handle stands at the
/// beginning.
pub open spec fn opened(
    before: &VirtualFileSystem,
    after: &VirtualFileSystem,
    id: InodeId,
    access_mode: AccessMode,
    handle: FileHandle,
) -> bool {
    let key = key_of(after.namespace@, id);
    let known = before.open_files@.contains_key(key);
    &&& handle == (FileHandle {
        file: if known {
            before.open_files@[key]
        } else {
            before.files@.len() as FileId
        },
        id: before.next_handle_id,
        position: 0,
        access_mode,
    })
    &&& after.next_handle_id == before.next_handle_id + 1
    &&& before.open_files.made_room(&after.open_files, known)
    &&& if known {
        after.files@ == before.files@ && after.open_files@ == before.open_files@
    } else {
        let file = after.files@.last();
        &&& after.files@ == before.files@.push(file)
        &&& file.inode == id
        &&& file.lock_state == FileLockState::Unlocked
        &&& file.handles@.len() == 0
        &&& !file.pending_deletion
        &&& after.open_files@ == before.open_files@.insert(key, handle.file)
    }
    &&& after.drivers == before.drivers
    &&& after.mounts == before.mounts
    &&& after.mounted_root_index == before.mounted_root_index
    &&& after.next_filesystem_id == before.next_filesystem_id
}

impl VirtualFileSystem {
    /// Opens the file at a path. A symlink as the last name is followed. The
    /// caller registers the handle with its master record.
    pub fn open(
        &mut self,
        path: &str,
        access_mode: AccessMode,
        working_directory: Option<DirectoryId>,
    ) -> (r: Result<FileHandle, FileSystemError>)
        requires
            old(self).wf(),
            wd_wf(old(self).namespace@, working_directory),
            old(self).open_files.can_grow(),
            old(self).next_handle_id < u64::MAX,
        ensures
            final(self).wf(),
            grew(old(self).namespace@, final(self).namespace@),
            exists|q: Result<InodeId, FileSystemError>|
                #[trigger] resolves(
                    old(self).namespace@,
                    final(self).namespace@,
                    path@,
                    working_directory,
                    true,
                    MAX_SYMLINK_DEPTH as nat,
                    q,
                ) && match q {
                    Err(e) => r == Err::<FileHandle, FileSystemError>(e)
                        && final(self).same_tables(old(self)),
                    Ok(id) => {
                        let inode = final(self).namespace@.inodes[id as int];
                        if !(inode.inode_type is File) {
                            r == Err::<FileHandle, FileSystemError>(FileSystemError::NotAFile)
                                && final(self).same_tables(old(self))
                        } else if inode.pending_deletion {
                            r == Err::<FileHandle, FileSystemError>(FileSystemError::NotFound)
                                && final(self).same_tables(old(self))
                        } else {
                            r matches Ok(handle) && opened(
                                old(self),
                                final(self),
                                id,
                                access_mode,
                                handle,
                            )
                        }
                    },
                },
            r matches Ok(handle) ==> handle.file < final(self).files@.len(),
    {
        let id: InodeId = match self.resolve(path, working_directory, true) {
            Ok(id) => id,
            Err(e) => {
                return Err(e);
            },
        };
        let inode: Inode = self.namespace.inodes[id];
        if !inode.is_file() {
            return Err(FileSystemError::NotAFile);
        }
        if inode.pending_deletion {
            return Err(FileSystemError::NotFound);
        }
        let ghost s = self.namespace@;
        assert(s.inodes[id as int].filesystem < s.histories.len());
        let key = OpenFileKey::new(
            self.namespace.volumes[inode.filesystem].filesystem_id,
            inode.inode_number,
        );
        assert(key == key_of(s, id));
        let next: FileId = self.files.len();
        let fresh = || -> (f: FileId)
            ensures
                f == next,
            { next };
        let file: FileId = *self.open_files.entry(key).or_insert_with(fresh);
        if file == next {
            self.files.push(File::new(id));
        }
        let handle = FileHandle::new(file, self.next_handle_id, access_mode);
        self.next_handle_id = self.next_handle_id + 1;
        proof {
            capacity_is_sound(self.open_files);
            if old(self).open_files@.contains_key(key) {
                assert(old(self).open_files@.insert(key, file) =~= old(self).open_files@);
            } else {
                assert(self.files@ =~= old(self).files@.push(self.files@.last()));
            }
            assert(opened(old(self), self, id, access_mode, handle));
            assert(self.files_wf());
        }
        Ok(handle)
    }
}

/// The namespace after one more call and, if it succeeded, a change to the
/// inode that the call was about.
pub open spec fn after_transfer(
    o: NamespaceModel,
    id: InodeId,
    call: DriverCall,
    r: Result<usize, FileSystemError>,
    changed: Inode,
) -> NamespaceModel {
    let called = o.with_call(o.inodes[id as int].filesystem, call);
    match r {
        Ok(_) => called.with_inode(id, changed),
        Err(_) => called,
    }
}

/// Calls, and a change to what an inode says of its contents, keep the file
/// system sound.
proof fn lemma_touched_wf(
    before: &VirtualFileSystem,
    after: &VirtualFileSystem,
    id: InodeId,
    inode: Inode,
)
    requires
        before.wf(),
        id < before.namespace@.inodes.len(),
        inode.filesystem == before.namespace@.inodes[id as int].filesystem,
        inode.inode_number == before.namespace@.inodes[id as int].inode_number,
        inode.mount_flag == before.namespace@.inodes[id as int].mount_flag,
        inode.inode_type == before.namespace@.inodes[id as int].inode_type,
        after.same_tables(before),
        after.namespace@.inodes =~= before.namespace@.inodes.update(id as int, inode),
        after.namespace@.directories == before.namespace@.directories,
        after.namespace@.histories.len() == before.namespace@.histories.len(),
        after.namespace@.ids == before.namespace@.ids,
        after.namespace@.root == before.namespace@.root,
    ensures
        after.wf(),
{
    let o = before.namespace@;
    let s = after.namespace@;
    assert forall|d: DirectoryId| #[trigger] s.is_dir(d) implies {
        &&& s.directories[d as int] == o.directories[d as int]
        &&& s.directories[d as int].children matches Some(list) ==> s.entries_wf(
            s.volume_of(d),
            list,
        )
    } by {
        assert(o.is_dir(d));
        assert(o.dir_wf(d));
    }
    assert forall|x: DirectoryId, i: int, k: InodeId| #[trigger]
        s.lists_directory(x, i, k) implies o.lists_directory(x, i, k) by {
        assert(o.is_dir(x));
    }
    lemma_tree_kept(o, s);
    lemma_reshaped_wf(o, s);
    lemma_reshaped_same_mounts(o, s);
    lemma_tables_wf(before, after);
}

impl VirtualFileSystem {
    /// Reads from a handle's position into `buffer`, and moves the position by
    /// the number of bytes read.
    pub fn read(
        &mut self,
        handle: &mut FileHandle,
        buffer: &mut [u8],
        now: u64,
    ) -> (r: Result<usize, FileSystemError>)
        requires
            old(self).wf(),
            old(handle).file < old(self).files@.len(),
        ensures
            final(self).wf(),
            final(self).same_tables(old(self)),
            final(buffer)@.len() == old(buffer)@.len(),
            ({
                let o = old(self).namespace@;
                let id = old(self).files@[old(handle).file as int].inode;
                if old(handle).access_mode is WriteOnly {
                    &&& r == Err::<usize, FileSystemError>(FileSystemError::InvalidAccessMode)
                    &&& final(self).namespace@ == o
                    &&& *final(handle) == *old(handle)
                    &&& final(buffer)@ == old(buffer)@
                } else {
                    &&& final(self).namespace@ == after_transfer(
                        o,
                        id,
                        DriverCall::Read {
                            inode: o.inodes[id as int],
                            offset: old(handle).position,
                            data: final(buffer)@,
                            reply: r,
                        },
                        r,
                        accessed_at(o.inodes[id as int], now),
                    )
                    &&& *final(handle) == (FileHandle {
                        position: match r {
                            Ok(count) => advanced(old(handle).position, count),
                            Err(_) => old(handle).position,
                        },
                        ..*old(handle)
                    })
                }
            }),
    {
        if !handle.can_read() {
            return Err(FileSystemError::InvalidAccessMode);
        }
        let ghost o = self.namespace@;
        let ghost before = *self;
        let id: InodeId = self.files[handle.file].inode;
        let inode: Inode = self.namespace.inodes[id];
        let v: VolumeId = inode.filesystem;
        assert(o.inodes[id as int].filesystem < o.histories.len());
        let r = self.namespace.volumes[v].instance.filesystem.read(&inode, handle.position, buffer);
        let ghost call = DriverCall::Read {
            inode,
            offset: handle.position,
            data: buffer@,
            reply: r,
        };
        proof {
            lemma_call_shows(before.namespace, self.namespace, v, call);
            lemma_touched_wf(&before, &*self, id, inode);
        }
        match r {
            Ok(count) => {
                handle.advance_position(count);
                self.touch_accessed(id, now);
                Ok(count)
            },
            Err(e) => Err(e),
        }
    }

    /// Writes `buffer` at a handle's position, and moves the position by the
    /// number of bytes written.
    pub fn write(
        &mut self,
        handle: &mut FileHandle,
        handle_value: u32,
        buffer: &[u8],
        now: u64,
    ) -> (r: Result<usize, FileSystemError>)
        requires
            old(self).wf(),
            old(handle).file < old(self).files@.len(),
        ensures
            final(self).wf(),
            final(self).same_tables(old(self)),
            ({
                let o = old(self).namespace@;
                let file = old(self).files@[old(handle).file as int];
                let id = file.inode;
                if old(handle).access_mode is ReadOnly {
                    &&& r == Err::<usize, FileSystemError>(FileSystemError::InvalidAccessMode)
                    &&& final(self).namespace@ == o
                    &&& *final(handle) == *old(handle)
                } else if write_blocked(file.lock_state, handle_value) {
                    &&& r == Err::<usize, FileSystemError>(FileSystemError::FileLocked)
                    &&& final(self).namespace@ == o
                    &&& *final(handle) == *old(handle)
                } else {
                    &&& final(self).namespace@ == after_transfer(
                        o,
                        id,
                        DriverCall::Write {
                            inode: o.inodes[id as int],
                            offset: old(handle).position,
                            data: buffer@,
                            reply: r,
                        },
                        r,
                        modified_at(o.inodes[id as int], final(handle).position, now),
                    )
                    &&& *final(handle) == (FileHandle {
                        position: match r {
                            Ok(count) => advanced(old(handle).position, count),
                            Err(_) => old(handle).position,
                        },
                        ..*old(handle)
                    })
                }
            }),
    {
        if !handle.can_write() {
            return Err(FileSystemError::InvalidAccessMode);
        }
        if self.files[handle.file].is_write_blocked(handle_value) {
            return Err(FileSystemError::FileLocked);
        }
        let ghost o = self.namespace@;
        let ghost before = *self;
        let id: InodeId = self.files[handle.file].inode;
        let inode: Inode = self.namespace.inodes[id];
        let v: VolumeId = inode.filesystem;
        assert(o.inodes[id as int].filesystem < o.histories.len());
        let r = self.namespace.volumes[v].instance.filesystem.write(
            &inode,
            handle.position,
            buffer,
        );
        let ghost call = DriverCall::Write {
            inode,
            offset: handle.position,
            data: buffer@,
            reply: r,
        };
        proof {
            lemma_call_shows(before.namespace, self.namespace, v, call);
            lemma_touched_wf(&before, &*self, id, inode);
        }
        match r {
            Ok(count) => {
                handle.advance_position(count);
                let new_end: u64 = handle.position;
                self.touch_modified(id, new_end, now);
                Ok(count)
            },
            Err(e) => Err(e),
        }
    }

    /// Sets a handle's position.
    pub fn seek(&self, handle: &mut FileHandle, offset: u64)
        ensures
            *final(handle) == (FileHandle { position: offset, ..*old(handle) }),
    {
        handle.seek_to(offset);
    }

    /// Takes a snapshot of the metadata at a path.
    pub fn stat(
        &mut self,
        path: &str,
        working_directory: Option<DirectoryId>,
        follow_symlinks: bool,
    ) -> (r: Result<InodeStat, FileSystemError>)
        requires
            old(self).wf(),
            wd_wf(old(self).namespace@, working_directory),
        ensures
            final(self).wf(),
            final(self).same_tables(old(self)),
            grew(old(self).namespace@, final(self).namespace@),
            exists|q: Result<InodeId, FileSystemError>|
                #[trigger] resolves(
                    old(self).namespace@,
                    final(self).namespace@,
                    path@,
                    working_directory,
                    follow_symlinks,
                    MAX_SYMLINK_DEPTH as nat,
                    q,
                ) && r == match q {
                    Ok(id) => Ok::<InodeStat, FileSystemError>(
                        final(self).namespace@.inodes[id as int].stat_of(),
                    ),
                    Err(e) => Err(e),
                },
    {
        let q = self.resolve(path, working_directory, follow_symlinks);
        match q {
            Ok(id) => Ok(self.namespace.inodes[id].stat()),
            Err(e) => Err(e),
        }
    }

    /// Notes that an inode's data was read at `now`.
    fn touch_accessed(&mut self, id: InodeId, now: u64)
        requires
            old(self).wf(),
            id < old(self).namespace@.inodes.len(),
        ensures
            final(self).wf(),
            final(self).same_tables(old(self)),
            final(self).namespace@ == old(self).namespace@.with_inode(
                id,
                accessed_at(old(self).namespace@.inodes[id as int], now),
            ),
    {
        let ghost before = *self;
        let ghost changed = accessed_at(self.namespace@.inodes[id as int], now);
        self.namespace.inodes[id].timestamps.accessed = now;
        self.namespace.inodes[id].dirty = true;
        proof {
            assert(self.namespace@ =~= before.namespace@.with_inode(id, changed)) by {
                assert(self.namespace.inodes@ =~= before.namespace.inodes@.update(
                    id as int,
                    changed,
                ));
            }
            lemma_touched_wf(&before, &*self, id, changed);
        }
    }

    /// Notes that an inode's data was written at `now`, up to `new_end`.
    fn touch_modified(&mut self, id: InodeId, new_end: u64, now: u64)
        requires
            old(self).wf(),
            id < old(self).namespace@.inodes.len(),
        ensures
            final(self).wf(),
            final(self).same_tables(old(self)),
            final(self).namespace@ == old(self).namespace@.with_inode(
                id,
                modified_at(old(self).namespace@.inodes[id as int], new_end, now),
            ),
    {
        let ghost before = *self;
        let ghost changed = modified_at(self.namespace@.inodes[id as int], new_end, now);
        self.namespace.inodes[id].timestamps.modified = now;
        self.namespace.inodes[id].timestamps.accessed = now;
        if new_end > self.namespace.inodes[id].size {
            self.namespace.inodes[id].size = new_end;
        }
        self.namespace.inodes[id].dirty = true;
        proof {
            assert(self.namespace@ =~= before.namespace@.with_inode(id, changed)) by {
                assert(self.namespace.inodes@ =~= before.namespace.inodes@.update(
                    id as int,
                    changed,
                ));
            }
            lemma_touched_wf(&before, &*self, id, changed);
        }
    }
}

/// The lock of a file after a handle was closed: the handle's lock is gone.
pub open spec fn lock_after_close(lock_state: FileLockState, handle_value: u32) -> FileLockState {
    if holds_lock(lock_state, handle_value) {
        FileLockState::Unlocked
    } else {
        lock_state
    }
}

/// The handles that are left in a list when the one known as `id` is closed.
pub open spec fn handles_after_close(handles: Seq<HandleRef>, id: u64) -> Seq<HandleRef> {
    live_handles(without_handle(handles, id))
}

/// What closing a handle does to the master record and to the rest. When no
/// handle is left, the record is no longer filed, and an inode that waited for
/// this is freed.
pub open spec fn closed(
    before: &VirtualFileSystem,
    after: &VirtualFileSystem,
    handle: FileHandle,
    handle_value: u32,
    r: Result<(), FileSystemError>,
) -> bool {
    let o = before.namespace@;
    let file = before.files@[handle.file as int];
    let left = handles_after_close(file.handles@, handle.id);
    let key = key_of(o, file.inode);
    &&& after.files@ == before.files@.update(
        handle.file as int,
        after.files@[handle.file as int],
    )
    &&& after.files@[handle.file as int].inode == file.inode
    &&& after.files@[handle.file as int].pending_deletion == file.pending_deletion
    &&& after.files@[handle.file as int].handles@ == left
    &&& after.files@[handle.file as int].lock_state == lock_after_close(
        file.lock_state,
        handle_value,
    )
    &&& before.open_files.same_room(&after.open_files)
    &&& if left.len() == 0 && before.open_files@.contains_key(key) {
        let id = before.files@[before.open_files@[key] as int].inode;
        let inode = o.inodes[id as int];
        &&& after.open_files@ == before.open_files@.remove(key)
        &&& if inode.pending_deletion && inode.link_count == 0 {
            after.namespace@ == o.with_call(
                inode.filesystem,
                DriverCall::FreeInode { inode, reply: r },
            )
        } else {
            after.namespace@ == o && r == Ok::<(), FileSystemError>(())
        }
    } else {
        &&& after.open_files@ == before.open_files@
        &&& after.namespace@ == o
        &&& r == Ok::<(), FileSystemError>(())
    }
    &&& after.drivers == before.drivers
    &&& after.mounts == before.mounts
    &&& after.mounted_root_index == before.mounted_root_index
    &&& after.next_filesystem_id == before.next_filesystem_id
    &&& after.next_handle_id == before.next_handle_id
}

impl VirtualFileSystem {
    /// Closes a handle.
    pub fn close(&mut self, handle: FileHandle, handle_value: u32) -> (r: Result<
        (),
        FileSystemError,
    >)
        requires
            old(self).wf(),
            handle.file < old(self).files@.len(),
        ensures
            final(self).wf(),
            closed(old(self), final(self), handle, handle_value, r),
    {
        let ghost before = *self;
        let ghost o = self.namespace@;
        let f: FileId = handle.file;
        let id: InodeId = self.files[f].inode;
        let inode: Inode = self.namespace.inodes[id];
        assert(o.inodes[id as int].filesystem < o.histories.len());
        let key = OpenFileKey::new(
            self.namespace.volumes[inode.filesystem].filesystem_id,
            inode.inode_number,
        );
        assert(key == key_of(o, id));
        if self.files[f].is_lock_holder(handle_value) {
            let _ = self.files[f].release_write_lock(handle_value);
        }
        self.files[f].drop_handle(handle.id);
        let live_count: usize = self.files[f].prune_and_count_handles();
        assert(self.files@ =~= before.files@.update(f as int, self.files@[f as int]));
        if live_count == 0 {
            let removed = self.open_files.remove(&key);
            if let Some(master) = removed {
                let ghost m = before.open_files@[key];
                let target: InodeId = self.files[master].inode;
                assert(target == before.files@[m as int].inode);
                let target_inode: Inode = self.namespace.inodes[target];
                if target_inode.pending_deletion && target_inode.link_count == 0 {
                    let v: VolumeId = target_inode.filesystem;
                    assert(o.inodes[target as int].filesystem < o.histories.len());
                    let ghost middle = *self;
                    assert(middle.wf());
                    let r = self.namespace.volumes[v].instance.filesystem.free_inode(&target_inode);
                    proof {
                        lemma_call_shows(
                            before.namespace,
                            self.namespace,
                            v,
                            DriverCall::FreeInode { inode: target_inode, reply: r },
                        );
                        lemma_touched_wf(&middle, &*self, target, target_inode);
                    }
                    return r;
                }
            } else {
                assert(before.open_files@.remove(key) =~= before.open_files@);
            }
        }
        Ok(())
    }
}

/// A deletion that had to wait for the file to be closed is completed when the
/// last handle is closed: the driver is asked to free the inode, and the file
/// is no longer open.
pub proof fn last_close_frees(
    before: &VirtualFileSystem,
    after: &VirtualFileSystem,
    handle: FileHandle,
    handle_value: u32,
    r: Result<(), FileSystemError>,
)
    requires
        before.wf(),
        handle.file < before.files@.len(),
        closed(before, after, handle, handle_value, r),
        ({
            let file = before.files@[handle.file as int];
            let inode = before.namespace@.inodes[file.inode as int];
            let key = key_of(before.namespace@, file.inode);
            &&& inode.pending_deletion && inode.link_count == 0
            &&& before.open_files@.contains_key(key) && before.open_files@[key] == handle.file
            &&& handles_after_close(file.handles@, handle.id).len() == 0
        }),
    ensures
        ({
            let file = before.files@[handle.file as int];
            let inode = before.namespace@.inodes[file.inode as int];
            &&& after.namespace@ == before.namespace@.with_call(
                inode.filesystem,
                DriverCall::FreeInode { inode, reply: r },
            )
            &&& !after.open_files@.contains_key(key_of(before.namespace@, file.inode))
        }),
{
}

/// A closed handle holds no lock.
pub proof fn closed_handle_holds_no_lock(
    before: &VirtualFileSystem,
    after: &VirtualFileSystem,
    handle: FileHandle,
    handle_value: u32,
    r: Result<(), FileSystemError>,
)
    requires
        handle.file < before.files@.len(),
        closed(before, after, handle, handle_value, r),
    ensures
        !holds_lock(after.files@[handle.file as int].lock_state, handle_value),
{
}

/// Handles to one inode share its master record, and are told apart by their
/// identifiers.
pub proof fn handles_share_a_record(
    first: &VirtualFileSystem,
    second: &VirtualFileSystem,
    third: &VirtualFileSystem,
    id: InodeId,
    modes: (AccessMode, AccessMode),
    handles: (FileHandle, FileHandle),
)
    requires
        second.wf(),
        id < second.namespace@.inodes.len(),
        grew(second.namespace@, third.namespace@),
        opened(first, second, id, modes.0, handles.0),
        opened(second, third, id, modes.1, handles.1),
    ensures
        handles.0.file == handles.1.file,
        handles.0.id != handles.1.id,
        third.files@ == second.files@,
        third.open_files@ == second.open_files@,
{
    assert(third.namespace@.inodes[id as int] == second.namespace@.inodes[id as int]);
}

/// Metadata got by following a path is never that of a symlink, where entries
/// and inodes agree on what is one.
pub proof fn followed_stat_is_of_no_symlink(
    o: NamespaceModel,
    s: NamespaceModel,
    path: Seq<char>,
    working_directory: Option<DirectoryId>,
    budget: nat,
    id: InodeId,
)
    requires
        s.wf(),
        wd_wf(s, working_directory),
        types_agree(s),
        resolves(o, s, path, working_directory, true, budget, Ok(id)),
    ensures
        !(s.inodes[id as int].stat_of().inode_type is Symlink),
{
    let w = choose|w: Result<Place, FileSystemError>|
        #[trigger] path_walks(o, s, path, working_directory, true, budget, w) && Ok::<
            InodeId,
            FileSystemError,
        >(id) == match w {
            Ok(place) => Ok::<InodeId, FileSystemError>(place.inode_in(s)),
            Err(e) => Err(e),
        };
    let start = start_of(s, path, working_directory);
    assert(s.is_dir(s.root));
    followed_names_end_at_no_symlink(o, s, start, components(path), budget, w->Ok_0);
}

/// Metadata got without following a symlink at the end of a path is that of the
/// symlink.
pub proof fn unfollowed_stat_is_of_the_symlink(
    o: NamespaceModel,
    s: NamespaceModel,
    path: Seq<char>,
    working_directory: Option<DirectoryId>,
    budget: nat,
    d: DirectoryId,
    id: InodeId,
    r: Result<InodeId, FileSystemError>,
)
    requires
        s.wf(),
        wd_wf(s, working_directory),
        types_agree(s),
        steady(o, s),
        parent_and_name(path) is Some,
        name_of(path) != dot(),
        name_of(path) != dot_dot(),
        s.is_dir(d),
        resolves_dir(o, s, parent_of(path), working_directory, budget, Ok(d)),
        leads_to(s, d, name_of(path), DirectoryEntryType::Symlink, id),
        resolves(o, s, path, working_directory, false, budget, r),
    ensures
        r == Ok::<InodeId, FileSystemError>(id),
        s.inodes[id as int].stat_of().inode_type is Symlink,
{
    only_the_entry_is_resolved(
        o,
        s,
        path,
        working_directory,
        false,
        budget,
        d,
        DirectoryEntryType::Symlink,
        id,
        r,
    );
}

/// A path that leads round and round fails: there are too many symlinks.
pub proof fn endless_paths_are_refused(
    o: NamespaceModel,
    s: NamespaceModel,
    states: spec_fn(DirectoryId, Seq<Seq<char>>) -> bool,
    path: Seq<char>,
    working_directory: Option<DirectoryId>,
    follow: bool,
    budget: nat,
    r: Result<InodeId, FileSystemError>,
)
    requires
        s.wf(),
        path.len() > 0,
        never_ends(o, s, follow, states),
        states(start_of(s, path, working_directory), components(path)),
        resolves(o, s, path, working_directory, follow, budget, r),
    ensures
        r == Err::<InodeId, FileSystemError>(FileSystemError::TooManySymlinks),
{
    let w = choose|w: Result<Place, FileSystemError>|
        #[trigger] path_walks(o, s, path, working_directory, follow, budget, w) && r == match w {
            Ok(place) => Ok::<InodeId, FileSystemError>(place.inode_in(s)),
            Err(e) => Err(e),
        };
    let start = start_of(s, path, working_directory);
    endless_walks_are_refused(o, s, states, start, components(path), follow, budget, w);
}

/// A symlink that names itself cannot be followed: there are too many symlinks.
pub proof fn link_to_itself_is_refused(
    o: NamespaceModel,
    s: NamespaceModel,
    path: Seq<char>,
    working_directory: Option<DirectoryId>,
    budget: nat,
    d: DirectoryId,
    id: InodeId,
    r: Result<InodeId, FileSystemError>,
)
    requires
        s.wf(),
        wd_wf(s, working_directory),
        steady(o, s),
        parent_and_name(path) is Some,
        name_of(path) != dot(),
        name_of(path) != dot_dot(),
        s.is_dir(d),
        resolves_dir(o, s, parent_of(path), working_directory, budget, Ok(d)),
        leads_to(s, d, name_of(path), DirectoryEntryType::Symlink, id),
        forall|reply: Result<Seq<char>, FileSystemError>|
            #[trigger] asked(
                o,
                s,
                s.volume_of(d),
                DriverCall::ReadSymlink { inode: s.inodes[id as int], reply },
            ) ==> reply == Ok::<Seq<char>, FileSystemError>(name_of(path)),
        resolves(o, s, path, working_directory, true, budget, r),
    ensures
        r == Err::<InodeId, FileSystemError>(FileSystemError::TooManySymlinks),
{
    let name = name_of(path);
    let names = lemma_names_before_last(o, s, path, working_directory, budget, d);
    let start = start_of(s, path, working_directory);
    let w = choose|w: Result<Place, FileSystemError>|
        #[trigger] path_walks(o, s, path, working_directory, true, budget, w) && r == match w {
            Ok(place) => Ok::<InodeId, FileSystemError>(place.inode_in(s)),
            Err(e) => Err(e),
        };
    let left = walks_split(o, s, start, names, only(name), true, budget, d, w);
    parent_and_name_rejoin(path);
    components_of_name(name);
    let states = |x: DirectoryId, rest: Seq<Seq<char>>| x == d && rest == only(name);
    assert(only(name).skip(1) =~= seq![]);
    assert(components(name) + only(name).skip(1) =~= only(name));
    assert(steps_on(o, s, d, only(name), true, states));
    assert(never_ends(o, s, true, states));
    endless_walks_are_refused(o, s, states, d, only(name), true, left, w);
}

} // verus!

//! Open files: one master record per open inode, one handle per `open`.

use vstd::prelude::*;

use super::inode::InodeId;
use super::types::{AccessMode, FileLockState, FileSystemError};

verus! {

/// An index into the table of master records.
pub type FileId = usize;

/// What a master record knows of one of its handles. A handle that went out
/// of use without being closed is marked, and leaves the list when it is next
/// pruned.
#[derive(Debug, Clone, Copy, PartialEq, Eq, Structural)]
pub struct HandleRef {
    pub id: u64,
    pub live: bool,
}

/// The master record of an inode that is open.
pub struct File {
    pub inode: InodeId,
    pub lock_state: FileLockState,
    pub handles: Vec<HandleRef>,
    pub pending_deletion: bool,
}

/// The handles that are in use.
pub open spec fn live_handles(handles: Seq<HandleRef>) -> Seq<HandleRef> {
    handles.filter(|h: HandleRef| h.live)
}

/// The handles once the one known as `id` has gone out of use.
pub open spec fn without_handle(handles: Seq<HandleRef>, id: u64) -> Seq<HandleRef> {
    Seq::new(
        handles.len(),
        |i: int| HandleRef { id: handles[i].id, live: handles[i].live && handles[i].id != id },
    )
}

/// A file that is locked by another handle than `handle_value` refuses its
/// writes.
pub open spec fn write_blocked(lock_state: FileLockState, handle_value: u32) -> bool {
    match lock_state {
        FileLockState::Unlocked => false,
        FileLockState::WriteExclusive { holder_handle } => holder_handle != handle_value,
    }
}

/// The lock is held by `handle_value`.
pub open spec fn holds_lock(lock_state: FileLockState, handle_value: u32) -> bool {
    lock_state == (FileLockState::WriteExclusive { holder_handle: handle_value })
}

impl File {
    /// A record without handles, not locked.
    pub fn new(inode: InodeId) -> (r: Self)
        ensures
            r.inode == inode,
            r.lock_state == FileLockState::Unlocked,
            r.handles@ == Seq::<HandleRef>::empty(),
            r.pending_deletion == false,
    {
        File {
            inode,
            lock_state: FileLockState::Unlocked,
            handles: Vec::new(),
            pending_deletion: false,
        }
    }

    /// Adds a handle to the list.
    pub fn register_handle(&mut self, handle: &FileHandle)
        ensures
            final(self).handles@ == old(self).handles@.push(HandleRef { id: handle.id, live: true }),
            final(self).inode == old(self).inode,
            final(self).lock_state == old(self).lock_state,
            final(self).pending_deletion == old(self).pending_deletion,
    {
        self.handles.push(HandleRef { id: handle.id, live: true });
    }

    /// Marks a handle as out of use.
    pub fn drop_handle(&mut self, id: u64)
        ensures
            final(self).handles@ == without_handle(old(self).handles@, id),
            final(self).inode == old(self).inode,
            final(self).lock_state == old(self).lock_state,
            final(self).pending_deletion == old(self).pending_deletion,
    {
        let mut i: usize = 0;
        while i < self.handles.len()
            invariant
                i <= self.handles@.len(),
                self.handles@.len() == old(self).handles@.len(),
                self.inode == old(self).inode,
                self.lock_state == old(self).lock_state,
                self.pending_deletion == old(self).pending_deletion,
                forall|j: int|
                    0 <= j < i ==> self.handles@[j] == without_handle(old(self).handles@, id)[j],
                forall|j: int|
                    i <= j < self.handles@.len() ==> self.handles@[j] == old(self).handles@[j],
            decreases self.handles@.len() - i,
        {
            if self.handles[i].id == id {
                self.handles.set(i, HandleRef { id, live: false });
            }
            i = i + 1;
        }
        assert(self.handles@ =~= without_handle(old(self).handles@, id));
    }

    /// Drops the handles that are out of use from the list, and counts the
    /// rest.
    pub fn prune_and_count_handles(&mut self) -> (r: usize)
        ensures
            final(self).handles@ == live_handles(old(self).handles@),
            r == live_handles(old(self).handles@).len(),
            final(self).inode == old(self).inode,
            final(self).lock_state == old(self).lock_state,
            final(self).pending_deletion == old(self).pending_deletion,
    {
        let mut kept: Vec<HandleRef> = Vec::new();
        let mut i: usize = 0;
        let ghost live = |h: HandleRef| h.live;
        reveal(Seq::filter);
        assert(self.handles@.take(0).filter(live) =~= seq![]);
        while i < self.handles.len()
            invariant
                i <= self.handles@.len(),
                *self == *old(self),
                live == (|h: HandleRef| h.live),
                kept@ == self.handles@.take(i as int).filter(live),
            decreases self.handles@.len() - i,
        {
            proof {
                let next = self.handles@.take(i + 1);
                assert(next.drop_last() =~= self.handles@.take(i as int));
                reveal(Seq::filter);
            }
            if self.handles[i].live {
                kept.push(self.handles[i]);
            }
            i = i + 1;
        }
        assert(self.handles@.take(i as int) =~= self.handles@);
        self.handles = kept;
        self.handles.len()
    }

    /// Counts the handles that are in use.
    pub fn count_handles(&self) -> (r: usize)
        ensures
            r == live_handles(self.handles@).len(),
    {
        let mut count: usize = 0;
        let mut i: usize = 0;
        let ghost live = |h: HandleRef| h.live;
        reveal(Seq::filter);
        assert(self.handles@.take(0).filter(live) =~= seq![]);
        while i < self.handles.len()
            invariant
                i <= self.handles@.len(),
                count <= i,
                live == (|h: HandleRef| h.live),
                count == self.handles@.take(i as int).filter(live).len(),
            decreases self.handles@.len() - i,
        {
            proof {
                let next = self.handles@.take(i + 1);
                assert(next.drop_last() =~= self.handles@.take(i as int));
                reveal(Seq::filter);
            }
            if self.handles[i].live {
                count = count + 1;
            }
            i = i + 1;
        }
        assert(self.handles@.take(i as int) =~= self.handles@);
        count
    }

    /// Checks if the handle holds the write lock.
    pub fn is_lock_holder(&self, handle_value: u32) -> (r: bool)
        ensures
            r == holds_lock(self.lock_state, handle_value),
    {
        match self.lock_state {
            FileLockState::WriteExclusive { holder_handle } => holder_handle == handle_value,
            FileLockState::Unlocked => false,
        }
    }

    /// Takes the write lock for a handle, if nobody has it.
    pub fn acquire_write_lock(&mut self, handle_value: u32) -> (r: Result<(), FileSystemError>)
        ensures
            r == if old(self).lock_state is Unlocked {
                Ok::<(), FileSystemError>(())
            } else {
                Err(FileSystemError::LockContention)
            },
            final(self).lock_state == if r is Ok {
                FileLockState::WriteExclusive { holder_handle: handle_value }
            } else {
                old(self).lock_state
            },
            final(self).inode == old(self).inode,
            final(self).handles == old(self).handles,
            final(self).pending_deletion == old(self).pending_deletion,
    {
        match self.lock_state {
            FileLockState::Unlocked => {
                self.lock_state = FileLockState::WriteExclusive { holder_handle: handle_value };
                Ok(())
            },
            FileLockState::WriteExclusive { .. } => Err(FileSystemError::LockContention),
        }
    }

    /// Gives the write lock back, if the handle has it.
    pub fn release_write_lock(&mut self, handle_value: u32) -> (r: Result<(), FileSystemError>)
        ensures
            r == if holds_lock(old(self).lock_state, handle_value) {
                Ok::<(), FileSystemError>(())
            } else {
                Err(FileSystemError::InvalidHandle)
            },
            final(self).lock_state == if r is Ok {
                FileLockState::Unlocked
            } else {
                old(self).lock_state
            },
            final(self).inode == old(self).inode,
            final(self).handles == old(self).handles,
            final(self).pending_deletion == old(self).pending_deletion,
    {
        if self.is_lock_holder(handle_value) {
            self.lock_state = FileLockState::Unlocked;
            return Ok(());
        }
        Err(FileSystemError::InvalidHandle)
    }

    /// Checks if the lock keeps a handle from writing.
    pub fn is_write_blocked(&self, handle_value: u32) -> (r: bool)
        ensures
            r == write_blocked(self.lock_state, handle_value),
    {
        match self.lock_state {
            FileLockState::WriteExclusive { holder_handle } => holder_handle != handle_value,
            FileLockState::Unlocked => false,
        }
    }
}

/// While one handle holds the lock, every other handle is kept from writing
/// and it is not; while nobody holds it, no handle is.
pub proof fn lock_excludes_others(lock_state: FileLockState, handle_value: u32)
    ensures
        holds_lock(lock_state, handle_value) ==> !write_blocked(lock_state, handle_value),
        lock_state is Unlocked ==> !write_blocked(lock_state, handle_value),
        write_blocked(lock_state, handle_value) <==> exists|other: u32|
            other != handle_value && holds_lock(lock_state, other),
        forall|other: u32|
            holds_lock(lock_state, handle_value) && holds_lock(lock_state, other) ==> other
                == handle_value,
{
    if write_blocked(lock_state, handle_value) {
        assert(holds_lock(lock_state, lock_state->holder_handle));
    }
}

/// One `open` of a file.
pub struct FileHandle {
    /// The master record.
    pub file: FileId,
    /// Tells this handle from all others.
    pub id: u64,
    /// Where the next read or write begins.
    pub position: u64,
    pub access_mode: AccessMode,
}

impl FileHandle {
    /// A handle that stands at the beginning of the file.
    pub fn new(file: FileId, id: u64, access_mode: AccessMode) -> (r: Self)
        ensures
            r == (FileHandle { file, id, position: 0, access_mode }),
    {
        FileHandle { file, id, position: 0, access_mode }
    }

    /// Checks if this handle permits reading.
    pub fn can_read(&self) -> (r: bool)
        ensures
            r == (self.access_mode is ReadOnly || self.access_mode is ReadWrite),
    {
        self.access_mode.can_read()
    }

    /// Checks if this handle permits writing.
    pub fn can_write(&self) -> (r: bool)
        ensures
            r == (self.access_mode is WriteOnly || self.access_mode is ReadWrite),
    {
        self.access_mode.can_write()
    }

    /// Moves the position forward, at most to the last one there is.
    pub fn advance_position(&mut self, bytes_transferred: usize)
        ensures
            *final(self) == (FileHandle {
                position: advanced(old(self).position, bytes_transferred),
                ..*old(self)
            }),
    {
        self.position = self.position.saturating_add(bytes_transferred as u64);
    }

    /// Sets the position.
    pub fn seek_to(&mut self, offset: u64)
        ensures
            *final(self) == (FileHandle { position: offset, ..*old(self) }),
    {
        self.position = offset;
    }
}

/// The position `count` bytes on, at most the last one there is.
pub open spec fn advanced(position: u64, count: usize) -> u64 {
    if position + count > u64::MAX {
        u64::MAX
    } else {
        (position + count) as u64
    }
}

} // verus!

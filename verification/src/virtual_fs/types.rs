//! The vocabulary of the virtual file system.

use vstd::prelude::*;

use crate::bytes::{le64, u64_to_le};
use crate::kernel_hashmap::{fnv1a, fnv1a_continue, KernelHash};

verus! {

/// Why an operation of the file system, or of a driver, failed.
#[derive(Debug, Clone, Copy, PartialEq, Eq, Structural)]
pub enum FileSystemError {
    /// The on-disk format was not recognized.
    InvalidFormat,
    /// A required on-disk structure could not be read.
    CorruptStructure,
    /// The block device reported an unrecoverable read error.
    DiskReadError,
    /// The block device reported an unrecoverable write error.
    DiskWriteError,
    /// The volume is mounted read-only.
    ReadOnlyFilesystem,
    /// The volume has no free blocks.
    OutOfSpace,
    /// The volume has no free inode slots.
    OutOfInodes,
    /// The path component or entry does not exist.
    NotFound,
    /// A component that should be a directory is not one.
    NotADirectory,
    /// A component that should be a file is not one.
    NotAFile,
    /// A component that should be a symlink is not one.
    NotASymlink,
    /// An entry with the requested name exists.
    AlreadyExists,
    /// The directory still contains entries.
    DirectoryNotEmpty,
    /// More symlinks were met than the budget allows.
    TooManySymlinks,
    /// The caller lacks the required permissions.
    PermissionDenied,
    /// The handle does not permit the operation.
    InvalidAccessMode,
    /// The write lock is held by another handle.
    LockContention,
    /// A write was blocked by another handle's lock.
    FileLocked,
    /// The handle value is not known.
    InvalidHandle,
    /// The path is malformed.
    InvalidPath,
    /// The inode awaits final reclamation.
    PendingDeletion,
    /// A volume is mounted on the directory.
    AlreadyMounted,
    /// No volume is mounted on the directory.
    NotMounted,
    /// No driver is registered under the name.
    UnknownDriver,
    /// An invariant of the file system was violated.
    InternalError,
}

/// The kind of object that an inode represents.
#[derive(Debug, Clone, Copy, PartialEq, Eq, Structural)]
pub enum InodeType {
    File,
    Directory,
    Symlink,
}

/// The kind of inode that a directory entry references.
#[derive(Debug, Clone, Copy, PartialEq, Eq, Structural)]
pub enum DirectoryEntryType {
    File,
    Directory,
    Symlink,
}

/// The entry type that goes with an inode type.
pub open spec fn entry_type_of(inode_type: InodeType) -> DirectoryEntryType {
    match inode_type {
        InodeType::File => DirectoryEntryType::File,
        InodeType::Directory => DirectoryEntryType::Directory,
        InodeType::Symlink => DirectoryEntryType::Symlink,
    }
}

/// The access rights of a handle, fixed when it is opened.
#[derive(Debug, Clone, Copy, PartialEq, Eq, Structural)]
pub enum AccessMode {
    ReadOnly,
    WriteOnly,
    ReadWrite,
}

impl AccessMode {
    /// Checks if this mode permits reading.
    pub fn can_read(self) -> (r: bool)
        ensures
            r == (self is ReadOnly || self is ReadWrite),
    {
        matches!(self, AccessMode::ReadOnly | AccessMode::ReadWrite)
    }

    /// Checks if this mode permits writing.
    pub fn can_write(self) -> (r: bool)
        ensures
            r == (self is WriteOnly || self is ReadWrite),
    {
        matches!(self, AccessMode::WriteOnly | AccessMode::ReadWrite)
    }
}

/// Every access mode permits reading or writing, and only `ReadWrite` permits
/// both.
pub proof fn access_modes_split(mode: AccessMode)
    ensures
        mode is ReadOnly || mode is WriteOnly || mode is ReadWrite,
        ((mode is ReadOnly || mode is ReadWrite) && (mode is WriteOnly || mode is ReadWrite))
            <==> mode is ReadWrite,
{
}

/// The write lock of an open file.
#[derive(Debug, Clone, Copy, PartialEq, Eq, Structural)]
pub enum FileLockState {
    Unlocked,
    /// Only the handle with this value may write.
    WriteExclusive { holder_handle: u32 },
}

/// Times in milliseconds of the Unix epoch; zero stands for an unknown time.
#[derive(Debug, Clone, Copy, PartialEq, Eq, Structural)]
pub struct Timestamps {
    pub created: u64,
    pub modified: u64,
    pub accessed: u64,
}

impl Timestamps {
    /// The timestamps of an inode created at `now`.
    pub fn new(now: u64) -> (r: Self)
        ensures
            r == (Timestamps { created: now, modified: now, accessed: now }),
    {
        Timestamps { created: now, modified: now, accessed: now }
    }

    /// Timestamps that are all unknown.
    pub fn zero() -> (r: Self)
        ensures
            r == (Timestamps { created: 0, modified: 0, accessed: 0 }),
    {
        Timestamps { created: 0, modified: 0, accessed: 0 }
    }
}

/// Access-control permissions. The only value grants everything.
#[derive(Debug, Clone, Copy, PartialEq, Eq, Structural)]
pub struct Permissions {
    pub reserved: u64,
}

impl Permissions {
    /// Permissions that grant all access.
    pub fn all_permissive() -> (r: Self)
        ensures
            r == (Permissions { reserved: 0 }),
    {
        Permissions { reserved: 0 }
    }
}

/// A snapshot of an inode's metadata.
#[derive(Debug, Clone, Copy, PartialEq, Eq, Structural)]
pub struct InodeStat {
    pub inode_number: u64,
    pub inode_type: InodeType,
    pub size: u64,
    pub permissions: Permissions,
    pub timestamps: Timestamps,
    pub link_count: u32,
}

/// Identifies an inode across all mounted volumes.
#[derive(Debug, Clone, Copy, PartialEq, Eq, Hash, Structural)]
pub struct OpenFileKey {
    pub filesystem_id: u64,
    pub inode_number: u64,
}

impl OpenFileKey {
    pub fn new(filesystem_id: u64, inode_number: u64) -> (r: Self)
        ensures
            r == (OpenFileKey { filesystem_id, inode_number }),
    {
        OpenFileKey { filesystem_id, inode_number }
    }
}

impl View for OpenFileKey {
    type V = OpenFileKey;

    open spec fn view(&self) -> OpenFileKey {
        *self
    }
}

impl KernelHash for OpenFileKey {
    /// One hash over the bytes of both fields in turn.
    open spec fn hash_of(key: OpenFileKey) -> u64 {
        fnv1a(le64(key.filesystem_id) + le64(key.inode_number))
    }

    fn kernel_hash(&self) -> (r: u64) {
        proof {
            crate::kernel_hashmap::fnv1a_chains(
                crate::kernel_hashmap::FNV_OFFSET_BASIS,
                le64(self.filesystem_id),
                le64(self.inode_number),
            );
        }
        fnv1a_continue(self.filesystem_id.kernel_hash(), &u64_to_le(self.inode_number))
    }

    fn same_key(&self, other: &Self) -> (r: bool) {
        *self == *other
    }
}

/// A file's key is hashed by the bytes of the volume's identifier and then those
/// of the inode's number.
pub proof fn file_keys_are_hashed(key: OpenFileKey)
    ensures
        <OpenFileKey as KernelHash>::hash_of(key) == fnv1a(
            le64(key.filesystem_id) + le64(key.inode_number),
        ),
{
}

/// Which modes permit what.
pub proof fn modes_permit(mode: AccessMode, r: bool, w: bool)
    requires
        call_ensures(AccessMode::can_read, (mode,), r),
        call_ensures(AccessMode::can_write, (mode,), w),
    ensures
        mode == AccessMode::ReadOnly ==> r && !w,
        mode == AccessMode::WriteOnly ==> !r && w,
        mode == AccessMode::ReadWrite ==> r && w,
{
}

} // verus!

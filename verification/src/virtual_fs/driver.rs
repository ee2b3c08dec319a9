//! What the file system asks of a volume's driver.
//!
//! A driver may answer as it sees fit. All that its contract says is that each
//! call, with its arguments and the answer, is added to the driver's history.
//! The history is there for proofs: a driver that is verified defines it, and
//! one that is not has no need to.

use std::sync::Arc;

use vstd::prelude::*;

use super::inode::{entry_models, DirectoryEntry, EntryModel, Inode};
use super::types::{FileSystemError, Permissions, Timestamps};

verus! {

/// One call of a driver, with the answer.
#[allow(inconsistent_fields)]
pub enum DriverCall {
    LoadInode { inode_number: u64, reply: Result<Inode, FileSystemError> },
    SyncInode { inode: Inode, reply: Result<(), FileSystemError> },
    FreeInode { inode: Inode, reply: Result<(), FileSystemError> },
    Lookup { directory: Inode, name: Seq<char>, reply: Result<EntryModel, FileSystemError> },
    ReadDir { directory: Inode, reply: Result<Seq<EntryModel>, FileSystemError> },
    Read { inode: Inode, offset: u64, data: Seq<u8>, reply: Result<usize, FileSystemError> },
    Write { inode: Inode, offset: u64, data: Seq<u8>, reply: Result<usize, FileSystemError> },
    CreateFile {
        parent: Inode,
        name: Seq<char>,
        permissions: Permissions,
        timestamps: Timestamps,
        reply: Result<Inode, FileSystemError>,
    },
    CreateDirectory {
        parent: Inode,
        name: Seq<char>,
        permissions: Permissions,
        timestamps: Timestamps,
        reply: Result<Inode, FileSystemError>,
    },
    CreateSymlink {
        parent: Inode,
        name: Seq<char>,
        target: Seq<char>,
        timestamps: Timestamps,
        reply: Result<Inode, FileSystemError>,
    },
    Unlink { parent: Inode, name: Seq<char>, reply: Result<(), FileSystemError> },
    Rename {
        old_parent: Inode,
        old_name: Seq<char>,
        new_parent: Inode,
        new_name: Seq<char>,
        reply: Result<(), FileSystemError>,
    },
    ReadSymlink { inode: Inode, reply: Result<Seq<char>, FileSystemError> },
    SetPermissions { inode: Inode, permissions: Permissions, reply: Result<(), FileSystemError> },
    SetTimestamps { inode: Inode, timestamps: Timestamps, reply: Result<(), FileSystemError> },
    Unmount { reply: Result<(), FileSystemError> },
}

/// A result whose success value is taken by its view.
pub open spec fn entry_reply(
    r: Result<DirectoryEntry, FileSystemError>,
) -> Result<EntryModel, FileSystemError> {
    match r {
        Ok(entry) => Ok(entry@),
        Err(e) => Err(e),
    }
}

/// A result whose success value is taken by its view.
pub open spec fn entries_reply(
    r: Result<Vec<DirectoryEntry>, FileSystemError>,
) -> Result<Seq<EntryModel>, FileSystemError> {
    match r {
        Ok(entries) => Ok(entry_models(entries@)),
        Err(e) => Err(e),
    }
}

/// A result whose success value is taken by its view.
pub open spec fn text_reply(
    r: Result<String, FileSystemError>,
) -> Result<Seq<char>, FileSystemError> {
    match r {
        Ok(text) => Ok(text@),
        Err(e) => Err(e),
    }
}

/// A device that holds a volume, in blocks of a fixed size.
pub trait BlockDevice: Send + Sync {
    /// The size of a block in bytes.
    fn block_size(&self) -> u32;

    /// The number of blocks.
    fn block_count(&self) -> u64;

    /// Fills `buffer`, one block long, with a block of the device.
    fn read_block(&self, block_number: u64, buffer: &mut [u8]) -> Result<(), FileSystemError>;

    /// Writes `buffer`, one block long, to a block of the device.
    fn write_block(&self, block_number: u64, buffer: &[u8]) -> Result<(), FileSystemError>;
}

/// A device to be mounted.
pub struct Device {
    pub blocks: Arc<dyn BlockDevice>,
}

/// Recognizes one on-disk format and mounts devices that hold it.
pub trait FileSystemDriver: Send + Sync {
    /// The driver's name.
    open spec fn driver_name(&self) -> Seq<char> {
        Seq::empty()
    }

    /// `reply` is an answer of this driver to a request to mount `device`.
    open spec fn mounts_as(
        &self,
        device: Device,
        reply: Result<Instance, FileSystemError>,
    ) -> bool {
        true
    }

    /// Gives the driver's name.
    fn name(&self) -> (r: &'static str)
        ensures
            r@ == self.driver_name(),
    ;

    /// Mounts the volume that `device` holds.
    fn mount(&self, device: Device) -> (r: Result<Instance, FileSystemError>)
        ensures
            self.mounts_as(device, r),
    ;
}

/// The driver of one mounted volume.
pub struct Instance {
    pub filesystem: Box<dyn FileSystemInstance>,
}

/// A mounted volume.
pub trait FileSystemInstance: Send + Sync {
    /// The calls made so far. An implementation that is verified has to define
    /// this: the empty history given here does not grow, as the methods say
    /// that it does.
    open spec fn history(&self) -> Seq<DriverCall> {
        Seq::empty()
    }

    /// The identifier that this volume was given.
    fn instance_id(&self) -> u64;

    /// The size of a block in bytes.
    fn block_size(&self) -> u32;

    /// The name of the on-disk format.
    fn fs_type(&self) -> &'static str;

    /// Loads an inode by its number.
    fn load_inode(&mut self, inode_number: u64) -> (r: Result<Inode, FileSystemError>)
        ensures
            final(self).history() == old(self).history().push(
                DriverCall::LoadInode { inode_number, reply: r },
            ),
    ;

    /// Writes an inode's metadata out.
    fn sync_inode(&mut self, inode: &Inode) -> (r: Result<(), FileSystemError>)
        ensures
            final(self).history() == old(self).history().push(
                DriverCall::SyncInode { inode: *inode, reply: r },
            ),
    ;

    /// Releases an inode and its data blocks.
    fn free_inode(&mut self, inode: &Inode) -> (r: Result<(), FileSystemError>)
        ensures
            final(self).history() == old(self).history().push(
                DriverCall::FreeInode { inode: *inode, reply: r },
            ),
    ;

    /// Looks one entry of a directory up.
    fn lookup(&mut self, directory: &Inode, name: &str) -> (r: Result<
        DirectoryEntry,
        FileSystemError,
    >)
        ensures
            final(self).history() == old(self).history().push(
                DriverCall::Lookup { directory: *directory, name: name@, reply: entry_reply(r) },
            ),
    ;

    /// Lists the entries of a directory.
    fn read_dir(&mut self, directory: &Inode) -> (r: Result<Vec<DirectoryEntry>, FileSystemError>)
        ensures
            final(self).history() == old(self).history().push(
                DriverCall::ReadDir { directory: *directory, reply: entries_reply(r) },
            ),
    ;

    /// Reads from a file into `buffer`, and tells how many bytes were read.
    fn read(&mut self, inode: &Inode, offset: u64, buffer: &mut [u8]) -> (r: Result<
        usize,
        FileSystemError,
    >)
        ensures
            final(self).history() == old(self).history().push(
                DriverCall::Read { inode: *inode, offset, data: final(buffer)@, reply: r },
            ),
            final(buffer)@.len() == old(buffer)@.len(),
    ;

    /// Writes `buffer` to a file, and tells how many bytes were written.
    fn write(&mut self, inode: &Inode, offset: u64, buffer: &[u8]) -> (r: Result<
        usize,
        FileSystemError,
    >)
        ensures
            final(self).history() == old(self).history().push(
                DriverCall::Write { inode: *inode, offset, data: buffer@, reply: r },
            ),
    ;

    /// Creates a regular file in a directory.
    fn create_file(
        &mut self,
        parent: &Inode,
        name: &str,
        permissions: Permissions,
        timestamps: Timestamps,
    ) -> (r: Result<Inode, FileSystemError>)
        ensures
            final(self).history() == old(self).history().push(
                DriverCall::CreateFile {
                    parent: *parent,
                    name: name@,
                    permissions,
                    timestamps,
                    reply: r,
                },
            ),
    ;

    /// Creates a directory in a directory.
    fn create_directory(
        &mut self,
        parent: &Inode,
        name: &str,
        permissions: Permissions,
        timestamps: Timestamps,
    ) -> (r: Result<Inode, FileSystemError>)
        ensures
            final(self).history() == old(self).history().push(
                DriverCall::CreateDirectory {
                    parent: *parent,
                    name: name@,
                    permissions,
                    timestamps,
                    reply: r,
                },
            ),
    ;

    /// Creates a symbolic link in a directory.
    fn create_symlink(
        &mut self,
        parent: &Inode,
        name: &str,
        target: &str,
        timestamps: Timestamps,
    ) -> (r: Result<Inode, FileSystemError>)
        ensures
            final(self).history() == old(self).history().push(
                DriverCall::CreateSymlink {
                    parent: *parent,
                    name: name@,
                    target: target@,
                    timestamps,
                    reply: r,
                },
            ),
    ;

    /// Removes an entry from a directory.
    fn unlink(&mut self, parent: &Inode, name: &str) -> (r: Result<(), FileSystemError>)
        ensures
            final(self).history() == old(self).history().push(
                DriverCall::Unlink { parent: *parent, name: name@, reply: r },
            ),
    ;

    /// Moves an entry from one directory to another.
    fn rename(
        &mut self,
        old_parent: &Inode,
        old_name: &str,
        new_parent: &Inode,
        new_name: &str,
    ) -> (r: Result<(), FileSystemError>)
        ensures
            final(self).history() == old(self).history().push(
                DriverCall::Rename {
                    old_parent: *old_parent,
                    old_name: old_name@,
                    new_parent: *new_parent,
                    new_name: new_name@,
                    reply: r,
                },
            ),
    ;

    /// Reads the target of a symlink.
    fn read_symlink(&mut self, inode: &Inode) -> (r: Result<String, FileSystemError>)
        ensures
            final(self).history() == old(self).history().push(
                DriverCall::ReadSymlink { inode: *inode, reply: text_reply(r) },
            ),
    ;

    /// Replaces the permissions of an inode.
    fn set_permissions(&mut self, inode: &Inode, permissions: Permissions) -> (r: Result<
        (),
        FileSystemError,
    >)
        ensures
            final(self).history() == old(self).history().push(
                DriverCall::SetPermissions { inode: *inode, permissions, reply: r },
            ),
    ;

    /// Replaces the timestamps of an inode.
    fn set_timestamps(&mut self, inode: &Inode, timestamps: Timestamps) -> (r: Result<
        (),
        FileSystemError,
    >)
        ensures
            final(self).history() == old(self).history().push(
                DriverCall::SetTimestamps { inode: *inode, timestamps, reply: r },
            ),
    ;

    /// Writes everything out and lets go of the device.
    fn unmount(&mut self) -> (r: Result<(), FileSystemError>)
        ensures
            final(self).history() == old(self).history().push(DriverCall::Unmount { reply: r }),
    ;
}

} // verus!

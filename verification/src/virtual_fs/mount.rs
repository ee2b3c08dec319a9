//! Mount points.

use vstd::prelude::*;

use super::directory::DirectoryId;
use super::inode::VolumeId;
use super::namespace::Namespace;

verus! {

/// A volume mounted on a directory.
#[derive(Debug, Clone, Copy, PartialEq, Eq, Structural)]
pub struct MountPoint {
    /// The identifier that the volume was given when it was mounted.
    pub filesystem_id: u64,
    /// The directory that the volume is mounted on.
    pub host_directory: DirectoryId,
    /// The root directory of the volume.
    pub mounted_root: DirectoryId,
    pub instance: VolumeId,
}

impl MountPoint {
    pub fn new(
        filesystem_id: u64,
        host_directory: DirectoryId,
        mounted_root: DirectoryId,
        instance: VolumeId,
    ) -> (r: Self)
        ensures
            r == (MountPoint { filesystem_id, host_directory, mounted_root, instance }),
    {
        MountPoint { filesystem_id, host_directory, mounted_root, instance }
    }

    /// Gets the inode number of the host directory.
    pub fn host_inode_number(&self, namespace: &Namespace) -> (r: u64)
        requires
            namespace@.wf(),
            namespace@.is_dir(self.host_directory),
        ensures
            r == namespace@.inode_of(self.host_directory).inode_number,
    {
        assert(namespace@.dir_wf(self.host_directory));
        namespace.inodes[namespace.directories[self.host_directory].inode].inode_number
    }

    /// Gets the inode number of the root of the mounted volume.
    pub fn mounted_root_inode_number(&self, namespace: &Namespace) -> (r: u64)
        requires
            namespace@.wf(),
            namespace@.is_dir(self.mounted_root),
        ensures
            r == namespace@.inode_of(self.mounted_root).inode_number,
    {
        assert(namespace@.dir_wf(self.mounted_root));
        namespace.inodes[namespace.directories[self.mounted_root].inode].inode_number
    }
}

} // verus!

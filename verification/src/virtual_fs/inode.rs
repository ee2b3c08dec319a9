//! Inodes and directory entries.

use vstd::prelude::*;

use super::driver::{DriverCall, FileSystemInstance};
use super::types::{
    DirectoryEntryType, FileSystemError, InodeStat, InodeType, Permissions, Timestamps,
};

verus! {

/// An index into the table of inodes.
pub type InodeId = usize;

/// An index into the table of volumes.
pub type VolumeId = usize;

/// The in-memory record of a file, a directory or a symlink.
#[derive(Debug, Clone, Copy, PartialEq, Eq, Structural)]
pub struct Inode {
    /// Identifies the inode within its volume.
    pub inode_number: u64,
    /// The volume that owns the inode.
    pub filesystem: VolumeId,
    pub inode_type: InodeType,
    pub size: u64,
    pub permissions: Permissions,
    pub timestamps: Timestamps,
    /// The number of directory entries that reference the inode.
    pub link_count: u32,
    /// Whether a volume is mounted on this directory.
    pub mount_flag: bool,
    /// Whether the metadata has changed since it was last written out.
    pub dirty: bool,
    /// Whether the inode has lost its last entry while it was open.
    pub pending_deletion: bool,
}

impl Inode {
    pub fn new(
        inode_number: u64,
        filesystem: VolumeId,
        inode_type: InodeType,
        size: u64,
        permissions: Permissions,
        timestamps: Timestamps,
        link_count: u32,
    ) -> (r: Self)
        ensures
            r == (Inode {
                inode_number,
                filesystem,
                inode_type,
                size,
                permissions,
                timestamps,
                link_count,
                mount_flag: false,
                dirty: false,
                pending_deletion: false,
            }),
    {
        Inode {
            inode_number,
            filesystem,
            inode_type,
            size,
            permissions,
            timestamps,
            link_count,
            mount_flag: false,
            dirty: false,
            pending_deletion: false,
        }
    }

    /// Checks if this inode is a regular file.
    pub fn is_file(&self) -> (r: bool)
        ensures
            r == (self.inode_type is File),
    {
        matches!(self.inode_type, InodeType::File)
    }

    /// Checks if this inode is a directory.
    pub fn is_directory(&self) -> (r: bool)
        ensures
            r == (self.inode_type is Directory),
    {
        matches!(self.inode_type, InodeType::Directory)
    }

    /// Checks if this inode is a symbolic link.
    pub fn is_symlink(&self) -> (r: bool)
        ensures
            r == (self.inode_type is Symlink),
    {
        matches!(self.inode_type, InodeType::Symlink)
    }

    /// Checks if a volume is mounted on this inode.
    pub fn is_mount_point(&self) -> (r: bool)
        ensures
            r == self.mount_flag,
    {
        self.mount_flag
    }

    /// Checks if this inode has changes that were not written out.
    pub fn is_dirty(&self) -> (r: bool)
        ensures
            r == self.dirty,
    {
        self.dirty
    }

    /// Checks if this inode waits for its last handle to close.
    pub fn is_pending_deletion(&self) -> (r: bool)
        ensures
            r == self.pending_deletion,
    {
        self.pending_deletion
    }

    /// What [`Inode::stat`] reports.
    pub open spec fn stat_of(&self) -> InodeStat {
        InodeStat {
            inode_number: self.inode_number,
            inode_type: self.inode_type,
            size: self.size,
            permissions: self.permissions,
            timestamps: self.timestamps,
            link_count: self.link_count,
        }
    }

    /// Takes a snapshot of the metadata.
    pub fn stat(&self) -> (r: InodeStat)
        ensures
            r == self.stat_of(),
    {
        InodeStat {
            inode_number: self.inode_number,
            inode_type: self.inode_type,
            size: self.size,
            permissions: self.permissions,
            timestamps: self.timestamps,
            link_count: self.link_count,
        }
    }

    /// The record of an inode that a driver handed out, as the file system
    /// keeps it: it belongs to the driver's volume, and nothing is mounted on
    /// it.
    pub open spec fn adopted(self, volume: VolumeId) -> Inode {
        Inode { filesystem: volume, mount_flag: false, ..self }
    }

    pub fn adopt(self, volume: VolumeId) -> (r: Inode)
        ensures
            r == self.adopted(volume),
    {
        Inode {
            inode_number: self.inode_number,
            filesystem: volume,
            inode_type: self.inode_type,
            size: self.size,
            permissions: self.permissions,
            timestamps: self.timestamps,
            link_count: self.link_count,
            mount_flag: false,
            dirty: self.dirty,
            pending_deletion: self.pending_deletion,
        }
    }
}

/// A named reference from a directory to an inode.
pub struct DirectoryEntry {
    /// The name within the directory.
    pub name: String,
    /// The number of the inode within its volume.
    pub inode_number: u64,
    pub entry_type: DirectoryEntryType,
    /// The inode, once it has been loaded.
    pub inode: Option<InodeId>,
}

/// A directory entry as a value.
pub struct EntryModel {
    pub name: Seq<char>,
    pub inode_number: u64,
    pub entry_type: DirectoryEntryType,
    pub inode: Option<InodeId>,
}

impl View for DirectoryEntry {
    type V = EntryModel;

    open spec fn view(&self) -> EntryModel {
        EntryModel {
            name: self.name@,
            inode_number: self.inode_number,
            entry_type: self.entry_type,
            inode: self.inode,
        }
    }
}

/// The entries of a list, as values.
pub open spec fn entry_models(list: Seq<DirectoryEntry>) -> Seq<EntryModel> {
    Seq::new(list.len(), |i: int| list[i]@)
}

/// A record is that of the inode with this number, which is no directory.
pub open spec fn is_record_of(inode: Inode, volume: VolumeId, inode_number: u64) -> bool {
    inode.filesystem == volume && inode.inode_number == inode_number && !(inode.inode_type
        is Directory)
}

/// The record in memory for the inode of an entry that is not loaded. All names
/// of a file share one record. A number can be given anew when its inode has
/// been freed, so the latest record counts. Directories have one name each.
pub open spec fn shared_record(
    inodes: Seq<Inode>,
    volume: VolumeId,
    inode_number: u64,
    entry_type: DirectoryEntryType,
) -> Option<InodeId>
    decreases inodes.len(),
{
    if entry_type is Directory || inodes.len() == 0 {
        None
    } else if is_record_of(inodes.last(), volume, inode_number) {
        Some((inodes.len() - 1) as InodeId)
    } else {
        shared_record(inodes.drop_last(), volume, inode_number, entry_type)
    }
}

pub proof fn lemma_shared_record(
    inodes: Seq<Inode>,
    volume: VolumeId,
    inode_number: u64,
    entry_type: DirectoryEntryType,
)
    requires
        inodes.len() <= usize::MAX,
    ensures
        match shared_record(inodes, volume, inode_number, entry_type) {
            Some(k) => !(entry_type is Directory) && k < inodes.len() && is_record_of(
                inodes[k as int],
                volume,
                inode_number,
            ),
            None => entry_type is Directory || forall|k: int|
                0 <= k < inodes.len() ==> !is_record_of(
                    #[trigger] inodes[k],
                    volume,
                    inode_number,
                ),
        },
    decreases inodes.len(),
{
    if !(entry_type is Directory) && inodes.len() > 0 && !is_record_of(
        inodes.last(),
        volume,
        inode_number,
    ) {
        lemma_shared_record(inodes.drop_last(), volume, inode_number, entry_type);
        assert forall|k: int|
            0 <= k < inodes.len() && shared_record(inodes, volume, inode_number, entry_type)
                is None implies !is_record_of(#[trigger] inodes[k], volume, inode_number) by {
            if k < inodes.len() - 1 {
                assert(inodes.drop_last()[k] == inodes[k]);
            }
        }
    }
}

/// What more records share, fewer do too, if they have it.
pub proof fn lemma_shared_prefix(
    a: Seq<Inode>,
    b: Seq<Inode>,
    volume: VolumeId,
    inode_number: u64,
    entry_type: DirectoryEntryType,
)
    requires
        a.is_prefix_of(b),
        b.len() <= usize::MAX,
    ensures
        match shared_record(b, volume, inode_number, entry_type) {
            Some(k) => k < a.len() ==> shared_record(a, volume, inode_number, entry_type) == Some(
                k,
            ),
            None => shared_record(a, volume, inode_number, entry_type) is None,
        },
    decreases b.len(),
{
    if a.len() == b.len() {
        assert(a =~= b);
    } else if !(entry_type is Directory) {
        assert(a.is_prefix_of(b.drop_last())) by {
            assert(b.drop_last().subrange(0, a.len() as int) =~= b.subrange(0, a.len() as int));
        }
        if !is_record_of(b.last(), volume, inode_number) {
            lemma_shared_prefix(a, b.drop_last(), volume, inode_number, entry_type);
        }
    }
}

/// What loading the inode of an entry comes to: it is loaded already, or it is
/// in memory for another name, or the driver decides.
pub open spec fn loads_entry(
    entry: EntryModel,
    after: EntryModel,
    inodes: Seq<Inode>,
    inodes_after: Seq<Inode>,
    volume: VolumeId,
    history: Seq<DriverCall>,
    history_after: Seq<DriverCall>,
    r: Result<InodeId, FileSystemError>,
) -> bool {
    let known = match entry.inode {
        Some(id) => Some(id),
        None => shared_record(inodes, volume, entry.inode_number, entry.entry_type),
    };
    match known {
        Some(id) => {
            &&& r == Ok::<InodeId, FileSystemError>(id)
            &&& after == (EntryModel { inode: Some(id), ..entry })
            &&& inodes_after == inodes
            &&& history_after == history
        },
        None => {
            let call = history_after.last();
            &&& history_after == history.push(call)
            &&& call matches DriverCall::LoadInode { inode_number, reply } && inode_number
                == entry.inode_number && match reply {
                Ok(record) => {
                    let id = inodes.len() as InodeId;
                    &&& r == Ok::<InodeId, FileSystemError>(id)
                    &&& after == (EntryModel { inode: Some(id), ..entry })
                    &&& inodes_after == inodes.push(record.adopted(volume))
                },
                Err(e) => {
                    &&& r == Err::<InodeId, FileSystemError>(e)
                    &&& after == entry
                    &&& inodes_after == inodes
                },
            }
        },
    }
}

/// Finds the record in memory for the inode of an entry.
pub fn find_record(
    inodes: &Vec<Inode>,
    volume: VolumeId,
    inode_number: u64,
    entry_type: DirectoryEntryType,
) -> (r: Option<InodeId>)
    ensures
        r == shared_record(inodes@, volume, inode_number, entry_type),
{
    if matches!(entry_type, DirectoryEntryType::Directory) {
        return None;
    }
    let mut n: usize = inodes.len();
    assert(inodes@.take(n as int) =~= inodes@);
    while n > 0
        invariant
            n <= inodes@.len(),
            !(entry_type is Directory),
            shared_record(inodes@, volume, inode_number, entry_type) == shared_record(
                inodes@.take(n as int),
                volume,
                inode_number,
                entry_type,
            ),
        decreases n,
    {
        let inode: Inode = inodes[n - 1];
        assert(inodes@.take(n as int).drop_last() =~= inodes@.take(n - 1));
        if inode.filesystem == volume && inode.inode_number == inode_number
            && !inode.is_directory() {
            return Some(n - 1);
        }
        n = n - 1;
    }
    None
}

impl DirectoryEntry {
    /// An entry whose inode has not been loaded.
    pub fn new(name: String, inode_number: u64, entry_type: DirectoryEntryType) -> (r: Self)
        ensures
            r@ == (EntryModel { name: name@, inode_number, entry_type, inode: None }),
    {
        DirectoryEntry { name, inode_number, entry_type, inode: None }
    }

    /// An entry whose inode is at hand.
    pub fn with_inode(
        name: String,
        inode_number: u64,
        entry_type: DirectoryEntryType,
        inode: InodeId,
    ) -> (r: Self)
        ensures
            r@ == (EntryModel { name: name@, inode_number, entry_type, inode: Some(inode) }),
    {
        DirectoryEntry { name, inode_number, entry_type, inode: Some(inode) }
    }

    /// Checks if the inode has been loaded.
    pub fn is_loaded(&self) -> (r: bool)
        ensures
            r == (self@.inode is Some),
    {
        self.inode.is_some()
    }

    /// Gives the entry's inode. The first time, the driver is asked for it and
    /// it is added to the table of inodes, unless the table has it for another
    /// name; later calls answer from memory.
    pub fn load_inode(
        &mut self,
        inodes: &mut Vec<Inode>,
        volume: VolumeId,
        filesystem: &mut Box<dyn FileSystemInstance>,
    ) -> (r: Result<InodeId, FileSystemError>)
        ensures
            loads_entry(
                old(self)@,
                final(self)@,
                old(inodes)@,
                final(inodes)@,
                volume,
                old(filesystem).history(),
                final(filesystem).history(),
                r,
            ),
    {
        if let Some(cached) = self.inode {
            return Ok(cached);
        }
        if let Some(id) = find_record(inodes, volume, self.inode_number, self.entry_type) {
            self.inode = Some(id);
            return Ok(id);
        }
        match filesystem.load_inode(self.inode_number) {
            Ok(loaded) => {
                let id: InodeId = inodes.len();
                inodes.push(loaded.adopt(volume));
                self.inode = Some(id);
                Ok(id)
            },
            Err(e) => Err(e),
        }
    }
}

/// Two names of one inode that is no directory are loaded as one record, and
/// the driver is asked once: what one name does to the inode shows under the
/// other.
pub proof fn names_of_an_inode_share_its_record(
    first: EntryModel,
    second: EntryModel,
    first_after: EntryModel,
    second_after: EntryModel,
    inodes: Seq<Inode>,
    between: Seq<Inode>,
    inodes_after: Seq<Inode>,
    volume: VolumeId,
    history: Seq<DriverCall>,
    asked: Seq<DriverCall>,
    history_after: Seq<DriverCall>,
    id: InodeId,
    r: Result<InodeId, FileSystemError>,
)
    requires
        first.inode is None,
        second.inode is None,
        second.inode_number == first.inode_number,
        !(first.entry_type is Directory),
        !(second.entry_type is Directory),
        inodes.len() <= usize::MAX,
        loads_entry(first, first_after, inodes, between, volume, history, asked, Ok(id)),
        is_record_of(between[id as int], volume, first.inode_number),
        loads_entry(second, second_after, between, inodes_after, volume, asked, history_after, r),
    ensures
        r == Ok::<InodeId, FileSystemError>(id),
        second_after.inode == first_after.inode,
        inodes_after == between,
        history_after == asked,
{
    lemma_same_kind_shared(inodes, volume, first.inode_number, first.entry_type, second.entry_type);
}

proof fn lemma_same_kind_shared(
    inodes: Seq<Inode>,
    volume: VolumeId,
    inode_number: u64,
    a: DirectoryEntryType,
    b: DirectoryEntryType,
)
    requires
        !(a is Directory),
        !(b is Directory),
    ensures
        shared_record(inodes, volume, inode_number, a) == shared_record(
            inodes,
            volume,
            inode_number,
            b,
        ),
    decreases inodes.len(),
{
    if inodes.len() > 0 {
        lemma_same_kind_shared(inodes.drop_last(), volume, inode_number, a, b);
    }
}

} // verus!

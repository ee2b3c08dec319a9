//! The tree of directories, and how it grows as drivers are asked.

use vstd::prelude::*;

use super::directory::{
    child_index, has_child, lemma_child_index, lemma_child_index_is, listed, unloaded, Directory,
    DirectoryId, DirectoryModel,
};
use super::driver::{text_reply, DriverCall, Instance};
use super::inode::{
    is_record_of, lemma_shared_prefix, lemma_shared_record, shared_record, EntryModel, Inode,
    InodeId, VolumeId,
};
use super::types::{DirectoryEntryType, FileSystemError};

verus! {

/// A volume that is, or was, part of the namespace.
pub struct Volume {
    /// Tells the volume from all others.
    pub filesystem_id: u64,
    pub instance: Instance,
}

/// All inodes, directories and volumes that are in memory.
pub struct Namespace {
    pub inodes: Vec<Inode>,
    pub directories: Vec<Directory>,
    pub volumes: Vec<Volume>,
    pub root: DirectoryId,
}

/// The namespace as a value. Of a volume it shows the identifier and the
/// history of its driver.
#[verifier::ext_equal]
pub struct NamespaceModel {
    pub inodes: Seq<Inode>,
    pub directories: Seq<DirectoryModel>,
    pub histories: Seq<Seq<DriverCall>>,
    pub ids: Seq<u64>,
    pub root: DirectoryId,
}

impl View for Namespace {
    type V = NamespaceModel;

    open spec fn view(&self) -> NamespaceModel {
        NamespaceModel {
            inodes: self.inodes@,
            directories: Seq::new(self.directories@.len(), |i: int| self.directories@[i]@),
            histories: Seq::new(
                self.volumes@.len(),
                |i: int| self.volumes@[i].instance.filesystem.history(),
            ),
            ids: Seq::new(self.volumes@.len(), |i: int| self.volumes@[i].filesystem_id),
            root: self.root,
        }
    }
}

impl NamespaceModel {
    /// `d` is a directory.
    pub open spec fn is_dir(self, d: DirectoryId) -> bool {
        d < self.directories.len()
    }

    /// The inode of a directory.
    pub open spec fn inode_of(self, d: DirectoryId) -> Inode {
        self.inodes[self.directories[d as int].inode as int]
    }

    /// The volume of a directory.
    pub open spec fn volume_of(self, d: DirectoryId) -> VolumeId {
        self.inode_of(d).filesystem
    }

    /// Where `..` leads: the directory above, and from the root to the root.
    /// Above the root of a mounted volume is the directory it is mounted on.
    pub open spec fn up(self, d: DirectoryId) -> DirectoryId {
        match self.directories[d as int].parent {
            Some(parent) => parent,
            None => d,
        }
    }

    /// Where the path to a directory leads: to the root of the volume that is
    /// mounted there, if there is one.
    pub open spec fn enter(self, d: DirectoryId) -> DirectoryId {
        match self.directories[d as int].mount_root {
            Some(mounted) => mounted,
            None => d,
        }
    }

    /// The directory that a volume rooted at `d` is mounted on, or else `d`.
    pub open spec fn host(self, d: DirectoryId) -> DirectoryId {
        match self.directories[d as int].parent {
            Some(parent) => if self.directories[parent as int].mount_root == Some(d) {
                parent
            } else {
                d
            },
            None => d,
        }
    }

    /// The loaded inodes of a listing belong to the volume.
    pub open spec fn entries_wf(self, volume: VolumeId, list: Seq<EntryModel>) -> bool {
        forall|i: int|
            0 <= i < list.len() ==> ((#[trigger] list[i]).inode matches Some(id) ==> id
                < self.inodes.len() && self.inodes[id as int].filesystem == volume)
    }

    /// There is a directory for the inode.
    pub open spec fn has_dir(self, id: InodeId) -> bool {
        exists|d: DirectoryId| #[trigger] self.is_dir(d) && self.directories[d as int].inode == id
    }

    /// Entry `i` of directory `x` is loaded as `id`, and stands for a directory.
    pub open spec fn lists_directory(self, x: DirectoryId, i: int, id: InodeId) -> bool {
        &&& self.is_dir(x)
        &&& self.directories[x as int].children matches Some(list) && 0 <= i < list.len()
            && list[i].inode == Some(id) && (list[i].entry_type is Directory
            || self.inodes[id as int].inode_type is Directory)
    }

    /// A directory is listed in one place, and lies below the directory that
    /// lists it: `..` leads back. It is not the root of a volume that is
    /// mounted there.
    #[verifier::opaque]
    pub open spec fn tree_wf(self) -> bool {
        &&& forall|x: DirectoryId, i: int, y: DirectoryId, j: int, id: InodeId|
            #[trigger] self.lists_directory(x, i, id) && #[trigger] self.lists_directory(y, j, id)
                ==> x == y && i == j
        &&& forall|x: DirectoryId, i: int, id: InodeId, c: DirectoryId|
            #[trigger] self.lists_directory(x, i, id) && #[trigger] self.is_dir(c)
                && self.directories[c as int].inode == id ==> self.directories[c as int].parent
                == Some(x) && self.directories[x as int].mount_root != Some(c)
    }

    /// What holds of one directory.
    pub open spec fn dir_wf(self, d: DirectoryId) -> bool {
        let dir = self.directories[d as int];
        &&& dir.inode < self.inodes.len()
        &&& dir.parent is None <==> d == self.root
        &&& dir.parent matches Some(parent) ==> self.is_dir(parent)
        &&& dir.mount_root matches Some(mounted) ==> self.is_dir(mounted) && mounted != d
            && self.directories[mounted as int].parent == Some(d)
        &&& self.inodes[dir.inode as int].mount_flag <==> dir.mount_root is Some
        &&& dir.children matches Some(list) ==> self.entries_wf(self.volume_of(d), list)
    }

    /// The invariant: the indices lead somewhere, only the root has nothing
    /// above it, each inode has one directory at most, a directory lies below
    /// the one that lists it, and a directory's inode is flagged if, and only
    /// if, a volume is mounted on the directory.
    pub open spec fn wf(self) -> bool {
        &&& self.tree_wf()
        &&& self.is_dir(self.root)
        &&& self.directories.len() <= usize::MAX
        &&& self.inodes.len() <= usize::MAX
        &&& self.histories.len() == self.ids.len()
        &&& forall|i: int|
            0 <= i < self.inodes.len() ==> (#[trigger] self.inodes[i]).filesystem
                < self.histories.len()
        &&& forall|id: InodeId|
            id < self.inodes.len() && (#[trigger] self.inodes[id as int]).mount_flag
                ==> self.has_dir(id)
        &&& forall|d: DirectoryId| #[trigger] self.is_dir(d) ==> self.dir_wf(d)
        &&& forall|a: DirectoryId, b: DirectoryId|
            #[trigger] self.is_dir(a) && #[trigger] self.is_dir(b) && self.directories[a as int].inode
                == self.directories[b as int].inode ==> a == b
    }

    /// The namespace with another listing of one directory.
    pub open spec fn with_children(self, d: DirectoryId, list: Seq<EntryModel>) -> NamespaceModel {
        NamespaceModel {
            directories: self.directories.update(
                d as int,
                self.directories[d as int].with_children(list),
            ),
            ..self
        }
    }

    /// The namespace after one more call of a volume's driver.
    pub open spec fn with_call(self, volume: VolumeId, call: DriverCall) -> NamespaceModel {
        NamespaceModel {
            histories: self.histories.update(
                volume as int,
                self.histories[volume as int].push(call),
            ),
            ..self
        }
    }

    /// The namespace with one inode changed.
    pub open spec fn with_inode(self, id: InodeId, inode: Inode) -> NamespaceModel {
        NamespaceModel { inodes: self.inodes.update(id as int, inode), ..self }
    }
}

/// Between `o` and `s` a volume's driver was called as `call` says.
pub open spec fn asked(
    o: NamespaceModel,
    s: NamespaceModel,
    volume: VolumeId,
    call: DriverCall,
) -> bool {
    exists|k: int|
        o.histories[volume as int].len() <= k < s.histories[volume as int].len() && #[trigger]
            s.histories[volume as int][k] == call
}

/// Nothing new is listed, and the directories are where they were.
pub proof fn lemma_tree_kept(o: NamespaceModel, s: NamespaceModel)
    requires
        o.tree_wf(),
        forall|x: DirectoryId, i: int, id: InodeId| #[trigger]
            s.lists_directory(x, i, id) ==> o.lists_directory(x, i, id),
        forall|c: DirectoryId| #[trigger]
            s.is_dir(c) ==> {
                &&& o.is_dir(c)
                &&& s.directories[c as int].inode == o.directories[c as int].inode
                &&& s.directories[c as int].parent == o.directories[c as int].parent
                &&& s.directories[c as int].mount_root == o.directories[c as int].mount_root
                    || s.directories[c as int].mount_root is None
            },
    ensures
        s.tree_wf(),
{
    reveal(NamespaceModel::tree_wf);
    assert forall|x: DirectoryId, i: int, y: DirectoryId, j: int, id: InodeId|
        #[trigger] s.lists_directory(x, i, id) && #[trigger] s.lists_directory(
            y,
            j,
            id,
        ) implies x == y && i == j by {
        assert(o.lists_directory(x, i, id) && o.lists_directory(y, j, id));
    }
    assert forall|x: DirectoryId, i: int, id: InodeId, c: DirectoryId|
        #[trigger] s.lists_directory(x, i, id) && #[trigger] s.is_dir(c)
            && s.directories[c as int].inode == id implies s.directories[c as int].parent == Some(x)
        && s.directories[x as int].mount_root != Some(c) by {
        assert(o.lists_directory(x, i, id) && o.is_dir(c));
        assert(s.is_dir(x));
    }
}

/// An entry of `o` as it is in `s`: its inode may have been loaded since, or
/// found in memory.
pub open spec fn entry_grew(
    o: NamespaceModel,
    s: NamespaceModel,
    volume: VolumeId,
    before: EntryModel,
    after: EntryModel,
) -> bool {
    &&& after.name == before.name
    &&& after.inode_number == before.inode_number
    &&& after.entry_type == before.entry_type
    &&& match before.inode {
        Some(id) => after.inode == Some(id),
        None => after.inode matches Some(id) ==> {
            let known = shared_record(
                o.inodes,
                volume,
                before.inode_number,
                before.entry_type,
            );
            &&& id < s.inodes.len()
            &&& if id < o.inodes.len() {
                known == Some(id)
            } else {
                ||| !(before.entry_type is Directory) && is_record_of(
                    s.inodes[id as int],
                    volume,
                    before.inode_number,
                )
                ||| known is None && exists|record: Inode|
                    s.inodes[id as int] == record.adopted(volume) && #[trigger] asked(
                        o,
                        s,
                        volume,
                        DriverCall::LoadInode {
                            inode_number: before.inode_number,
                            reply: Ok(record),
                        },
                    )
            }
        },
    }
}

/// A listing of `o` as it is in `s`.
pub open spec fn list_grew(
    o: NamespaceModel,
    s: NamespaceModel,
    volume: VolumeId,
    before: Seq<EntryModel>,
    after: Seq<EntryModel>,
) -> bool {
    &&& before.len() == after.len()
    &&& forall|i: int|
        0 <= i < after.len() ==> entry_grew(o, s, volume, before[i], #[trigger] after[i])
}

/// The listing of a directory as it is in `s`, if it was `before` in `o`. A
/// listing that is new came from the driver.
pub open spec fn children_grew(
    o: NamespaceModel,
    s: NamespaceModel,
    d: DirectoryId,
    before: Option<Seq<EntryModel>>,
) -> bool {
    match s.directories[d as int].children {
        None => before is None,
        Some(after) => match before {
            Some(list) => list_grew(o, s, s.volume_of(d), list, after),
            None => exists|list: Seq<EntryModel>|
                list_grew(o, s, s.volume_of(d), unloaded(list), after) && #[trigger] asked(
                    o,
                    s,
                    s.volume_of(d),
                    DriverCall::ReadDir { directory: s.inode_of(d), reply: Ok(list) },
                ),
        },
    }
}

/// A directory of `o` is still the same directory in `s`.
pub open spec fn dir_grew(o: NamespaceModel, s: NamespaceModel, d: DirectoryId) -> bool {
    &&& s.directories[d as int].inode == o.directories[d as int].inode
    &&& s.directories[d as int].parent == o.directories[d as int].parent
    &&& s.directories[d as int].mount_root == o.directories[d as int].mount_root
    &&& children_grew(o, s, d, o.directories[d as int].children)
}

/// Directory `d` stands for an entry of directory `parent`.
pub open spec fn stands_for_entry(
    s: NamespaceModel,
    d: DirectoryId,
    parent: DirectoryId,
) -> bool {
    &&& s.is_dir(parent)
    &&& s.directories[parent as int].children matches Some(list) && exists|i: int|
        0 <= i < list.len() && (#[trigger] list[i]).inode == Some(s.directories[d as int].inode)
            && list[i].entry_type is Directory
}

/// A directory that is new in `s` stands for an entry of the directory above.
pub open spec fn dir_new(o: NamespaceModel, s: NamespaceModel, d: DirectoryId) -> bool {
    &&& s.directories[d as int].mount_root is None
    &&& s.directories[d as int].parent is Some
    &&& stands_for_entry(s, d, s.directories[d as int].parent->0)
    &&& children_grew(o, s, d, None)
}

/// Entry `i` of a directory has the number, and its inode was not in memory in
/// `o`, under this name or another.
pub open spec fn entry_missing(
    o: NamespaceModel,
    s: NamespaceModel,
    d: DirectoryId,
    i: int,
    inode_number: u64,
) -> bool {
    &&& s.is_dir(d)
    &&& s.directories[d as int].children matches Some(list) && 0 <= i < list.len()
        && list[i].inode_number == inode_number && shared_record(
        o.inodes,
        s.volume_of(d),
        inode_number,
        list[i].entry_type,
    ) is None
    &&& o.is_dir(d) ==> (o.directories[d as int].children matches Some(list) ==> i < list.len()
        && list[i].inode is None)
}

/// A call asks a driver for something that was not in memory in `o`: for the
/// entries of a directory, or the inode of an entry. The targets of symlinks
/// are never in memory. Nothing else is asked, and nothing is changed.
pub open spec fn was_missing(
    o: NamespaceModel,
    s: NamespaceModel,
    volume: VolumeId,
    call: DriverCall,
) -> bool {
    match call {
        DriverCall::ReadDir { directory, .. } => exists|d: DirectoryId| #[trigger]
            s.is_dir(d) && s.inode_of(d) == directory && s.volume_of(d) == volume && (o.is_dir(d)
                ==> o.directories[d as int].children is None),
        DriverCall::LoadInode { inode_number, .. } => exists|d: DirectoryId, i: int|
            #[trigger] entry_missing(o, s, d, i, inode_number) && s.volume_of(d) == volume,
        DriverCall::ReadSymlink { inode, .. } => exists|id: InodeId|
            id < s.inodes.len() && #[trigger] s.inodes[id as int] == inode && inode.filesystem
                == volume,
        _ => false,
    }
}

/// Between `o` and `s` drivers were asked for what was not in memory, and for
/// nothing else.
#[verifier::opaque]
pub open spec fn asked_for_missing(o: NamespaceModel, s: NamespaceModel) -> bool {
    forall|v: int, k: int|
        0 <= v < o.histories.len() && o.histories[v].len() <= k < s.histories[v].len()
            ==> was_missing(o, s, v as VolumeId, #[trigger] s.histories[v][k])
}

/// From `o` to `s` the namespace has at most grown by what drivers answered:
/// listings that were not loaded, inodes of entries, and the directories that
/// stand for such entries.
pub open spec fn grew(o: NamespaceModel, s: NamespaceModel) -> bool {
    &&& asked_for_missing(o, s)
    &&& s.root == o.root
    &&& s.ids == o.ids
    &&& s.histories.len() == o.histories.len()
    &&& forall|v: int|
        0 <= v < o.histories.len() ==> (#[trigger] o.histories[v]).is_prefix_of(s.histories[v])
    &&& o.inodes.is_prefix_of(s.inodes)
    &&& o.directories.len() <= s.directories.len()
    &&& forall|d: DirectoryId| #[trigger] s.is_dir(d) ==> if o.is_dir(d) {
        dir_grew(o, s, d)
    } else {
        dir_new(o, s, d)
    }
}

proof fn lemma_list_refl(s: NamespaceModel, volume: VolumeId, list: Seq<EntryModel>)
    requires
        s.entries_wf(volume, list),
    ensures
        list_grew(s, s, volume, list, list),
{
    assert forall|i: int| 0 <= i < list.len() implies entry_grew(
        s,
        s,
        volume,
        list[i],
        #[trigger] list[i],
    ) by {}
}

pub proof fn grew_refl(s: NamespaceModel)
    requires
        s.wf(),
    ensures
        grew(s, s),
{
    reveal(asked_for_missing);
    assert forall|d: DirectoryId| #[trigger] s.is_dir(d) implies dir_grew(s, s, d) by {
        if let Some(list) = s.directories[d as int].children {
            lemma_list_refl(s, s.volume_of(d), list);
        }
    }
}

/// Later calls do not undo that a call was made.
pub proof fn lemma_asked_later(
    a: NamespaceModel,
    b: NamespaceModel,
    c: NamespaceModel,
    volume: VolumeId,
    call: DriverCall,
)
    requires
        a.histories.len() == b.histories.len() == c.histories.len(),
        volume < b.histories.len(),
        a.histories[volume as int].is_prefix_of(b.histories[volume as int]),
        b.histories[volume as int].is_prefix_of(c.histories[volume as int]),
    ensures
        asked(a, b, volume, call) ==> asked(a, c, volume, call),
        asked(b, c, volume, call) ==> asked(a, c, volume, call),
{
    if asked(a, b, volume, call) {
        let k = choose|k: int|
            a.histories[volume as int].len() <= k < b.histories[volume as int].len() && #[trigger]
                b.histories[volume as int][k] == call;
        assert(c.histories[volume as int][k] == call);
    }
    if asked(b, c, volume, call) {
        let k = choose|k: int|
            b.histories[volume as int].len() <= k < c.histories[volume as int].len() && #[trigger]
                c.histories[volume as int][k] == call;
        assert(c.histories[volume as int][k] == call);
    }
}

spec fn chained(a: NamespaceModel, b: NamespaceModel) -> bool {
    &&& b.histories.len() == a.histories.len()
    &&& forall|v: int|
        0 <= v < a.histories.len() ==> (#[trigger] a.histories[v]).is_prefix_of(b.histories[v])
    &&& a.inodes.is_prefix_of(b.inodes)
    &&& b.inodes.len() <= usize::MAX
}

proof fn lemma_entry_trans(
    a: NamespaceModel,
    b: NamespaceModel,
    c: NamespaceModel,
    volume: VolumeId,
    x: EntryModel,
    y: EntryModel,
    z: EntryModel,
)
    requires
        chained(a, b),
        chained(b, c),
        volume < a.histories.len(),
        entry_grew(a, b, volume, x, y),
        entry_grew(b, c, volume, y, z),
    ensures
        entry_grew(a, c, volume, x, z),
{
    assert(a.histories[volume as int].is_prefix_of(b.histories[volume as int]));
    assert(b.histories[volume as int].is_prefix_of(c.histories[volume as int]));
    lemma_shared_prefix(a.inodes, b.inodes, volume, x.inode_number, x.entry_type);
    lemma_shared_record(b.inodes, volume, x.inode_number, x.entry_type);
    if x.inode is None && z.inode is Some {
        let id = z.inode->0;
        let inode_number = x.inode_number;
        if y.inode is Some {
            assert(c.inodes[id as int] == b.inodes[id as int]);
            if exists|record: Inode|
                b.inodes[id as int] == record.adopted(volume) && #[trigger] asked(
                    a,
                    b,
                    volume,
                    DriverCall::LoadInode { inode_number, reply: Ok(record) },
                ) {
                let record = choose|record: Inode|
                    b.inodes[id as int] == record.adopted(volume) && #[trigger] asked(
                        a,
                        b,
                        volume,
                        DriverCall::LoadInode { inode_number, reply: Ok(record) },
                    );
                let call = DriverCall::LoadInode { inode_number, reply: Ok(record) };
                lemma_asked_later(a, b, c, volume, call);
                assert(asked(a, c, volume, call));
            }
        } else if id < b.inodes.len() {
            assert(c.inodes[id as int] == b.inodes[id as int]);
        } else if exists|record: Inode|
            c.inodes[id as int] == record.adopted(volume) && #[trigger] asked(
                b,
                c,
                volume,
                DriverCall::LoadInode { inode_number, reply: Ok(record) },
            ) {
            let record = choose|record: Inode|
                c.inodes[id as int] == record.adopted(volume) && #[trigger] asked(
                    b,
                    c,
                    volume,
                    DriverCall::LoadInode { inode_number, reply: Ok(record) },
                );
            let call = DriverCall::LoadInode { inode_number, reply: Ok(record) };
            lemma_asked_later(a, b, c, volume, call);
            assert(asked(a, c, volume, call));
        }
    }
}

proof fn lemma_list_trans(
    a: NamespaceModel,
    b: NamespaceModel,
    c: NamespaceModel,
    volume: VolumeId,
    x: Seq<EntryModel>,
    y: Seq<EntryModel>,
    z: Seq<EntryModel>,
)
    requires
        chained(a, b),
        chained(b, c),
        volume < a.histories.len(),
        list_grew(a, b, volume, x, y),
        list_grew(b, c, volume, y, z),
    ensures
        list_grew(a, c, volume, x, z),
{
    assert forall|i: int| 0 <= i < z.len() implies entry_grew(
        a,
        c,
        volume,
        x[i],
        #[trigger] z[i],
    ) by {
        assert(entry_grew(a, b, volume, x[i], y[i]));
        lemma_entry_trans(a, b, c, volume, x[i], y[i], z[i]);
    }
}

proof fn lemma_children_trans(
    a: NamespaceModel,
    b: NamespaceModel,
    c: NamespaceModel,
    d: DirectoryId,
    before: Option<Seq<EntryModel>>,
)
    requires
        chained(a, b),
        chained(b, c),
        b.is_dir(d),
        c.is_dir(d),
        b.directories[d as int].inode == c.directories[d as int].inode,
        b.directories[d as int].inode < b.inodes.len(),
        b.volume_of(d) < a.histories.len(),
        children_grew(a, b, d, before),
        children_grew(b, c, d, b.directories[d as int].children),
    ensures
        children_grew(a, c, d, before),
{
    let v = b.volume_of(d);
    assert(c.inode_of(d) == b.inode_of(d));
    assert(a.histories[v as int].is_prefix_of(b.histories[v as int]));
    assert(b.histories[v as int].is_prefix_of(c.histories[v as int]));
    if let Some(after) = c.directories[d as int].children {
        match b.directories[d as int].children {
            Some(middle) => {
                assert(list_grew(b, c, v, middle, after));
                match before {
                    Some(list) => {
                        lemma_list_trans(a, b, c, v, list, middle, after);
                    },
                    None => {
                        let list = choose|list: Seq<EntryModel>|
                            list_grew(a, b, v, unloaded(list), middle) && #[trigger] asked(
                                a,
                                b,
                                v,
                                DriverCall::ReadDir { directory: b.inode_of(d), reply: Ok(list) },
                            );
                        let call = DriverCall::ReadDir {
                            directory: b.inode_of(d),
                            reply: Ok(list),
                        };
                        lemma_asked_later(a, b, c, v, call);
                        lemma_list_trans(a, b, c, v, unloaded(list), middle, after);
                        assert(asked(a, c, v, call));
                    },
                }
            },
            None => {
                assert(before is None);
                let list = choose|list: Seq<EntryModel>|
                    list_grew(b, c, v, unloaded(list), after) && #[trigger] asked(
                        b,
                        c,
                        v,
                        DriverCall::ReadDir { directory: c.inode_of(d), reply: Ok(list) },
                    );
                let call = DriverCall::ReadDir { directory: c.inode_of(d), reply: Ok(list) };
                lemma_asked_later(a, b, c, v, call);
                let x = unloaded(list);
                assert forall|i: int| 0 <= i < after.len() implies entry_grew(
                    a,
                    c,
                    v,
                    x[i],
                    #[trigger] after[i],
                ) by {
                    assert(entry_grew(b, c, v, x[i], after[i]));
                    assert(entry_grew(a, b, v, x[i], x[i]));
                    lemma_entry_trans(a, b, c, v, x[i], x[i], after[i]);
                }
                assert(list_grew(a, c, v, x, after));
                assert(asked(a, c, v, call));
            },
        }
    }
}

/// What was missing at the beginning of a later stretch was missing before,
/// and it does not matter what follows.
proof fn lemma_missing_trans(
    a: NamespaceModel,
    b: NamespaceModel,
    c: NamespaceModel,
    volume: VolumeId,
    call: DriverCall,
)
    requires
        a.wf(),
        b.wf(),
        c.wf(),
        grew(a, b),
        grew(b, c),
    ensures
        was_missing(a, b, volume, call) ==> was_missing(a, c, volume, call),
        was_missing(b, c, volume, call) ==> was_missing(a, c, volume, call),
{
    match call {
        DriverCall::ReadDir { directory, .. } => {
            if was_missing(a, b, volume, call) {
                let d = choose|d: DirectoryId| #[trigger]
                    b.is_dir(d) && b.inode_of(d) == directory && b.volume_of(d) == volume && (
                    a.is_dir(d) ==> a.directories[d as int].children is None);
                assert(c.is_dir(d));
                assert(dir_grew(b, c, d));
                assert(b.dir_wf(d));
                assert(c.inode_of(d) == b.inode_of(d));
            }
            if was_missing(b, c, volume, call) {
                let d = choose|d: DirectoryId| #[trigger]
                    c.is_dir(d) && c.inode_of(d) == directory && c.volume_of(d) == volume && (
                    b.is_dir(d) ==> b.directories[d as int].children is None);
                if a.is_dir(d) {
                    assert(b.is_dir(d));
                    assert(dir_grew(a, b, d));
                }
                assert(c.is_dir(d));
            }
        },
        DriverCall::LoadInode { inode_number, .. } => {
            if was_missing(a, b, volume, call) {
                let (d, i) = choose|d: DirectoryId, i: int|
                    #[trigger] entry_missing(a, b, d, i, inode_number) && b.volume_of(d) == volume;
                assert(c.is_dir(d));
                assert(dir_grew(b, c, d));
                assert(b.dir_wf(d));
                assert(c.inode_of(d) == b.inode_of(d));
                let before = b.directories[d as int].children->0;
                let after = c.directories[d as int].children->0;
                assert(entry_grew(b, c, c.volume_of(d), before[i], after[i]));
                assert(entry_missing(a, c, d, i, inode_number));
            }
            if was_missing(b, c, volume, call) {
                let (d, i) = choose|d: DirectoryId, i: int|
                    #[trigger] entry_missing(b, c, d, i, inode_number) && c.volume_of(d) == volume;
                let list = c.directories[d as int].children->0;
                lemma_shared_prefix(
                    a.inodes,
                    b.inodes,
                    c.volume_of(d),
                    inode_number,
                    list[i].entry_type,
                );
                if a.is_dir(d) {
                    assert(b.is_dir(d));
                    assert(dir_grew(a, b, d));
                    if let Some(before) = a.directories[d as int].children {
                        let after = b.directories[d as int].children->0;
                        assert(entry_grew(a, b, b.volume_of(d), before[i], after[i]));
                    }
                }
                assert(entry_missing(a, c, d, i, inode_number));
            }
        },
        DriverCall::ReadSymlink { inode, .. } => {
            if was_missing(a, b, volume, call) {
                let id = choose|id: InodeId|
                    id < b.inodes.len() && #[trigger] b.inodes[id as int] == inode
                        && inode.filesystem == volume;
                assert(c.inodes[id as int] == inode);
            }
        },
        _ => {},
    }
}

/// Growing twice is growing.
pub proof fn grew_trans(a: NamespaceModel, b: NamespaceModel, c: NamespaceModel)
    requires
        a.wf(),
        b.wf(),
        c.wf(),
        grew(a, b),
        grew(b, c),
    ensures
        grew(a, c),
{
    assert(chained(a, b) && chained(b, c));
    assert forall|v: int| 0 <= v < a.histories.len() implies (
    #[trigger] a.histories[v]).is_prefix_of(c.histories[v]) by {
        assert(a.histories[v].is_prefix_of(b.histories[v]));
        assert(b.histories[v].is_prefix_of(c.histories[v]));
    }
    assert(asked_for_missing(a, c)) by {
        reveal(asked_for_missing);
        assert forall|v: int, k: int|
            0 <= v < a.histories.len() && a.histories[v].len() <= k
                < c.histories[v].len() implies was_missing(
            a,
            c,
            v as VolumeId,
            #[trigger] c.histories[v][k],
        ) by {
            let call = c.histories[v][k];
            assert(a.histories[v].is_prefix_of(b.histories[v]));
            assert(b.histories[v].is_prefix_of(c.histories[v]));
            if k < b.histories[v].len() {
                assert(b.histories[v][k] == call);
            }
            lemma_missing_trans(a, b, c, v as VolumeId, call);
        }
    }
    assert forall|d: DirectoryId| #[trigger] c.is_dir(d) implies if a.is_dir(d) {
        dir_grew(a, c, d)
    } else {
        dir_new(a, c, d)
    } by {
        if b.is_dir(d) {
            assert(dir_grew(b, c, d));
            assert(b.dir_wf(d));
            assert(b.inodes[b.directories[d as int].inode as int].filesystem < b.histories.len());
            if a.is_dir(d) {
                assert(dir_grew(a, b, d));
                lemma_children_trans(a, b, c, d, a.directories[d as int].children);
            } else {
                assert(dir_new(a, b, d));
                lemma_children_trans(a, b, c, d, None);
                let parent = b.directories[d as int].parent->0;
                let list = b.directories[parent as int].children->0;
                let i = choose|i: int|
                    0 <= i < list.len() && (#[trigger] list[i]).inode == Some(
                        b.directories[d as int].inode,
                    ) && list[i].entry_type is Directory;
                assert(dir_grew(b, c, parent));
                let after = c.directories[parent as int].children->0;
                assert(entry_grew(b, c, c.volume_of(parent), list[i], after[i]));
            }
        } else {
            assert(!a.is_dir(d));
            assert(dir_new(b, c, d));
            assert(c.dir_wf(d));
            let v = c.volume_of(d);
            assert(c.inodes[c.directories[d as int].inode as int].filesystem < c.histories.len());
            if let Some(after) = c.directories[d as int].children {
                let list = choose|list: Seq<EntryModel>|
                    list_grew(b, c, v, unloaded(list), after) && #[trigger] asked(
                        b,
                        c,
                        v,
                        DriverCall::ReadDir { directory: c.inode_of(d), reply: Ok(list) },
                    );
                let call = DriverCall::ReadDir { directory: c.inode_of(d), reply: Ok(list) };
                assert(a.histories[v as int].is_prefix_of(b.histories[v as int]));
                assert(b.histories[v as int].is_prefix_of(c.histories[v as int]));
                lemma_asked_later(a, b, c, v, call);
                let x = unloaded(list);
                assert forall|i: int| 0 <= i < after.len() implies entry_grew(
                    a,
                    c,
                    v,
                    x[i],
                    #[trigger] after[i],
                ) by {
                    assert(entry_grew(b, c, v, x[i], after[i]));
                    assert(entry_grew(a, b, v, x[i], x[i]));
                    lemma_entry_trans(a, b, c, v, x[i], x[i], after[i]);
                }
                assert(list_grew(a, c, v, x, after));
                assert(asked(a, c, v, call));
            }
        }
    }
}

/// What is left when the entries of a directory have been asked for.
spec fn after_listing(
    o: NamespaceModel,
    d: DirectoryId,
    reply: Result<Seq<EntryModel>, FileSystemError>,
) -> NamespaceModel {
    let asked = o.with_call(
        o.volume_of(d),
        DriverCall::ReadDir { directory: o.inode_of(d), reply },
    );
    match reply {
        Ok(list) => asked.with_children(d, unloaded(list)),
        Err(_) => asked,
    }
}

/// One more call that asks for something missing.
proof fn lemma_one_missing(
    o: NamespaceModel,
    s: NamespaceModel,
    volume: VolumeId,
    call: DriverCall,
)
    requires
        volume < o.histories.len(),
        s.histories == o.with_call(volume, call).histories,
        was_missing(o, s, volume, call),
    ensures
        asked_for_missing(o, s),
{
    reveal(asked_for_missing);
    assert forall|v: int, k: int|
        0 <= v < o.histories.len() && o.histories[v].len() <= k
            < s.histories[v].len() implies was_missing(
        o,
        s,
        v as VolumeId,
        #[trigger] s.histories[v][k],
    ) by {
        assert(v == volume);
        assert(s.histories[v][k] == call);
    }
}

proof fn lemma_called(o: NamespaceModel, volume: VolumeId, call: DriverCall)
    requires
        o.wf(),
        volume < o.histories.len(),
        was_missing(o, o.with_call(volume, call), volume, call),
    ensures
        o.with_call(volume, call).wf(),
        grew(o, o.with_call(volume, call)),
        asked(o, o.with_call(volume, call), volume, call),
{
    let s = o.with_call(volume, call);
    let n = o.histories[volume as int].len() as int;
    assert(s.histories[volume as int][n] == call);
    lemma_one_missing(o, s, volume, call);
    assert forall|x: DirectoryId, i: int, id: InodeId| #[trigger]
        s.lists_directory(x, i, id) implies o.lists_directory(x, i, id) by {}
    lemma_tree_kept(o, s);
    assert forall|d: DirectoryId| #[trigger] s.is_dir(d) implies s.dir_wf(d) by {
        assert(o.is_dir(d));
        assert(o.dir_wf(d));
    }
    assert forall|a: DirectoryId, b: DirectoryId|
        #[trigger] s.is_dir(a) && #[trigger] s.is_dir(b) && s.directories[a as int].inode
            == s.directories[b as int].inode implies a == b by {
        assert(o.is_dir(a) && o.is_dir(b));
    }
    assert forall|id: InodeId|
        id < s.inodes.len() && (#[trigger] s.inodes[id as int]).mount_flag implies s.has_dir(
        id,
    ) by {
        assert(o.inodes[id as int].mount_flag);
        let d = choose|d: DirectoryId| #[trigger]
            o.is_dir(d) && o.directories[d as int].inode == id;
        assert(s.is_dir(d));
    }
    assert forall|v: int| 0 <= v < o.histories.len() implies (
    #[trigger] o.histories[v]).is_prefix_of(s.histories[v]) by {}
    assert forall|d: DirectoryId| #[trigger] s.is_dir(d) implies o.is_dir(d) && dir_grew(
        o,
        s,
        d,
    ) by {
        assert(o.is_dir(d));
        assert(o.dir_wf(d));
        if let Some(list) = o.directories[d as int].children {
            assert forall|i: int| 0 <= i < list.len() implies entry_grew(
                o,
                s,
                s.volume_of(d),
                list[i],
                #[trigger] list[i],
            ) by {}
        }
    }
}

proof fn lemma_listed(
    o: NamespaceModel,
    d: DirectoryId,
    reply: Result<Seq<EntryModel>, FileSystemError>,
)
    requires
        o.wf(),
        o.is_dir(d),
        o.directories[d as int].children is None,
    ensures
        after_listing(o, d, reply).wf(),
        grew(o, after_listing(o, d, reply)),
        asked(
            o,
            after_listing(o, d, reply),
            o.volume_of(d),
            DriverCall::ReadDir { directory: o.inode_of(d), reply },
        ),
{
    let v = o.volume_of(d);
    let call = DriverCall::ReadDir { directory: o.inode_of(d), reply };
    assert(o.dir_wf(d));
    assert(o.inodes[o.directories[d as int].inode as int].filesystem < o.histories.len());
    assert(o.with_call(v, call).is_dir(d));
    assert(was_missing(o, o.with_call(v, call), v, call));
    lemma_called(o, v, call);
    if let Ok(list) = reply {
        let m = o.with_call(v, call);
        let s = m.with_children(d, unloaded(list));
        assert(after_listing(o, d, reply) == s);
        assert forall|x: DirectoryId, i: int, id: InodeId| #[trigger]
            s.lists_directory(x, i, id) implies m.lists_directory(x, i, id) by {
            assert(x != d);
        }
        lemma_tree_kept(m, s);
        lemma_same_shape(m, s, d);
        assert(s.is_dir(d) && s.inode_of(d) == o.inode_of(d));
        lemma_one_missing(o, s, v, call);
        let n = o.histories[v as int].len() as int;
        assert(s.histories[v as int][n] == call);
        assert(asked(o, s, v, call));
        assert forall|x: DirectoryId| #[trigger] s.is_dir(x) implies o.is_dir(x) && dir_grew(
            o,
            s,
            x,
        ) by {
            assert(m.is_dir(x));
            assert(dir_grew(o, m, x));
            if x == d {
                let fresh = unloaded(list);
                assert forall|i: int| 0 <= i < fresh.len() implies entry_grew(
                    o,
                    s,
                    v,
                    fresh[i],
                    #[trigger] fresh[i],
                ) by {}
                assert(list_grew(o, s, v, fresh, fresh));
            } else {
                assert(s.directories[x as int] == m.directories[x as int]);
                lemma_children_same(o, m, s, x, o.directories[x as int].children);
            }
        }
    }
}

/// A directory's growth is judged by its own entry, the inodes and the
/// histories alone.
proof fn lemma_children_same(
    o: NamespaceModel,
    m: NamespaceModel,
    s: NamespaceModel,
    d: DirectoryId,
    before: Option<Seq<EntryModel>>,
)
    requires
        s.inodes == m.inodes,
        s.histories == m.histories,
        s.directories[d as int] == m.directories[d as int],
        children_grew(o, m, d, before),
    ensures
        children_grew(o, s, d, before),
{
    let v = m.volume_of(d);
    assert(s.inode_of(d) == m.inode_of(d));
    assert(s.volume_of(d) == v);
    if let Some(after) = s.directories[d as int].children {
        match before {
            Some(list) => {
                assert forall|i: int| 0 <= i < after.len() implies entry_grew(
                    o,
                    s,
                    v,
                    list[i],
                    #[trigger] after[i],
                ) by {
                    lemma_entry_same(o, m, s, v, list[i], after[i]);
                }
                assert(list_grew(o, s, v, list, after));
            },
            None => {
                let list = choose|list: Seq<EntryModel>|
                    list_grew(o, m, v, unloaded(list), after) && #[trigger] asked(
                        o,
                        m,
                        v,
                        DriverCall::ReadDir { directory: m.inode_of(d), reply: Ok(list) },
                    );
                assert forall|i: int| 0 <= i < after.len() implies entry_grew(
                    o,
                    s,
                    v,
                    unloaded(list)[i],
                    #[trigger] after[i],
                ) by {
                    lemma_entry_same(o, m, s, v, unloaded(list)[i], after[i]);
                }
                assert(list_grew(o, s, v, unloaded(list), after));
                assert(asked(
                    o,
                    s,
                    v,
                    DriverCall::ReadDir { directory: s.inode_of(d), reply: Ok(list) },
                ));
            },
        }
    }
}

proof fn lemma_entry_same(
    o: NamespaceModel,
    m: NamespaceModel,
    s: NamespaceModel,
    volume: VolumeId,
    x: EntryModel,
    y: EntryModel,
)
    requires
        s.inodes == m.inodes,
        s.histories == m.histories,
        entry_grew(o, m, volume, x, y),
    ensures
        entry_grew(o, s, volume, x, y),
{
    if x.inode is None && y.inode is Some && exists|record: Inode|
        m.inodes[y.inode->0 as int] == record.adopted(volume) && #[trigger] asked(
            o,
            m,
            volume,
            DriverCall::LoadInode { inode_number: x.inode_number, reply: Ok(record) },
        ) {
        let record = choose|record: Inode|
            m.inodes[y.inode->0 as int] == record.adopted(volume) && #[trigger] asked(
                o,
                m,
                volume,
                DriverCall::LoadInode { inode_number: x.inode_number, reply: Ok(record) },
            );
        assert(asked(
            o,
            s,
            volume,
            DriverCall::LoadInode { inode_number: x.inode_number, reply: Ok(record) },
        ));
    }
}

/// Another listing of one directory keeps the invariant, if its inodes belong
/// to the directory's volume.
pub proof fn lemma_same_shape(m: NamespaceModel, s: NamespaceModel, d: DirectoryId)
    requires
        m.wf(),
        m.is_dir(d),
        s.directories[d as int].children is Some,
        s == m.with_children(d, s.directories[d as int].children->0),
        m.entries_wf(m.volume_of(d), s.directories[d as int].children->0),
        s.tree_wf(),
    ensures
        s.wf(),
{
    assert forall|x: DirectoryId| #[trigger] s.is_dir(x) implies s.dir_wf(x) by {
        assert(m.is_dir(x));
        assert(m.dir_wf(x));
        let dir = s.directories[x as int];
        if let Some(mounted) = dir.mount_root {
            assert(m.is_dir(mounted));
            assert(s.directories[mounted as int].parent == m.directories[mounted as int].parent);
        }
        if x != d {
            assert(dir == m.directories[x as int]);
        }
        if let Some(list) = dir.children {
            assert(m.entries_wf(m.volume_of(x), list));
            assert(s.entries_wf(s.volume_of(x), list));
        }
    }
    assert forall|a: DirectoryId, b: DirectoryId|
        #[trigger] s.is_dir(a) && #[trigger] s.is_dir(b) && s.directories[a as int].inode
            == s.directories[b as int].inode implies a == b by {
        assert(m.is_dir(a) && m.is_dir(b));
    }
    assert forall|id: InodeId|
        id < s.inodes.len() && (#[trigger] s.inodes[id as int]).mount_flag implies s.has_dir(
        id,
    ) by {
        assert(m.inodes[id as int].mount_flag);
        let x = choose|x: DirectoryId| #[trigger]
            m.is_dir(x) && m.directories[x as int].inode == id;
        assert(s.is_dir(x));
    }
}

/// A call of one driver shows in the namespace as one more call.
pub proof fn lemma_call_shows(
    before: Namespace,
    after: Namespace,
    volume: VolumeId,
    call: DriverCall,
)
    requires
        volume < before.volumes@.len(),
        after.inodes == before.inodes,
        after.directories == before.directories,
        after.root == before.root,
        after.volumes@ == before.volumes@.update(volume as int, after.volumes@[volume as int]),
        after.volumes@[volume as int].filesystem_id == before.volumes@[volume as int].filesystem_id,
        after.volumes@[volume as int].instance.filesystem.history()
            == before.volumes@[volume as int].instance.filesystem.history().push(call),
    ensures
        after@ == before@.with_call(volume, call),
{
    let s = before@.with_call(volume, call);
    assert(after@.directories =~= s.directories);
    assert(after@.histories =~= s.histories);
    assert(after@.ids =~= s.ids);
    assert(after@ =~= s);
}

/// `s` has the directories of `o` in the same places, the inodes of `o` with the
/// same volumes and mounts, and maybe more inodes.
pub open spec fn reshaped(o: NamespaceModel, s: NamespaceModel) -> bool {
    &&& s.tree_wf()
    &&& s.root == o.root
    &&& s.ids == o.ids
    &&& s.histories.len() == o.histories.len()
    &&& o.inodes.len() <= s.inodes.len() <= usize::MAX
    &&& forall|i: int|
        0 <= i < o.inodes.len() ==> (#[trigger] s.inodes[i]).filesystem == o.inodes[i].filesystem
            && s.inodes[i].mount_flag == o.inodes[i].mount_flag
    &&& forall|i: int|
        o.inodes.len() <= i < s.inodes.len() ==> (#[trigger] s.inodes[i]).filesystem
            < s.histories.len() && !s.inodes[i].mount_flag
    &&& s.directories.len() == o.directories.len()
    &&& forall|d: DirectoryId| #[trigger]
        s.is_dir(d) ==> {
            &&& s.directories[d as int].inode == o.directories[d as int].inode
            &&& s.directories[d as int].mount_root == o.directories[d as int].mount_root
            &&& s.directories[d as int].parent == o.directories[d as int].parent
            &&& s.directories[d as int].children matches Some(list) ==> s.entries_wf(
                s.volume_of(d),
                list,
            )
        }
}

pub proof fn lemma_reshaped_wf(o: NamespaceModel, s: NamespaceModel)
    requires
        o.wf(),
        reshaped(o, s),
    ensures
        s.wf(),
{
    assert forall|x: DirectoryId| #[trigger] s.is_dir(x) implies s.dir_wf(x) by {
        assert(o.is_dir(x));
        assert(o.dir_wf(x));
        let id = o.directories[x as int].inode;
        assert(s.inodes[id as int].mount_flag == o.inodes[id as int].mount_flag);
        if let Some(mounted) = o.directories[x as int].mount_root {
            assert(o.is_dir(mounted));
            assert(s.is_dir(mounted));
        }
    }
    assert forall|a: DirectoryId, b: DirectoryId|
        #[trigger] s.is_dir(a) && #[trigger] s.is_dir(b) && s.directories[a as int].inode
            == s.directories[b as int].inode implies a == b by {
        assert(o.is_dir(a) && o.is_dir(b));
    }
    assert forall|k: InodeId|
        k < s.inodes.len() && (#[trigger] s.inodes[k as int]).mount_flag implies s.has_dir(k) by {
        assert(k < o.inodes.len());
        assert(o.inodes[k as int].mount_flag);
        let x = choose|x: DirectoryId| #[trigger]
            o.is_dir(x) && o.directories[x as int].inode == k;
        assert(s.is_dir(x));
    }
    assert forall|k: int| 0 <= k < s.inodes.len() implies (#[trigger] s.inodes[k]).filesystem
        < s.histories.len() by {
        if k < o.inodes.len() {
            assert(o.inodes[k].filesystem < o.histories.len());
        }
    }
    assert(s.is_dir(s.root)) by {
        assert(o.is_dir(o.root));
    }
}

/// What is left when the inode of an entry has been asked for.
spec fn after_load(
    o: NamespaceModel,
    d: DirectoryId,
    i: int,
    reply: Result<Inode, FileSystemError>,
) -> NamespaceModel {
    let list = o.directories[d as int].children->0;
    let asked = o.with_call(
        o.volume_of(d),
        DriverCall::LoadInode { inode_number: list[i].inode_number, reply },
    );
    match reply {
        Ok(record) => NamespaceModel {
            inodes: o.inodes.push(record.adopted(o.volume_of(d))),
            ..asked.with_children(
                d,
                list.update(i, EntryModel { inode: Some(o.inodes.len() as usize), ..list[i] }),
            )
        },
        Err(_) => asked,
    }
}

/// The inode of an entry is found in memory, or added to it.
proof fn lemma_tree_loaded(
    o: NamespaceModel,
    s: NamespaceModel,
    d: DirectoryId,
    i: int,
    k: InodeId,
)
    requires
        o.wf(),
        o.is_dir(d),
        o.directories[d as int].children is Some,
        0 <= i < o.directories[d as int].children->0.len(),
        ({
            let list = o.directories[d as int].children->0;
            &&& s.directories == o.with_children(
                d,
                list.update(i, EntryModel { inode: Some(k), ..list[i] }),
            ).directories
            &&& o.inodes.is_prefix_of(s.inodes)
            &&& k < s.inodes.len()
            &&& k >= o.inodes.len() || !(list[i].entry_type is Directory
                || s.inodes[k as int].inode_type is Directory)
        }),
    ensures
        s.tree_wf(),
{
    reveal(NamespaceModel::tree_wf);
    let list = o.directories[d as int].children->0;
    assert forall|x: DirectoryId, j: int, id: InodeId| #[trigger]
        s.lists_directory(x, j, id) implies (x == d && j == i && id == k && k >= o.inodes.len())
        || (id < o.inodes.len() && o.lists_directory(x, j, id)) by {
        assert(o.is_dir(x));
        assert(o.dir_wf(x));
        if !(x == d && j == i) {
            let old_list = o.directories[x as int].children->0;
            assert(s.directories[x as int].children->0[j] == old_list[j]);
            assert(o.entries_wf(o.volume_of(x), old_list));
            assert(old_list[j].inode == Some(id));
            assert(s.inodes[id as int] == o.inodes[id as int]);
        }
    }
    assert forall|x: DirectoryId, a: int, id: InodeId, c: DirectoryId|
        #[trigger] s.lists_directory(x, a, id) && #[trigger] s.is_dir(c)
            && s.directories[c as int].inode == id implies s.directories[c as int].parent == Some(x)
        && s.directories[x as int].mount_root != Some(c) by {
        assert(o.is_dir(c));
        assert(o.dir_wf(c));
        assert(o.is_dir(x));
    }
}

/// What is left when the inode of an entry was found in memory.
spec fn after_share(o: NamespaceModel, d: DirectoryId, i: int, k: InodeId) -> NamespaceModel {
    let list = o.directories[d as int].children->0;
    o.with_children(d, list.update(i, EntryModel { inode: Some(k), ..list[i] }))
}

proof fn lemma_shared(o: NamespaceModel, d: DirectoryId, i: int, k: InodeId)
    requires
        o.wf(),
        o.is_dir(d),
        o.directories[d as int].children is Some,
        0 <= i < o.directories[d as int].children->0.len(),
        ({
            let entry = o.directories[d as int].children->0[i];
            entry.inode is None && shared_record(
                o.inodes,
                o.volume_of(d),
                entry.inode_number,
                entry.entry_type,
            ) == Some(k)
        }),
    ensures
        after_share(o, d, i, k).wf(),
        grew(o, after_share(o, d, i, k)),
{
    let s = after_share(o, d, i, k);
    let v = o.volume_of(d);
    let list = o.directories[d as int].children->0;
    let next = list.update(i, EntryModel { inode: Some(k), ..list[i] });
    assert(o.dir_wf(d));
    lemma_shared_record(o.inodes, v, list[i].inode_number, list[i].entry_type);
    lemma_tree_loaded(o, s, d, i, k);
    assert(o.entries_wf(v, next));
    lemma_same_shape(o, s, d);
    reveal(asked_for_missing);
    assert forall|x: DirectoryId| #[trigger] s.is_dir(x) implies dir_grew(o, s, x) by {
        assert(o.is_dir(x));
        assert(o.dir_wf(x));
        if let Some(before) = o.directories[x as int].children {
            let after = s.directories[x as int].children->0;
            assert forall|j: int| 0 <= j < after.len() implies entry_grew(
                o,
                s,
                s.volume_of(x),
                before[j],
                #[trigger] after[j],
            ) by {
                if !(x == d && j == i) {
                    assert(after[j] == before[j]);
                }
            }
        }
    }
}

proof fn lemma_inode_was_missing(
    o: NamespaceModel,
    s: NamespaceModel,
    d: DirectoryId,
    i: int,
    inode_number: u64,
    reply: Result<Inode, FileSystemError>,
)
    requires
        entry_missing(o, s, d, i, inode_number),
    ensures
        was_missing(o, s, s.volume_of(d), DriverCall::LoadInode { inode_number, reply }),
{
    let call = DriverCall::LoadInode { inode_number, reply };
    assert(call->LoadInode_inode_number == inode_number);
}

proof fn lemma_loaded(
    o: NamespaceModel,
    d: DirectoryId,
    i: int,
    reply: Result<Inode, FileSystemError>,
)
    requires
        o.wf(),
        o.is_dir(d),
        o.directories[d as int].children is Some,
        0 <= i < o.directories[d as int].children->0.len(),
        o.directories[d as int].children->0[i].inode is None,
        shared_record(
            o.inodes,
            o.volume_of(d),
            o.directories[d as int].children->0[i].inode_number,
            o.directories[d as int].children->0[i].entry_type,
        ) is None,
        reply is Ok ==> o.inodes.len() < usize::MAX,
    ensures
        after_load(o, d, i, reply).wf(),
        grew(o, after_load(o, d, i, reply)),
        asked(
            o,
            after_load(o, d, i, reply),
            o.volume_of(d),
            DriverCall::LoadInode {
                inode_number: o.directories[d as int].children->0[i].inode_number,
                reply,
            },
        ),
{
    let v = o.volume_of(d);
    let list = o.directories[d as int].children->0;
    let call = DriverCall::LoadInode { inode_number: list[i].inode_number, reply };
    assert(o.dir_wf(d));
    assert(o.inodes[o.directories[d as int].inode as int].filesystem < o.histories.len());
    let called = o.with_call(v, call);
    assert(called.volume_of(d) == v);
    assert(entry_missing(o, called, d, i, list[i].inode_number));
    lemma_inode_was_missing(o, called, d, i, list[i].inode_number, reply);
    lemma_called(o, v, call);
    if let Ok(record) = reply {
        let m = o.with_call(v, call);
        let s = after_load(o, d, i, reply);
        assert(s.inode_of(d) == o.inode_of(d));
        assert(s.volume_of(d) == v);
        assert(entry_missing(o, s, d, i, list[i].inode_number));
        lemma_inode_was_missing(o, s, d, i, list[i].inode_number, reply);
        assert(s.histories == called.histories);
        lemma_one_missing(o, s, v, call);
        let id = o.inodes.len() as usize;
        lemma_tree_loaded(o, s, d, i, id);
        let next = list.update(i, EntryModel { inode: Some(id), ..list[i] });
        let n = o.histories[v as int].len() as int;
        assert(s.histories[v as int][n] == call);
        assert(asked(o, s, v, call));
        assert forall|x: DirectoryId| #[trigger] s.is_dir(x) implies s.dir_wf(x) && dir_grew(
            o,
            s,
            x,
        ) by {
            assert(o.is_dir(x));
            assert(o.dir_wf(x));
            assert(s.inode_of(x) == o.inode_of(x));
            if let Some(mounted) = o.directories[x as int].mount_root {
                assert(o.is_dir(mounted));
                assert(s.directories[mounted as int].parent
                    == o.directories[mounted as int].parent);
            }
            if let Some(before) = o.directories[x as int].children {
                let after = s.directories[x as int].children->0;
                assert forall|j: int| 0 <= j < after.len() implies entry_grew(
                    o,
                    s,
                    s.volume_of(x),
                    before[j],
                    #[trigger] after[j],
                ) && (after[j].inode matches Some(k) ==> k < s.inodes.len()
                    && s.inodes[k as int].filesystem == s.volume_of(x)) by {
                    assert(before[j].inode matches Some(k) ==> k < o.inodes.len());
                    if x == d && j == i {
                        assert(s.inodes[id as int] == record.adopted(v));
                        assert(asked(
                            o,
                            s,
                            v,
                            DriverCall::LoadInode {
                                inode_number: before[j].inode_number,
                                reply: Ok(record),
                            },
                        ));
                    } else {
                        assert(after[j] == before[j]);
                    }
                }
            }
        }
        assert forall|a: DirectoryId, b: DirectoryId|
            #[trigger] s.is_dir(a) && #[trigger] s.is_dir(b) && s.directories[a as int].inode
                == s.directories[b as int].inode implies a == b by {
            assert(o.is_dir(a) && o.is_dir(b));
        }
        assert forall|k: InodeId|
            k < s.inodes.len() && (#[trigger] s.inodes[k as int]).mount_flag implies s.has_dir(
            k,
        ) by {
            assert(k < o.inodes.len());
            assert(o.inodes[k as int].mount_flag);
            let x = choose|x: DirectoryId| #[trigger]
                o.is_dir(x) && o.directories[x as int].inode == k;
            assert(s.is_dir(x));
        }
        assert forall|k: int| 0 <= k < s.inodes.len() implies (
        #[trigger] s.inodes[k]).filesystem < s.histories.len() by {
            if k < o.inodes.len() {
                assert(s.inodes[k] == o.inodes[k]);
            }
        }
        assert forall|w: int| 0 <= w < o.histories.len() implies (
        #[trigger] o.histories[w]).is_prefix_of(s.histories[w]) by {}
    }
}

impl Namespace {
    /// Sees to it that the entries of a directory are in memory.
    pub fn list_children(&mut self, d: DirectoryId) -> (r: Result<(), FileSystemError>)
        requires
            old(self)@.wf(),
            old(self)@.is_dir(d),
        ensures
            final(self)@.wf(),
            grew(old(self)@, final(self)@),
            final(self)@.inodes == old(self)@.inodes,
            final(self)@.is_dir(d),
            match r {
                Ok(_) => final(self)@.directories[d as int].children is Some,
                Err(e) => final(self)@.directories[d as int].children is None && asked(
                    old(self)@,
                    final(self)@,
                    final(self)@.volume_of(d),
                    DriverCall::ReadDir { directory: final(self)@.inode_of(d), reply: Err(e) },
                ),
            },
    {
        let ghost o = self@;
        assert(o.dir_wf(d));
        let inode: Inode = self.inodes[self.directories[d].inode];
        let v: VolumeId = inode.filesystem;
        assert(o.inodes[o.directories[d as int].inode as int].filesystem < o.histories.len());
        let loaded = self.directories[d].ensure_children_loaded(
            &inode,
            &mut self.volumes[v].instance.filesystem,
        );
        let r = match loaded {
            Ok(_) => Ok(()),
            Err(e) => Err(e),
        };
        proof {
            let dir = o.directories[d as int];
            let later = self@.histories[v as int];
            assert(listed(dir, inode, o.histories[v as int], later));
            if dir.children is Some {
                assert(self@ =~= o) by {
                    assert(self@.directories =~= o.directories);
                    assert(self@.histories =~= o.histories);
                    assert(self@.ids =~= o.ids);
                }
                grew_refl(o);
            } else {
                let reply = later.last()->ReadDir_reply;
                lemma_listed(o, d, reply);
                assert(self@ =~= after_listing(o, d, reply)) by {
                    let s = after_listing(o, d, reply);
                    assert(self@.directories =~= s.directories);
                    assert(self@.histories =~= s.histories);
                    assert(self@.ids =~= s.ids);
                }
            }
        }
        r
    }

    /// Sees to it that the inode of an entry is in memory.
    fn load_entry(&mut self, d: DirectoryId, i: usize) -> (r: Result<InodeId, FileSystemError>)
        requires
            old(self)@.wf(),
            old(self)@.is_dir(d),
            old(self)@.directories[d as int].children matches Some(list) && i < list.len(),
        ensures
            final(self)@.wf(),
            grew(old(self)@, final(self)@),
            final(self)@.is_dir(d),
            final(self)@.directories[d as int].children matches Some(list) && i < list.len()
                && match r {
                Ok(id) => list[i as int].inode == Some(id),
                Err(e) => list[i as int].inode is None && asked(
                    old(self)@,
                    final(self)@,
                    final(self)@.volume_of(d),
                    DriverCall::LoadInode {
                        inode_number: list[i as int].inode_number,
                        reply: Err(e),
                    },
                ),
            },
    {
        let ghost o = self@;
        assert(o.dir_wf(d));
        let inode: Inode = self.inodes[self.directories[d].inode];
        let v: VolumeId = inode.filesystem;
        assert(o.inodes[o.directories[d as int].inode as int].filesystem < o.histories.len());
        let ghost list = o.directories[d as int].children->0;
        proof {
            assert(self.inodes.len() <= usize::MAX);
        }
        let r = self.directories[d].load_child(
            i,
            &mut self.inodes,
            v,
            &mut self.volumes[v].instance.filesystem,
        );
        proof {
            assert(self.inodes.len() <= usize::MAX);
            let known = shared_record(
                o.inodes,
                v,
                list[i as int].inode_number,
                list[i as int].entry_type,
            );
            assert(list.update(i as int, list[i as int]) =~= list);
            if list[i as int].inode is Some {
                assert(self@ =~= o) by {
                    assert(self@.directories =~= o.directories);
                    assert(self@.histories =~= o.histories);
                    assert(self@.ids =~= o.ids);
                }
                grew_refl(o);
            } else if known is Some {
                let s = after_share(o, d, i as int, known->0);
                lemma_shared(o, d, i as int, known->0);
                assert(self@ =~= s) by {
                    assert(self@.directories =~= s.directories);
                    assert(self@.histories =~= s.histories);
                    assert(self@.ids =~= s.ids);
                }
            } else {
                let reply = self@.histories[v as int].last()->LoadInode_reply;
                lemma_loaded(o, d, i as int, reply);
                assert(self@ =~= after_load(o, d, i as int, reply)) by {
                    let s = after_load(o, d, i as int, reply);
                    assert(self@.directories =~= s.directories);
                    assert(self@.histories =~= s.histories);
                    assert(self@.ids =~= s.ids);
                }
            }
        }
        r
    }
}

impl Namespace {
    /// Looks a name up in a directory and loads its inode, asking the driver
    /// for whatever is not in memory.
    pub fn find_child(&mut self, d: DirectoryId, name: &str) -> (r: Result<
        Option<(DirectoryEntryType, InodeId)>,
        FileSystemError,
    >)
        requires
            old(self)@.wf(),
            old(self)@.is_dir(d),
        ensures
            final(self)@.wf(),
            grew(old(self)@, final(self)@),
            final(self)@.is_dir(d),
            child_found(old(self)@, final(self)@, d, name@, r),
            r matches Ok(Some(found)) ==> found.1 < final(self)@.inodes.len(),
    {
        let ghost o = self@;
        match self.list_children(d) {
            Ok(_) => {},
            Err(e) => {
                return Err(e);
            },
        }
        let ghost m = self@;
        let (i, n): (usize, usize) = match &self.directories[d].children {
            Some(list) => (Directory::position(list, name), list.len()),
            None => (0, 0),
        };
        if i >= n {
            return Ok(None);
        }
        let entry_type = match &self.directories[d].children {
            Some(list) => list[i].entry_type,
            None => DirectoryEntryType::File,
        };
        let ghost before = m.directories[d as int].children->0;
        let r = self.load_entry(d, i);
        proof {
            let s = self@;
            grew_trans(o, m, s);
            assert(m.dir_wf(d));
            assert(dir_grew(m, s, d));
            let after = s.directories[d as int].children->0;
            assert(list_grew(m, s, s.volume_of(d), before, after));
            assert forall|j: int| 0 <= j < after.len() implies (#[trigger] after[j]).name
                == before[j].name && after[j].entry_type == before[j].entry_type by {}
            lemma_child_index(before, name@);
            lemma_child_index_is(after, name@, i as int);
            if let Err(e) = r {
                let v = s.volume_of(d);
                assert(s.dir_wf(d));
                assert(s.inodes[s.directories[d as int].inode as int].filesystem
                    < s.histories.len());
                assert(o.histories[v as int].is_prefix_of(m.histories[v as int]));
                assert(m.histories[v as int].is_prefix_of(s.histories[v as int]));
                lemma_asked_later(
                    o,
                    m,
                    s,
                    v,
                    DriverCall::LoadInode {
                        inode_number: after[i as int].inode_number,
                        reply: Err(e),
                    },
                );
            }
        }
        match r {
            Ok(id) => {
                proof {
                    assert(self@.dir_wf(d));
                    let after = self@.directories[d as int].children->0;
                    assert(after[i as int].inode == Some(id));
                }
                Ok(Some((entry_type, id)))
            },
            Err(e) => Err(e),
        }
    }

    /// The directory for the inode of an entry of `parent`. It is made the
    /// first time.
    pub fn wrap(&mut self, id: InodeId, parent: DirectoryId) -> (r: DirectoryId)
        requires
            old(self)@.wf(),
            old(self)@.is_dir(parent),
            is_subdirectory(old(self)@, parent, id),
        ensures
            final(self)@.wf(),
            grew(old(self)@, final(self)@),
            final(self)@.is_dir(r),
            final(self)@.directories[r as int].inode == id,
            final(self)@.inodes == old(self)@.inodes,
            final(self)@.histories == old(self)@.histories,
    {
        let ghost o = self@;
        let mut d: DirectoryId = 0;
        while d < self.directories.len()
            invariant
                self@ == o,
                o.wf(),
                d <= self.directories@.len(),
                forall|x: DirectoryId| #[trigger] o.is_dir(x) && x < d ==> o.directories[x as int].inode
                    != id,
            decreases self.directories@.len() - d,
        {
            if self.directories[d].inode == id {
                assert(o.is_dir(d));
                proof {
                    grew_refl(o);
                }
                return d;
            }
            d = d + 1;
        }
        self.directories.push(Directory::new(id, parent));
        proof {
            let s = self@;
            let model = DirectoryModel {
                inode: id,
                children: None,
                parent: Some(parent),
                mount_root: None,
            };
            assert(self.directories.len() <= usize::MAX);
            assert(s.directories =~= o.directories.push(model));
            assert(s =~= (NamespaceModel { directories: o.directories.push(model), ..o }));
            lemma_wrapped(o, s, id, parent);
        }
        d
    }

    /// Asks a symlink's driver for the target.
    pub fn read_target(&mut self, id: InodeId) -> (r: Result<String, FileSystemError>)
        requires
            old(self)@.wf(),
            id < old(self)@.inodes.len(),
        ensures
            final(self)@ == old(self)@.with_call(
                old(self)@.inodes[id as int].filesystem,
                DriverCall::ReadSymlink {
                    inode: old(self)@.inodes[id as int],
                    reply: text_reply(r),
                },
            ),
            final(self)@.wf(),
            grew(old(self)@, final(self)@),
    {
        let ghost o = self@;
        let inode: Inode = self.inodes[id];
        let v: VolumeId = inode.filesystem;
        assert(o.inodes[id as int].filesystem < o.histories.len());
        let r = self.volumes[v].instance.filesystem.read_symlink(&inode);
        proof {
            let call = DriverCall::ReadSymlink { inode, reply: text_reply(r) };
            assert(o.with_call(v, call).inodes[id as int] == inode);
            lemma_called(o, v, call);
            let s = o.with_call(v, call);
            assert(self@.directories =~= s.directories);
            assert(self@.histories =~= s.histories);
            assert(self@.ids =~= s.ids);
            assert(self@ =~= s);
        }
        r
    }
}

/// The directory has an entry for a directory with this inode.
pub open spec fn is_subdirectory(s: NamespaceModel, parent: DirectoryId, id: InodeId) -> bool {
    s.directories[parent as int].children matches Some(list) && exists|i: int|
        0 <= i < list.len() && (#[trigger] list[i]).inode == Some(id)
            && list[i].entry_type is Directory
}

proof fn lemma_wrapped(o: NamespaceModel, s: NamespaceModel, id: InodeId, parent: DirectoryId)
    requires
        o.wf(),
        o.is_dir(parent),
        is_subdirectory(o, parent, id),
        forall|x: DirectoryId| #[trigger] o.is_dir(x) ==> o.directories[x as int].inode != id,
        o.directories.len() < usize::MAX,
        s == (NamespaceModel {
            directories: o.directories.push(
                DirectoryModel {
                    inode: id,
                    children: None,
                    parent: Some(parent),
                    mount_root: None,
                },
            ),
            ..o
        }),
    ensures
        s.wf(),
        grew(o, s),
{
    reveal(asked_for_missing);
    assert(s.tree_wf()) by {
        reveal(NamespaceModel::tree_wf);
        let list = o.directories[parent as int].children->0;
        let k = choose|k: int|
            0 <= k < list.len() && (#[trigger] list[k]).inode == Some(id)
                && list[k].entry_type is Directory;
        assert(o.lists_directory(parent, k, id));
        assert forall|x: DirectoryId, i: int, y: InodeId| #[trigger]
            s.lists_directory(x, i, y) implies o.lists_directory(x, i, y) by {
            assert(x != o.directories.len());
        }
        assert forall|x: DirectoryId, i: int, y: InodeId, c: DirectoryId|
            #[trigger] s.lists_directory(x, i, y) && #[trigger] s.is_dir(c)
                && s.directories[c as int].inode == y implies s.directories[c as int].parent
            == Some(x) && s.directories[x as int].mount_root != Some(c) by {
            assert(o.lists_directory(x, i, y));
            assert(o.dir_wf(x));
            if c < o.directories.len() {
                assert(o.is_dir(c));
            }
        }
    }
    let list = o.directories[parent as int].children->0;
    let i = choose|i: int|
        0 <= i < list.len() && (#[trigger] list[i]).inode == Some(id)
            && list[i].entry_type is Directory;
    assert(o.dir_wf(parent));
    assert(id < o.inodes.len());
    if o.inodes[id as int].mount_flag {
        assert(o.has_dir(id));
        let x = choose|x: DirectoryId| #[trigger]
            o.is_dir(x) && o.directories[x as int].inode == id;
        assert(o.is_dir(x));
    }
    assert forall|x: DirectoryId| #[trigger] s.is_dir(x) implies s.dir_wf(x) by {
        if x < o.directories.len() {
            assert(o.is_dir(x));
            assert(o.dir_wf(x));
            assert(s.directories[x as int] == o.directories[x as int]);
            if let Some(mounted) = o.directories[x as int].mount_root {
                assert(o.is_dir(mounted));
                assert(s.directories[mounted as int] == o.directories[mounted as int]);
            }
            if let Some(list) = o.directories[x as int].children {
                assert(s.entries_wf(s.volume_of(x), list));
            }
        } else {
            assert(o.is_dir(o.root));
        }
    }
    assert forall|a: DirectoryId, b: DirectoryId|
        #[trigger] s.is_dir(a) && #[trigger] s.is_dir(b) && s.directories[a as int].inode
            == s.directories[b as int].inode implies a == b by {
        if a < o.directories.len() {
            assert(o.is_dir(a));
        }
        if b < o.directories.len() {
            assert(o.is_dir(b));
        }
    }
    assert forall|k: InodeId|
        k < s.inodes.len() && (#[trigger] s.inodes[k as int]).mount_flag implies s.has_dir(k) by {
        assert(o.inodes[k as int].mount_flag);
        let x = choose|x: DirectoryId| #[trigger]
            o.is_dir(x) && o.directories[x as int].inode == k;
        assert(s.is_dir(x));
    }
    assert(s.is_dir(s.root)) by {
        assert(o.is_dir(o.root));
    }
    assert forall|w: int| 0 <= w < o.histories.len() implies (
    #[trigger] o.histories[w]).is_prefix_of(s.histories[w]) by {}
    assert forall|x: DirectoryId| #[trigger] s.is_dir(x) implies if o.is_dir(x) {
        dir_grew(o, s, x)
    } else {
        dir_new(o, s, x)
    } by {
        if o.is_dir(x) {
            assert(o.dir_wf(x));
            assert(s.directories[x as int] == o.directories[x as int]);
            if let Some(list) = o.directories[x as int].children {
                assert forall|j: int| 0 <= j < list.len() implies entry_grew(
                    o,
                    s,
                    s.volume_of(x),
                    list[j],
                    #[trigger] list[j],
                ) by {}
            }
        } else {
            assert(s.directories[parent as int] == o.directories[parent as int]);
            assert(list[i].inode == Some(s.directories[x as int].inode));
        }
    }
}

/// What looking a name up in a directory comes to, in the namespace `s` that
/// it leaves.
pub open spec fn child_found(
    o: NamespaceModel,
    s: NamespaceModel,
    d: DirectoryId,
    name: Seq<char>,
    r: Result<Option<(DirectoryEntryType, InodeId)>, FileSystemError>,
) -> bool {
    match s.directories[d as int].children {
        None => r matches Err(e) && asked(
            o,
            s,
            s.volume_of(d),
            DriverCall::ReadDir { directory: s.inode_of(d), reply: Err(e) },
        ),
        Some(list) => if !has_child(list, name) {
            r matches Ok(found) && found is None
        } else {
            let entry = list[child_index(list, name)];
            match entry.inode {
                None => r matches Err(e) && asked(
                    o,
                    s,
                    s.volume_of(d),
                    DriverCall::LoadInode { inode_number: entry.inode_number, reply: Err(e) },
                ),
                Some(id) => r matches Ok(found) && found == Some((entry.entry_type, id)),
            }
        },
    }
}

/// Growing asks drivers for listings, inodes and the targets of symlinks alone:
/// it changes nothing on a volume, and a listing or an inode that is in memory
/// is used as it is.
pub proof fn growth_only_reads(o: NamespaceModel, s: NamespaceModel, volume: VolumeId, k: int)
    requires
        grew(o, s),
        volume < o.histories.len(),
        o.histories[volume as int].len() <= k < s.histories[volume as int].len(),
    ensures
        ({
            let call = s.histories[volume as int][k];
            &&& call is ReadDir || call is LoadInode || call is ReadSymlink
            &&& was_missing(o, s, volume, call)
        }),
{
    reveal(asked_for_missing);
}

} // verus!

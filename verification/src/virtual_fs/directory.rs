//! Directory wrappers.

use vstd::prelude::*;

use super::driver::{DriverCall, FileSystemInstance};
use super::inode::{
    entry_models, loads_entry, DirectoryEntry, EntryModel, Inode, InodeId, VolumeId,
};
use super::types::FileSystemError;

verus! {

/// An index into the table of directories.
pub type DirectoryId = usize;

/// A directory of the namespace: its inode, its place in the tree, and its
/// entries once they have been asked for.
pub struct Directory {
    pub inode: InodeId,
    /// The entries, once loaded.
    pub children: Option<Vec<DirectoryEntry>>,
    /// The directory above; only the root has none.
    pub parent: Option<DirectoryId>,
    /// The root of the volume that is mounted here.
    pub mount_root: Option<DirectoryId>,
}

/// A directory as a value.
pub struct DirectoryModel {
    pub inode: InodeId,
    pub children: Option<Seq<EntryModel>>,
    pub parent: Option<DirectoryId>,
    pub mount_root: Option<DirectoryId>,
}

impl View for Directory {
    type V = DirectoryModel;

    open spec fn view(&self) -> DirectoryModel {
        DirectoryModel {
            inode: self.inode,
            children: match self.children {
                Some(list) => Some(entry_models(list@)),
                None => None,
            },
            parent: self.parent,
            mount_root: self.mount_root,
        }
    }
}

impl DirectoryModel {
    pub open spec fn with_children(self, list: Seq<EntryModel>) -> DirectoryModel {
        DirectoryModel { children: Some(list), ..self }
    }
}

/// The place of the first entry with this name, or the length of the list.
pub open spec fn child_index(list: Seq<EntryModel>, name: Seq<char>) -> int
    decreases list.len(),
{
    if list.len() == 0 {
        0
    } else if list[0].name == name {
        0
    } else {
        1 + child_index(list.skip(1), name)
    }
}

/// The list holds an entry with this name.
pub open spec fn has_child(list: Seq<EntryModel>, name: Seq<char>) -> bool {
    child_index(list, name) < list.len()
}

/// The list without the entry at `i`, whose place the last entry takes.
pub open spec fn swap_removed(list: Seq<EntryModel>, i: int) -> Seq<EntryModel> {
    list.update(i, list.last()).drop_last()
}

/// What [`child_index`] finds, in terms of places.
pub proof fn lemma_child_index(list: Seq<EntryModel>, name: Seq<char>)
    ensures
        0 <= child_index(list, name) <= list.len(),
        has_child(list, name) ==> list[child_index(list, name)].name == name,
        forall|j: int| 0 <= j < child_index(list, name) ==> (#[trigger] list[j]).name != name,
    decreases list.len(),
{
    if list.len() > 0 && list[0].name != name {
        lemma_child_index(list.skip(1), name);
        assert forall|j: int| 0 <= j < child_index(list, name) implies (#[trigger] list[j]).name
            != name by {
            if j > 0 {
                assert(list.skip(1)[j - 1] == list[j]);
            }
        }
    }
}

/// The first place with the name is the only one that fits.
pub proof fn lemma_child_index_is(list: Seq<EntryModel>, name: Seq<char>, i: int)
    requires
        0 <= i <= list.len(),
        i < list.len() ==> list[i].name == name,
        forall|j: int| 0 <= j < i ==> (#[trigger] list[j]).name != name,
    ensures
        child_index(list, name) == i,
{
    lemma_child_index(list, name);
    let k = child_index(list, name);
    if k < i {
        assert(list[k].name != name);
    } else if i < k {
        assert(list[i].name != name);
    }
}

impl Directory {
    /// The root of the namespace: no parent, nothing loaded, nothing mounted.
    pub fn new_root(inode: InodeId) -> (r: Self)
        ensures
            r@ == (DirectoryModel { inode, children: None, parent: None, mount_root: None }),
    {
        Directory { inode, children: None, parent: None, mount_root: None }
    }

    /// A directory below `parent`: nothing loaded, nothing mounted.
    pub fn new(inode: InodeId, parent: DirectoryId) -> (r: Self)
        ensures
            r@ == (DirectoryModel { inode, children: None, parent: Some(parent), mount_root: None }),
    {
        Directory { inode, children: None, parent: Some(parent), mount_root: None }
    }

    /// Loads the entries, if that has not been done. `inode` is the
    /// directory's inode, `filesystem` the driver of its volume.
    pub fn ensure_children_loaded(
        &mut self,
        inode: &Inode,
        filesystem: &mut Box<dyn FileSystemInstance>,
    ) -> (r: Result<&Vec<DirectoryEntry>, FileSystemError>)
        ensures
            listed(old(self)@, *inode, old(filesystem).history(), final(filesystem).history()),
            old(self)@.children is Some ==> *final(filesystem) == *old(filesystem),
            match listing(old(self)@, final(filesystem).history()) {
                Ok(list) => {
                    &&& r matches Ok(entries) && entry_models(entries@) == list
                    &&& final(self)@ == old(self)@.with_children(list)
                },
                Err(e) => {
                    &&& r matches Err(error) && error == e
                    &&& final(self)@ == old(self)@
                },
            },
    {
        if self.children.is_none() {
            match filesystem.read_dir(inode) {
                Ok(mut entries) => {
                    forget_inodes(&mut entries);
                    self.children = Some(entries);
                },
                Err(e) => {
                    return Err(e);
                },
            }
        }
        match &self.children {
            Some(list) => Ok(list),
            None => Err(FileSystemError::InternalError),
        }
    }

    /// Finds the place of the entry with the name, or the length of the list.
    pub fn position(list: &Vec<DirectoryEntry>, name: &str) -> (r: usize)
        ensures
            r == child_index(entry_models(list@), name@),
            r <= list@.len(),
    {
        let mut i: usize = 0;
        let ghost models = entry_models(list@);
        while i < list.len()
            invariant
                i <= list@.len(),
                models == entry_models(list@),
                forall|j: int| 0 <= j < i ==> (#[trigger] models[j]).name != name@,
            decreases list@.len() - i,
        {
            if str_eq(list[i].name.as_str(), name) {
                proof {
                    lemma_child_index_is(models, name@, i as int);
                }
                return i;
            }
            i = i + 1;
        }
        proof {
            lemma_child_index_is(models, name@, i as int);
        }
        i
    }

    /// Looks an entry up by its name, loading the entries first if need be.
    pub fn lookup_child(
        &mut self,
        inode: &Inode,
        filesystem: &mut Box<dyn FileSystemInstance>,
        name: &str,
    ) -> (r: Result<Option<&mut DirectoryEntry>, FileSystemError>)
        ensures
            listed(old(self)@, *inode, old(filesystem).history(), final(filesystem).history()),
            old(self)@.children is Some ==> *final(filesystem) == *old(filesystem),
            match listing(old(self)@, final(filesystem).history()) {
                Ok(list) => match r {
                    Ok(Some(entry)) => {
                        &&& has_child(list, name@)
                        &&& entry@ == list[child_index(list, name@)]
                        &&& final(self)@ == old(self)@.with_children(
                            list.update(child_index(list, name@), final(entry)@),
                        )
                    },
                    Ok(None) => {
                        &&& !has_child(list, name@)
                        &&& final(self)@ == old(self)@.with_children(list)
                    },
                    Err(_) => false,
                },
                Err(e) => {
                    &&& r matches Err(error) && error == e
                    &&& final(self)@ == old(self)@
                },
            },
    {
        match self.ensure_children_loaded(inode, filesystem) {
            Ok(_) => {},
            Err(e) => {
                return Err(e);
            },
        }
        match &mut self.children {
            Some(list) => {
                let i: usize = Self::position(list, name);
                if i < list.len() {
                    let ghost before = list@;
                    assert forall|entry: DirectoryEntry| #[trigger]
                        entry_models(before.update(i as int, entry)) == entry_models(before).update(
                            i as int,
                            entry@,
                        ) by {
                        assert(entry_models(before.update(i as int, entry)) =~= entry_models(
                            before,
                        ).update(i as int, entry@));
                    }
                    Ok(Some(&mut list[i]))
                } else {
                    Ok(None)
                }
            },
            None => Ok(None),
        }
    }
}

impl Directory {
    /// Adds an entry at the end, loading the entries first if need be.
    pub fn add_child(
        &mut self,
        inode: &Inode,
        filesystem: &mut Box<dyn FileSystemInstance>,
        entry: DirectoryEntry,
    ) -> (r: Result<(), FileSystemError>)
        ensures
            listed(old(self)@, *inode, old(filesystem).history(), final(filesystem).history()),
            old(self)@.children is Some ==> *final(filesystem) == *old(filesystem),
            match listing(old(self)@, final(filesystem).history()) {
                Ok(list) => {
                    &&& r == Ok::<(), FileSystemError>(())
                    &&& final(self)@ == old(self)@.with_children(list.push(entry@))
                },
                Err(e) => {
                    &&& r == Err::<(), FileSystemError>(e)
                    &&& final(self)@ == old(self)@
                },
            },
    {
        match self.ensure_children_loaded(inode, filesystem) {
            Ok(_) => {},
            Err(e) => {
                return Err(e);
            },
        }
        match &mut self.children {
            Some(list) => {
                proof {
                    assert(entry_models(list@.push(entry)) =~= entry_models(list@).push(entry@));
                }
                list.push(entry);
            },
            None => {},
        }
        Ok(())
    }

    /// Loads the inode of the entry at `i`, if that has not been done.
    pub fn load_child(
        &mut self,
        i: usize,
        inodes: &mut Vec<Inode>,
        volume: VolumeId,
        filesystem: &mut Box<dyn FileSystemInstance>,
    ) -> (r: Result<InodeId, FileSystemError>)
        requires
            old(self)@.children matches Some(list) && i < list.len(),
        ensures
            ({
                let list = old(self)@.children->0;
                let later = final(self)@.children->0;
                &&& final(self)@ == old(self)@.with_children(later)
                &&& later == list.update(i as int, later[i as int])
                &&& loads_entry(
                    list[i as int],
                    later[i as int],
                    old(inodes)@,
                    final(inodes)@,
                    volume,
                    old(filesystem).history(),
                    final(filesystem).history(),
                    r,
                )
            }),
    {
        match &mut self.children {
            Some(entries) => {
                let ghost before = entries@;
                let r = entries[i].load_inode(inodes, volume, filesystem);
                proof {
                    assert(entry_models(entries@) =~= entry_models(before).update(
                        i as int,
                        entries@[i as int]@,
                    ));
                    assert(entry_models(before).update(i as int, before[i as int]@)
                        =~= entry_models(before));
                }
                r
            },
            None => Err(FileSystemError::InternalError),
        }
    }

    /// Removes the first entry with the name, loading the entries first if
    /// need be. The last entry takes its place. Tells whether there was one.
    pub fn remove_child(
        &mut self,
        inode: &Inode,
        filesystem: &mut Box<dyn FileSystemInstance>,
        name: &str,
    ) -> (r: Result<bool, FileSystemError>)
        ensures
            listed(old(self)@, *inode, old(filesystem).history(), final(filesystem).history()),
            old(self)@.children is Some ==> *final(filesystem) == *old(filesystem),
            match listing(old(self)@, final(filesystem).history()) {
                Ok(list) => {
                    &&& r == Ok::<bool, FileSystemError>(has_child(list, name@))
                    &&& final(self)@ == old(self)@.with_children(
                        if has_child(list, name@) {
                            swap_removed(list, child_index(list, name@))
                        } else {
                            list
                        },
                    )
                },
                Err(e) => {
                    &&& r == Err::<bool, FileSystemError>(e)
                    &&& final(self)@ == old(self)@
                },
            },
    {
        match self.ensure_children_loaded(inode, filesystem) {
            Ok(_) => {},
            Err(e) => {
                return Err(e);
            },
        }
        match &mut self.children {
            Some(list) => {
                let i: usize = Self::position(list, name);
                if i < list.len() {
                    let ghost before = list@;
                    let _ = list.swap_remove(i);
                    assert(entry_models(list@) =~= swap_removed(entry_models(before), i as int));
                    return Ok(true);
                }
            },
            None => {},
        }
        Ok(false)
    }

    /// Checks if this directory is the root of the namespace.
    pub fn is_root(&self) -> (r: bool)
        ensures
            r == (self@.parent is None),
    {
        self.parent.is_none()
    }

    /// Checks if a volume is mounted on this directory, whose inode is
    /// `inode`.
    pub fn is_mount_point(&self, inode: &Inode) -> (r: bool)
        ensures
            r == inode.mount_flag,
    {
        inode.mount_flag
    }

    /// Gives the directory above.
    pub fn parent(&self) -> (r: Result<DirectoryId, FileSystemError>)
        ensures
            r == match self@.parent {
                Some(parent) => Ok::<DirectoryId, FileSystemError>(parent),
                None => Err(FileSystemError::InternalError),
            },
    {
        match self.parent {
            Some(parent) => Ok(parent),
            None => Err(FileSystemError::InternalError),
        }
    }
}

/// After an entry is added under a name that was free, the name leads to that
/// entry, and every other name to where it led before.
pub proof fn added_child_is_found(list: Seq<EntryModel>, entry: EntryModel, name: Seq<char>)
    requires
        !has_child(list, entry.name),
    ensures
        has_child(list.push(entry), entry.name),
        list.push(entry)[child_index(list.push(entry), entry.name)] == entry,
        name != entry.name ==> has_child(list.push(entry), name) == has_child(list, name),
        name != entry.name && has_child(list, name) ==> child_index(list.push(entry), name)
            == child_index(list, name),
{
    let next = list.push(entry);
    lemma_child_index(list, entry.name);
    lemma_child_index_is(next, entry.name, list.len() as int);
    lemma_child_index(list, name);
    lemma_child_index(next, name);
    if name != entry.name {
        if has_child(list, name) {
            lemma_child_index_is(next, name, child_index(list, name));
        } else {
            lemma_child_index_is(next, name, next.len() as int);
        }
    }
}

/// After the entry with a name is removed from a list in which no name occurs
/// twice, the name is gone, and every other name leads to the entry it led to.
pub proof fn removed_child_is_gone(list: Seq<EntryModel>, gone: Seq<char>, name: Seq<char>)
    requires
        has_child(list, gone),
        forall|i: int, j: int|
            0 <= i < j < list.len() ==> (#[trigger] list[i]).name != (#[trigger] list[j]).name,
    ensures
        ({
            let next = swap_removed(list, child_index(list, gone));
            &&& !has_child(next, gone)
            &&& name != gone ==> has_child(next, name) == has_child(list, name)
            &&& name != gone && has_child(list, name) ==> next[child_index(next, name)]
                == list[child_index(list, name)]
        }),
{
    let at = child_index(list, gone);
    let next = swap_removed(list, at);
    lemma_child_index(list, gone);
    lemma_child_index(list, name);
    lemma_child_index(next, gone);
    lemma_child_index(next, name);
    let g = child_index(next, gone);
    if has_child(next, gone) {
        if g == at {
            assert(list[at].name != list[list.len() - 1].name);
        } else {
            assert(next[g] == list[g]);
        }
    }
    if name != gone {
        let i = child_index(list, name);
        if has_child(list, name) {
            if i == list.len() - 1 {
                assert(next[at] == list[i]);
                assert(next[at].name == name);
            } else {
                assert(next[i] == list[i]);
            }
        }
        let j = child_index(next, name);
        if has_child(next, name) {
            if j == at {
                assert(next[j] == list[list.len() - 1]);
            } else {
                assert(next[j] == list[j]);
            }
        }
    }
}

/// Entries as they are when a driver has just listed them: no inode is loaded.
pub open spec fn unloaded(list: Seq<EntryModel>) -> Seq<EntryModel> {
    Seq::new(list.len(), |i: int| EntryModel { inode: None, ..list[i] })
}

/// Marks the inodes of all entries as not loaded.
fn forget_inodes(entries: &mut Vec<DirectoryEntry>)
    ensures
        entry_models(final(entries)@) == unloaded(entry_models(old(entries)@)),
{
    let mut i: usize = 0;
    while i < entries.len()
        invariant
            i <= entries@.len(),
            entries@.len() == old(entries)@.len(),
            forall|j: int|
                0 <= j < i ==> (#[trigger] entries@[j])@ == unloaded(
                    entry_models(old(entries)@),
                )[j],
            forall|j: int|
                i <= j < entries@.len() ==> #[trigger] entries@[j] == old(entries)@[j],
        decreases entries@.len() - i,
    {
        entries[i].inode = None;
        i = i + 1;
    }
    assert(entry_models(entries@) =~= unloaded(entry_models(old(entries)@)));
}

/// The entries of a directory, or the error of the driver: what is in memory,
/// else the answer to the last call.
pub open spec fn listing(before: DirectoryModel, later: Seq<DriverCall>) -> Result<
    Seq<EntryModel>,
    FileSystemError,
> {
    match before.children {
        Some(list) => Ok(list),
        None => match later.last() {
            DriverCall::ReadDir { directory: _, reply: Ok(list) } => Ok(unloaded(list)),
            DriverCall::ReadDir { directory: _, reply: Err(e) } => Err(e),
            _ => Err(FileSystemError::InternalError),
        },
    }
}

/// The driver was asked for the entries of the directory if, and only if, they
/// were not in memory.
pub open spec fn listed(
    before: DirectoryModel,
    inode: Inode,
    history: Seq<DriverCall>,
    later: Seq<DriverCall>,
) -> bool {
    if before.children is Some {
        later == history
    } else {
        &&& later == history.push(later.last())
        &&& later.last() matches DriverCall::ReadDir { directory, reply: _ } && directory == inode
    }
}

/// Checks if two strings are the same.
pub fn str_eq(a: &str, b: &str) -> (r: bool)
    ensures
        r == (a@ == b@),
{
    let r = crate::bytes::bytes_eq(a.as_bytes(), b.as_bytes());
    proof {
        vstd::utf8::encode_utf8_decode_utf8(a@);
        vstd::utf8::encode_utf8_decode_utf8(b@);
    }
    r
}

/// A listing that is in memory is used as it is; else it is what the driver has
/// listed, name by name, number by number and type by type, with no inode loaded.
pub proof fn listings_come_from_the_driver(
    before: DirectoryModel,
    directory: Inode,
    later: Seq<DriverCall>,
    list: Seq<EntryModel>,
    i: int,
)
    requires
        0 <= i < list.len(),
    ensures
        before.children matches Some(known) ==> listing(before, later) == Ok::<
            Seq<EntryModel>,
            FileSystemError,
        >(known),
        before.children is None && later.len() > 0 && later.last() == (DriverCall::ReadDir {
            directory,
            reply: Ok(list),
        }) ==> {
            &&& listing(before, later) == Ok::<Seq<EntryModel>, FileSystemError>(unloaded(list))
            &&& unloaded(list).len() == list.len()
            &&& unloaded(list)[i].name == list[i].name
            &&& unloaded(list)[i].inode_number == list[i].inode_number
            &&& unloaded(list)[i].entry_type == list[i].entry_type
            &&& unloaded(list)[i].inode is None
        },
        forall|e: FileSystemError|
            before.children is None && later.len() > 0 && #[trigger] later.last() == (
            DriverCall::ReadDir { directory, reply: Err(e) }) ==> listing(before, later) == Err::<
                Seq<EntryModel>,
                FileSystemError,
            >(e),
{
}

} // verus!

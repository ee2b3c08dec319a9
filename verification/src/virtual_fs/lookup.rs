//! What a path resolves to, told by its last name.

use vstd::prelude::*;

use super::directory::{has_child, lemma_child_index, DirectoryId};
use super::inode::InodeId;
use super::namespace::NamespaceModel;
use super::path::{
    components, components_of_name, dot, dot_dot, last_slash, name_of, parent_and_name,
    parent_and_name_rejoin, parent_of,
};
use super::resolver::{
    always_walks, extends, leads_to, lemma_always_more, lemma_walks_earlier, path_walks, start_of,
    steady, walks, walks_append, walks_split, Place,
};
use super::types::{DirectoryEntryType, FileSystemError};
use super::vfs::{as_directory, resolves, resolves_dir, wd_wf};

verus! {

/// One name.
pub open spec fn only(name: Seq<char>) -> Seq<Seq<char>> {
    Seq::empty().push(name)
}

/// The names of a path before the last one lead to the directory of its parent.
pub proof fn lemma_names_before_last(
    o: NamespaceModel,
    s: NamespaceModel,
    path: Seq<char>,
    working_directory: Option<DirectoryId>,
    budget: nat,
    d: DirectoryId,
) -> (names: Seq<Seq<char>>)
    requires
        s.wf(),
        wd_wf(s, working_directory),
        parent_and_name(path) is Some,
        resolves_dir(o, s, parent_of(path), working_directory, budget, Ok(d)),
    ensures
        path.len() > 0,
        components(path) == names + only(name_of(path)),
        s.is_dir(start_of(s, path, working_directory)),
        walks(
            o,
            s,
            start_of(s, path, working_directory),
            names,
            false,
            budget,
            Ok(Place::Directory(d)),
        ),
{
    let (parent, name) = parent_and_name(path)->0;
    let w = choose|w: Result<Place, FileSystemError>|
        #[trigger] path_walks(o, s, parent, working_directory, false, budget, w) && Ok::<
            DirectoryId,
            FileSystemError,
        >(d) == as_directory(s, w);
    assert(w == Ok::<Place, FileSystemError>(Place::Directory(d)));
    parent_and_name_rejoin(path);
    let start = start_of(s, parent, working_directory);
    assert(start_of(s, path, working_directory) == start);
    assert(s.is_dir(s.root));
    if last_slash(path) < 0 {
        components_of_name(dot());
        assert(components(parent) =~= only(dot()));
        assert(components(parent).skip(1) =~= seq![]);
        assert(walks(o, s, start, components(parent).skip(1), false, budget, w));
        let none = Seq::<Seq<char>>::empty();
        assert(walks(o, s, start, none, false, budget, w));
        assert(components(path) =~= none + only(name));
        none
    } else {
        assert(components(path) =~= components(parent) + only(name));
        components(parent)
    }
}

/// Where an entry leads, if no volume is mounted there.
pub open spec fn entry_place(s: NamespaceModel, entry_type: DirectoryEntryType, id: InodeId) -> Place {
    if entry_type is Directory {
        Place::Directory(
            choose|c: DirectoryId| #[trigger] s.is_dir(c) && s.directories[c as int].inode == id,
        )
    } else {
        Place::Object(id)
    }
}

proof fn lemma_one_name(
    o: NamespaceModel,
    s: NamespaceModel,
    d: DirectoryId,
    name: Seq<char>,
    entry_type: DirectoryEntryType,
    id: InodeId,
    follow: bool,
    budget: nat,
    r: Result<Place, FileSystemError>,
)
    requires
        s.wf(),
        s.is_dir(d),
        name != dot(),
        name != dot_dot(),
        leads_to(s, d, name, entry_type, id),
        entry_type is Symlink ==> !follow,
        entry_type is Directory ==> !s.inodes[id as int].mount_flag,
    ensures
        walks(o, s, d, only(name), follow, budget, r) ==> r == Ok::<Place, FileSystemError>(
            entry_place(s, entry_type, id),
        ) && entry_place(s, entry_type, id).inode_in(s) == id,
        (entry_type is Directory ==> s.has_dir(id)) && r == Ok::<Place, FileSystemError>(
            entry_place(s, entry_type, id),
        ) ==> walks(o, s, d, only(name), follow, budget, r) && entry_place(
            s,
            entry_type,
            id,
        ).inode_in(s) == id,
{
    let list = s.directories[d as int].children->0;
    lemma_child_index(list, name);
    assert(only(name).skip(1) =~= seq![]);
    if entry_type is Directory {
        if s.has_dir(id) {
            let c = choose|c: DirectoryId| #[trigger]
                s.is_dir(c) && s.directories[c as int].inode == id;
            assert(s.dir_wf(c));
            assert(s.enter(c) == c);
            assert(walks(o, s, s.enter(c), only(name).skip(1), follow, budget, r) == (r == Ok::<
                Place,
                FileSystemError,
            >(Place::Directory(c))));
        }
        if walks(o, s, d, only(name), follow, budget, r) {
            let c = choose|c: DirectoryId|
                #![trigger s.directories[c as int]]
                s.is_dir(c) && s.directories[c as int].inode == id && walks(
                    o,
                    s,
                    s.enter(c),
                    only(name).skip(1),
                    follow,
                    budget,
                    r,
                );
            assert(s.is_dir(c));
            assert(s.dir_wf(c));
            assert(s.has_dir(id));
        }
    }
}

proof fn lemma_always_one_name(
    o: NamespaceModel,
    s: NamespaceModel,
    d: DirectoryId,
    name: Seq<char>,
    entry_type: DirectoryEntryType,
    id: InodeId,
    follow: bool,
    budget: nat,
)
    requires
        s.wf(),
        s.is_dir(d),
        name != dot(),
        name != dot_dot(),
        leads_to(s, d, name, entry_type, id),
        entry_type is Symlink ==> !follow,
        entry_type is Directory ==> !s.inodes[id as int].mount_flag && s.has_dir(id),
    ensures
        always_walks(o, s, d, only(name), follow, budget, Ok(entry_place(s, entry_type, id))),
        entry_place(s, entry_type, id).inode_in(s) == id,
    decreases budget,
{
    let q = Ok::<Place, FileSystemError>(entry_place(s, entry_type, id));
    if budget > 0 {
        lemma_always_one_name(o, s, d, name, entry_type, id, follow, (budget - 1) as nat);
    }
    lemma_one_name(o, s, d, name, entry_type, id, follow, budget, q);
    lemma_always_more(o, s, d, only(name), follow, budget, q);
}

/// A path resolves to the inode that its last name leads to in the directory of
/// its parent: a file, a symlink that is not followed, or a directory on which
/// nothing is mounted.
pub proof fn entry_is_resolved(
    o: NamespaceModel,
    s: NamespaceModel,
    path: Seq<char>,
    working_directory: Option<DirectoryId>,
    follow: bool,
    budget: nat,
    d: DirectoryId,
    entry_type: DirectoryEntryType,
    id: InodeId,
)
    requires
        s.wf(),
        wd_wf(s, working_directory),
        parent_and_name(path) is Some,
        name_of(path) != dot(),
        name_of(path) != dot_dot(),
        s.is_dir(d),
        resolves_dir(o, s, parent_of(path), working_directory, budget, Ok(d)),
        leads_to(s, d, name_of(path), entry_type, id),
        entry_type is Symlink ==> !follow,
        entry_type is Directory ==> !s.inodes[id as int].mount_flag && s.has_dir(id),
    ensures
        resolves(o, s, path, working_directory, follow, budget, Ok(id)),
{
    let names = lemma_names_before_last(o, s, path, working_directory, budget, d);
    let start = start_of(s, path, working_directory);
    let name = name_of(path);
    let q = Ok::<Place, FileSystemError>(entry_place(s, entry_type, id));
    lemma_always_one_name(o, s, d, name, entry_type, id, follow, budget);
    walks_append(o, s, start, names, only(name), follow, budget, d, q);
    assert(path_walks(o, s, path, working_directory, follow, budget, q));
}

/// A path resolves to nothing else than the inode that its last name leads to
/// in the directory of its parent, if drivers give the same answer whenever
/// they are asked the same.
pub proof fn only_the_entry_is_resolved(
    o: NamespaceModel,
    s: NamespaceModel,
    path: Seq<char>,
    working_directory: Option<DirectoryId>,
    follow: bool,
    budget: nat,
    d: DirectoryId,
    entry_type: DirectoryEntryType,
    id: InodeId,
    r: Result<InodeId, FileSystemError>,
)
    requires
        s.wf(),
        wd_wf(s, working_directory),
        steady(o, s),
        parent_and_name(path) is Some,
        name_of(path) != dot(),
        name_of(path) != dot_dot(),
        resolves_dir(o, s, parent_of(path), working_directory, budget, Ok(d)),
        leads_to(s, d, name_of(path), entry_type, id),
        entry_type is Symlink ==> !follow,
        entry_type is Directory ==> !s.inodes[id as int].mount_flag,
        resolves(o, s, path, working_directory, follow, budget, r),
    ensures
        r == Ok::<InodeId, FileSystemError>(id),
{
    let names = lemma_names_before_last(o, s, path, working_directory, budget, d);
    let start = start_of(s, path, working_directory);
    let name = name_of(path);
    let w = choose|w: Result<Place, FileSystemError>|
        #[trigger] path_walks(o, s, path, working_directory, follow, budget, w) && r == match w {
            Ok(place) => Ok::<InodeId, FileSystemError>(place.inode_in(s)),
            Err(e) => Err(e),
        };
    let left = walks_split(o, s, start, names, only(name), follow, budget, d, w);
    lemma_one_name(o, s, d, name, entry_type, id, follow, left, w);
}

proof fn lemma_always_not_found(
    o: NamespaceModel,
    s: NamespaceModel,
    d: DirectoryId,
    name: Seq<char>,
    follow: bool,
    budget: nat,
)
    requires
        name != dot(),
        name != dot_dot(),
        s.directories[d as int].children matches Some(list) && !has_child(list, name),
    ensures
        always_walks(o, s, d, only(name), follow, budget, Err(FileSystemError::NotFound)),
    decreases budget,
{
    let q = Err::<Place, FileSystemError>(FileSystemError::NotFound);
    if budget > 0 {
        lemma_always_not_found(o, s, d, name, follow, (budget - 1) as nat);
    }
    assert(walks(o, s, d, only(name), follow, budget, q));
    lemma_always_more(o, s, d, only(name), follow, budget, q);
}

/// A path whose last name is missing in the directory of its parent is not
/// found.
pub proof fn missing_name_is_not_found(
    o: NamespaceModel,
    s: NamespaceModel,
    path: Seq<char>,
    working_directory: Option<DirectoryId>,
    follow: bool,
    budget: nat,
    d: DirectoryId,
)
    requires
        s.wf(),
        wd_wf(s, working_directory),
        parent_and_name(path) is Some,
        name_of(path) != dot(),
        name_of(path) != dot_dot(),
        resolves_dir(o, s, parent_of(path), working_directory, budget, Ok(d)),
        s.directories[d as int].children matches Some(list) && !has_child(list, name_of(path)),
    ensures
        resolves(
            o,
            s,
            path,
            working_directory,
            follow,
            budget,
            Err(FileSystemError::NotFound),
        ),
{
    let names = lemma_names_before_last(o, s, path, working_directory, budget, d);
    let start = start_of(s, path, working_directory);
    let name = name_of(path);
    let q = Err::<Place, FileSystemError>(FileSystemError::NotFound);
    lemma_always_not_found(o, s, d, name, follow, budget);
    walks_append(o, s, start, names, only(name), follow, budget, d, q);
    assert(path_walks(o, s, path, working_directory, follow, budget, q));
}

/// A path whose last name is missing in the directory of its parent resolves to
/// nothing, if drivers give the same answer whenever they are asked the same.
pub proof fn missing_name_is_only_not_found(
    o: NamespaceModel,
    s: NamespaceModel,
    path: Seq<char>,
    working_directory: Option<DirectoryId>,
    follow: bool,
    budget: nat,
    d: DirectoryId,
    r: Result<InodeId, FileSystemError>,
)
    requires
        s.wf(),
        wd_wf(s, working_directory),
        steady(o, s),
        parent_and_name(path) is Some,
        name_of(path) != dot(),
        name_of(path) != dot_dot(),
        resolves_dir(o, s, parent_of(path), working_directory, budget, Ok(d)),
        s.directories[d as int].children matches Some(list) && !has_child(list, name_of(path)),
        resolves(o, s, path, working_directory, follow, budget, r),
    ensures
        r == Err::<InodeId, FileSystemError>(FileSystemError::NotFound),
{
    let names = lemma_names_before_last(o, s, path, working_directory, budget, d);
    let start = start_of(s, path, working_directory);
    let name = name_of(path);
    let w = choose|w: Result<Place, FileSystemError>|
        #[trigger] path_walks(o, s, path, working_directory, follow, budget, w) && r == match w {
            Ok(place) => Ok::<InodeId, FileSystemError>(place.inode_in(s)),
            Err(e) => Err(e),
        };
    let left = walks_split(o, s, start, names, only(name), follow, budget, d, w);
    assert(walks(o, s, d, only(name), follow, left, w));
    assert(only(name)[0] == name);
}

/// What resolves since a later point resolves since an earlier one.
pub proof fn lemma_resolves_earlier(
    o: NamespaceModel,
    m: NamespaceModel,
    s: NamespaceModel,
    path: Seq<char>,
    working_directory: Option<DirectoryId>,
    follow: bool,
    budget: nat,
    r: Result<InodeId, FileSystemError>,
)
    requires
        s.wf(),
        extends(o, m),
        extends(m, s),
        wd_wf(s, working_directory),
        resolves(m, s, path, working_directory, follow, budget, r),
    ensures
        resolves(o, s, path, working_directory, follow, budget, r),
{
    let w = choose|w: Result<Place, FileSystemError>|
        #[trigger] path_walks(m, s, path, working_directory, follow, budget, w) && r == match w {
            Ok(place) => Ok::<InodeId, FileSystemError>(place.inode_in(s)),
            Err(e) => Err(e),
        };
    if path.len() > 0 {
        let start = start_of(s, path, working_directory);
        assert(s.is_dir(s.root));
        lemma_walks_earlier(o, m, s, start, components(path), follow, budget, w);
    }
    assert(path_walks(o, s, path, working_directory, follow, budget, w));
}

/// All the names are `.` or `..`.
pub open spec fn all_dots(names: Seq<Seq<char>>) -> bool {
    forall|i: int|
        0 <= i < names.len() ==> (#[trigger] names[i] == dot() || names[i] == dot_dot())
}

proof fn lemma_dots_stay(
    o: NamespaceModel,
    s: NamespaceModel,
    names: Seq<Seq<char>>,
    follow: bool,
    budget: nat,
    w: Result<Place, FileSystemError>,
)
    requires
        s.wf(),
        all_dots(names),
    ensures
        walks(o, s, s.root, names, follow, budget, w) <==> w == Ok::<Place, FileSystemError>(
            Place::Directory(s.root),
        ),
    decreases names.len(),
{
    assert(s.is_dir(s.root));
    assert(s.dir_wf(s.root));
    if names.len() > 0 {
        let rest = names.skip(1);
        assert(names[0] == dot() || names[0] == dot_dot());
        assert forall|i: int| 0 <= i < rest.len() implies (#[trigger] rest[i] == dot() || rest[i]
            == dot_dot()) by {
            assert(rest[i] == names[i + 1]);
        }
        lemma_dots_stay(o, s, rest, follow, budget, w);
    }
}

/// A path of slashes and dots that starts at the root stays there: `..` leads
/// from the root to the root.
pub proof fn dots_stay_at_the_root(
    o: NamespaceModel,
    s: NamespaceModel,
    path: Seq<char>,
    working_directory: Option<DirectoryId>,
    follow: bool,
    budget: nat,
    r: Result<InodeId, FileSystemError>,
)
    requires
        s.wf(),
        path.len() > 0,
        start_of(s, path, working_directory) == s.root,
        all_dots(components(path)),
    ensures
        resolves(o, s, path, working_directory, follow, budget, r) <==> r == Ok::<
            InodeId,
            FileSystemError,
        >(s.directories[s.root as int].inode),
{
    let names = components(path);
    let there = Ok::<Place, FileSystemError>(Place::Directory(s.root));
    lemma_dots_stay(o, s, names, follow, budget, there);
    assert(path_walks(o, s, path, working_directory, follow, budget, there));
    if resolves(o, s, path, working_directory, follow, budget, r) {
        let w = choose|w: Result<Place, FileSystemError>|
            #[trigger] path_walks(o, s, path, working_directory, follow, budget, w) && r
                == match w {
                Ok(place) => Ok::<InodeId, FileSystemError>(place.inode_in(s)),
                Err(e) => Err(e),
            };
        lemma_dots_stay(o, s, names, follow, budget, w);
    }
}

} // verus!

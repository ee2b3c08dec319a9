//! The steps that a path takes, told by the fields of the directories on the
//! way.

use vstd::prelude::*;

use super::directory::{child_index, has_child, lemma_child_index, DirectoryId};
use super::driver::DriverCall;
use super::inode::InodeId;
use super::lookup::{lemma_names_before_last, only};
use super::namespace::{asked, NamespaceModel};
use super::path::{components, dot, dot_dot, name_of, parent_and_name, parent_of};
use super::resolver::{
    leads_to, path_walks, start_of, steady, walks, walks_split, Place, MAX_SYMLINK_DEPTH,
};
use super::types::{DirectoryEntryType, FileSystemError};
use super::vfs::{as_directory, resolves, resolves_dir, wd_wf, VirtualFileSystem};

verus! {

/// Names that begin with this one.
pub open spec fn first(name: Seq<char>, rest: Seq<Seq<char>>) -> Seq<Seq<char>> {
    only(name) + rest
}

proof fn lemma_first(name: Seq<char>, rest: Seq<Seq<char>>)
    ensures
        first(name, rest).len() == rest.len() + 1,
        first(name, rest)[0] == name,
        first(name, rest).skip(1) == rest,
{
    assert(first(name, rest).skip(1) =~= rest);
}

/// No names lead where they begin. `.` stays, and `..` leads to the directory
/// above; above the root is the root.
pub proof fn dots_step(
    o: NamespaceModel,
    s: NamespaceModel,
    d: DirectoryId,
    rest: Seq<Seq<char>>,
    follow: bool,
    budget: nat,
    r: Result<Place, FileSystemError>,
)
    ensures
        walks(o, s, d, Seq::empty(), follow, budget, r) <==> r == Ok::<Place, FileSystemError>(
            Place::Directory(d),
        ),
        walks(o, s, d, first(seq!['.'], rest), follow, budget, r) <==> walks(
            o,
            s,
            d,
            rest,
            follow,
            budget,
            r,
        ),
        s.directories[d as int].parent is None ==> (walks(
            o,
            s,
            d,
            first(seq!['.', '.'], rest),
            follow,
            budget,
            r,
        ) <==> walks(o, s, d, rest, follow, budget, r)),
        s.directories[d as int].parent matches Some(p) ==> (walks(
            o,
            s,
            d,
            first(seq!['.', '.'], rest),
            follow,
            budget,
            r,
        ) <==> walks(o, s, p, rest, follow, budget, r)),
{
    assert(seq!['.'] =~= dot());
    assert(seq!['.', '.'] =~= dot_dot());
    assert(dot().len() != dot_dot().len());
    lemma_first(seq!['.'], rest);
    lemma_first(seq!['.', '.'], rest);
}

/// A name that is not listed is not found. A listing that could not be had
/// fails with the driver's error.
pub proof fn missing_step(
    o: NamespaceModel,
    s: NamespaceModel,
    d: DirectoryId,
    name: Seq<char>,
    rest: Seq<Seq<char>>,
    follow: bool,
    budget: nat,
    r: Result<Place, FileSystemError>,
)
    requires
        name != dot(),
        name != dot_dot(),
    ensures
        s.directories[d as int].children matches Some(list) && (forall|i: int|
            0 <= i < list.len() ==> (#[trigger] list[i]).name != name) ==> (walks(
            o,
            s,
            d,
            first(name, rest),
            follow,
            budget,
            r,
        ) <==> r == Err::<Place, FileSystemError>(FileSystemError::NotFound)),
        s.directories[d as int].children is None && walks(
            o,
            s,
            d,
            first(name, rest),
            follow,
            budget,
            r,
        ) ==> r is Err,
{
    lemma_first(name, rest);
    if let Some(list) = s.directories[d as int].children {
        lemma_child_index(list, name);
        if has_child(list, name) {
            assert(list[child_index(list, name)].name == name);
        }
    }
}

/// A file ends a path: it is what the last name leads to, and a name behind it
/// fails, for it is no directory.
pub proof fn file_step(
    o: NamespaceModel,
    s: NamespaceModel,
    d: DirectoryId,
    name: Seq<char>,
    id: InodeId,
    rest: Seq<Seq<char>>,
    follow: bool,
    budget: nat,
    r: Result<Place, FileSystemError>,
)
    requires
        name != dot(),
        name != dot_dot(),
        leads_to(s, d, name, DirectoryEntryType::File, id),
    ensures
        walks(o, s, d, first(name, rest), follow, budget, r) <==> r == if rest.len() == 0 {
            Ok::<Place, FileSystemError>(Place::Object(id))
        } else {
            Err(FileSystemError::NotADirectory)
        },
{
    lemma_first(name, rest);
}

/// A directory is entered by its name, and the names behind it go on from there.
/// If a volume is mounted on it, they go on from the volume's root.
pub proof fn directory_step(
    o: NamespaceModel,
    s: NamespaceModel,
    d: DirectoryId,
    name: Seq<char>,
    c: DirectoryId,
    rest: Seq<Seq<char>>,
    follow: bool,
    budget: nat,
    r: Result<Place, FileSystemError>,
)
    requires
        s.wf(),
        name != dot(),
        name != dot_dot(),
        s.is_dir(c),
        leads_to(s, d, name, DirectoryEntryType::Directory, s.directories[c as int].inode),
    ensures
        s.directories[c as int].mount_root is None ==> (walks(
            o,
            s,
            d,
            first(name, rest),
            follow,
            budget,
            r,
        ) <==> walks(o, s, c, rest, follow, budget, r)),
        s.directories[c as int].mount_root matches Some(m) ==> (walks(
            o,
            s,
            d,
            first(name, rest),
            follow,
            budget,
            r,
        ) <==> walks(o, s, m, rest, follow, budget, r)),
{
    lemma_first(name, rest);
    let id = s.directories[c as int].inode;
    let e = s.enter(c);
    if walks(o, s, d, first(name, rest), follow, budget, r) {
        let x = choose|x: DirectoryId|
            #![trigger s.directories[x as int]]
            s.is_dir(x) && s.directories[x as int].inode == id && walks(
                o,
                s,
                s.enter(x),
                rest,
                follow,
                budget,
                r,
            );
        assert(s.is_dir(x) && s.is_dir(c));
    }
}

/// A symlink as the last name is what the path leads to, unless it is to be
/// followed.
pub proof fn last_link_step(
    o: NamespaceModel,
    s: NamespaceModel,
    d: DirectoryId,
    name: Seq<char>,
    id: InodeId,
    budget: nat,
    r: Result<Place, FileSystemError>,
)
    requires
        name != dot(),
        name != dot_dot(),
        leads_to(s, d, name, DirectoryEntryType::Symlink, id),
    ensures
        walks(o, s, d, only(name), false, budget, r) <==> r == Ok::<Place, FileSystemError>(
            Place::Object(id),
        ),
{
    assert(only(name)[0] == name && only(name).skip(1).len() == 0);
}

/// The driver's answer about the symlink `id` in directory `d` is `reply`, and
/// names that begin with the symlink lead to `r` accordingly. A target that
/// begins with `/` is resolved from the root of the namespace, whatever directory
/// the symlink is in, and any other from that directory; the names behind the
/// symlink follow those of the target. An empty target leads nowhere.
pub open spec fn link_leads(
    o: NamespaceModel,
    s: NamespaceModel,
    d: DirectoryId,
    id: InodeId,
    rest: Seq<Seq<char>>,
    follow: bool,
    left: nat,
    reply: Result<Seq<char>, FileSystemError>,
    r: Result<Place, FileSystemError>,
) -> bool {
    match reply {
        Err(e) => r == Err::<Place, FileSystemError>(e),
        Ok(target) => if target.len() == 0 {
            r == Err::<Place, FileSystemError>(FileSystemError::InvalidPath)
        } else if target[0] == '/' {
            walks(o, s, s.root, components(target) + rest, follow, left, r)
        } else {
            walks(o, s, d, components(target) + rest, follow, left, r)
        },
    }
}

/// A symlink that is followed takes one from the budget; where none is left,
/// there are too many symlinks.
pub proof fn link_step(
    o: NamespaceModel,
    s: NamespaceModel,
    d: DirectoryId,
    name: Seq<char>,
    id: InodeId,
    rest: Seq<Seq<char>>,
    follow: bool,
    budget: nat,
    r: Result<Place, FileSystemError>,
)
    requires
        name != dot(),
        name != dot_dot(),
        leads_to(s, d, name, DirectoryEntryType::Symlink, id),
        rest.len() > 0 || follow,
    ensures
        budget == 0 ==> (walks(o, s, d, first(name, rest), follow, budget, r) <==> r == Err::<
            Place,
            FileSystemError,
        >(FileSystemError::TooManySymlinks)),
        budget > 0 ==> (walks(o, s, d, first(name, rest), follow, budget, r) <==> exists|
            reply: Result<Seq<char>, FileSystemError>,
        |
            #[trigger] asked(
                o,
                s,
                s.volume_of(d),
                DriverCall::ReadSymlink { inode: s.inodes[id as int], reply },
            ) && link_leads(o, s, d, id, rest, follow, (budget - 1) as nat, reply, r)),
{
    lemma_first(name, rest);
    if budget > 0 {
        let left = (budget - 1) as nat;
        let volume = s.volume_of(d);
        let inode = s.inodes[id as int];
        if walks(o, s, d, first(name, rest), follow, budget, r) {
            super::resolver::lemma_link_reply(o, s, d, first(name, rest), follow, budget, id, r);
            let reply = super::resolver::link_reply(o, s, d, id, rest, follow, budget, r);
            assert(asked(o, s, volume, DriverCall::ReadSymlink { inode, reply }));
            assert(link_leads(o, s, d, id, rest, follow, left, reply, r));
        }
        if exists|reply: Result<Seq<char>, FileSystemError>|
            #[trigger] asked(o, s, volume, DriverCall::ReadSymlink { inode, reply }) && link_leads(
                o,
                s,
                d,
                id,
                rest,
                follow,
                left,
                reply,
                r,
            ) {
            let reply = choose|reply: Result<Seq<char>, FileSystemError>|
                #[trigger] asked(o, s, volume, DriverCall::ReadSymlink { inode, reply })
                    && link_leads(o, s, d, id, rest, follow, left, reply, r);
            assert(asked(o, s, volume, DriverCall::ReadSymlink { inode, reply }));
        }
    }
}

/// The path of a symlink resolves to what its target resolves to, seen from the
/// directory of the symlink. An absolute target resolves to the same wherever
/// the symlink is.
pub proof fn link_resolves_as_its_target(
    o: NamespaceModel,
    s: NamespaceModel,
    path: Seq<char>,
    working_directory: Option<DirectoryId>,
    budget: nat,
    d: DirectoryId,
    id: InodeId,
    target: Seq<char>,
    r: Result<InodeId, FileSystemError>,
) -> (left: nat)
    requires
        s.wf(),
        wd_wf(s, working_directory),
        steady(o, s),
        parent_and_name(path) is Some,
        name_of(path) != dot(),
        name_of(path) != dot_dot(),
        resolves_dir(o, s, parent_of(path), working_directory, budget, Ok(d)),
        leads_to(s, d, name_of(path), DirectoryEntryType::Symlink, id),
        target.len() > 0,
        forall|reply: Result<Seq<char>, FileSystemError>|
            #[trigger] asked(
                o,
                s,
                s.volume_of(d),
                DriverCall::ReadSymlink { inode: s.inodes[id as int], reply },
            ) ==> reply == Ok::<Seq<char>, FileSystemError>(target),
        resolves(o, s, path, working_directory, true, budget, r),
        r != Err::<InodeId, FileSystemError>(FileSystemError::TooManySymlinks),
    ensures
        left < budget,
        resolves(o, s, target, Some(d), true, left, r),
        target[0] == '/' ==> forall|wd: Option<DirectoryId>| #[trigger]
            resolves(o, s, target, wd, true, left, r),
{
    let name = name_of(path);
    let names = lemma_names_before_last(o, s, path, working_directory, budget, d);
    let start = start_of(s, path, working_directory);
    let w = choose|w: Result<Place, FileSystemError>|
        #[trigger] path_walks(o, s, path, working_directory, true, budget, w) && r == match w {
            Ok(place) => Ok::<InodeId, FileSystemError>(place.inode_in(s)),
            Err(e) => Err(e),
        };
    let here = walks_split(o, s, start, names, only(name), true, budget, d, w);
    let none = Seq::<Seq<char>>::empty();
    assert(first(name, none) =~= only(name));
    link_step(o, s, d, name, id, none, true, here, w);
    assert(here > 0);
    let left = (here - 1) as nat;
    let reply = choose|reply: Result<Seq<char>, FileSystemError>|
        #[trigger] asked(
            o,
            s,
            s.volume_of(d),
            DriverCall::ReadSymlink { inode: s.inodes[id as int], reply },
        ) && link_leads(o, s, d, id, none, true, left, reply, w);
    assert(reply == Ok::<Seq<char>, FileSystemError>(target));
    assert(components(target) + none =~= components(target));
    assert(path_walks(o, s, target, Some(d), true, left, w));
    if target[0] == '/' {
        assert forall|wd: Option<DirectoryId>| #[trigger]
            resolves(o, s, target, wd, true, left, r) by {
            assert(path_walks(o, s, target, wd, true, left, w));
        }
    }
    left
}

/// A path that begins with `/` begins at the root, whatever the working directory
/// is; any other begins at the working directory, or at the root if there is
/// none. An empty path is refused.
pub proof fn paths_begin(
    o: NamespaceModel,
    s: NamespaceModel,
    path: Seq<char>,
    wd: Option<DirectoryId>,
    follow: bool,
    budget: nat,
    r: Result<Place, FileSystemError>,
)
    ensures
        path.len() == 0 ==> (path_walks(o, s, path, wd, follow, budget, r) <==> r == Err::<
            Place,
            FileSystemError,
        >(FileSystemError::InvalidPath)),
        path.len() > 0 && (path[0] == '/' || wd is None) ==> (path_walks(
            o,
            s,
            path,
            wd,
            follow,
            budget,
            r,
        ) <==> walks(o, s, s.root, components(path), follow, budget, r)),
        path.len() > 0 && path[0] != '/' ==> (wd matches Some(d) ==> (path_walks(
            o,
            s,
            path,
            wd,
            follow,
            budget,
            r,
        ) <==> walks(o, s, d, components(path), follow, budget, r))),
{
}

/// A path resolves to the inode of the directory it leads to, or to the inode
/// that it ends at. As the path of a directory it must lead to one, and its
/// inode must be a directory's; a symlink as the last name is not followed then.
pub proof fn places_are_inodes(
    o: NamespaceModel,
    s: NamespaceModel,
    path: Seq<char>,
    wd: Option<DirectoryId>,
    follow: bool,
    budget: nat,
    d: DirectoryId,
    id: InodeId,
    e: FileSystemError,
)
    ensures
        path_walks(o, s, path, wd, follow, budget, Ok(Place::Directory(d))) ==> resolves(
            o,
            s,
            path,
            wd,
            follow,
            budget,
            Ok(s.directories[d as int].inode),
        ),
        path_walks(o, s, path, wd, follow, budget, Ok(Place::Object(id))) ==> resolves(
            o,
            s,
            path,
            wd,
            follow,
            budget,
            Ok(id),
        ),
        path_walks(o, s, path, wd, follow, budget, Err(e)) ==> resolves(
            o,
            s,
            path,
            wd,
            follow,
            budget,
            Err(e),
        ),
        resolves_dir(o, s, path, wd, budget, Ok(d)) <==> path_walks(
            o,
            s,
            path,
            wd,
            false,
            budget,
            Ok(Place::Directory(d)),
        ) && s.inodes[s.directories[d as int].inode as int].inode_type is Directory,
        path_walks(o, s, path, wd, false, budget, Ok(Place::Object(id))) ==> resolves_dir(
            o,
            s,
            path,
            wd,
            budget,
            Err(FileSystemError::NotADirectory),
        ),
{
    let there = Ok::<Place, FileSystemError>(Place::Directory(d));
    assert(path_walks(o, s, path, wd, follow, budget, there) ==> Place::Directory(d).inode_in(s)
        == s.directories[d as int].inode);
    assert(path_walks(o, s, path, wd, follow, budget, Ok(Place::Object(id))) ==> Place::Object(
        id,
    ).inode_in(s) == id);
    if resolves_dir(o, s, path, wd, budget, Ok(d)) {
        let w = choose|w: Result<Place, FileSystemError>|
            #[trigger] path_walks(o, s, path, wd, false, budget, w) && Ok::<
                DirectoryId,
                FileSystemError,
            >(d) == as_directory(s, w);
        assert(w == there);
    }
    if path_walks(o, s, path, wd, false, budget, there) {
        assert(as_directory(s, there) == as_directory(s, there));
    }
}

/// Paths are resolved from the state that the file system is in, and up to
/// sixteen symlinks are followed on the way.
pub proof fn resolution_follows_sixteen_links(
    before: VirtualFileSystem,
    path: &str,
    wd: Option<DirectoryId>,
    follow: bool,
)
    ensures
        forall|vfs: &mut VirtualFileSystem, r: Result<InodeId, FileSystemError>|
            *vfs == before && #[trigger] call_ensures(
                VirtualFileSystem::resolve,
                (vfs, path, wd, follow),
                r,
            ) ==> resolves(before.namespace@, final(vfs).namespace@, path@, wd, follow, 16, r),
        MAX_SYMLINK_DEPTH == 16,
{
}

} // verus!

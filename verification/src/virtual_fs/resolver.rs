//! Path resolution.

use vstd::prelude::*;
use vstd::string::StrSliceExecFns;

use super::directory::{
    child_index, has_child, lemma_child_index, lemma_child_index_is, str_eq, DirectoryId,
};
use super::driver::DriverCall;
use super::inode::{EntryModel, InodeId, VolumeId};
use super::namespace::{
    asked, child_found, dir_grew, entry_grew, grew, grew_refl, grew_trans, is_subdirectory,
    lemma_asked_later, list_grew, Namespace, NamespaceModel,
};
use super::path::{components, dot, dot_dot, is_absolute, split_path, strings};
use super::types::{entry_type_of, DirectoryEntryType, FileSystemError};

verus! {

/// How many symlinks a resolution may follow.
pub const MAX_SYMLINK_DEPTH: u8 = 16;

/// Where a path leads.
#[derive(Debug, Clone, Copy, PartialEq, Eq, Structural)]
pub enum Place {
    Directory(DirectoryId),
    /// A file, or a symlink that was not to be followed.
    Object(InodeId),
}

impl Place {
    pub open spec fn wf(self, s: NamespaceModel) -> bool {
        match self {
            Place::Directory(d) => s.is_dir(d),
            Place::Object(id) => id < s.inodes.len(),
        }
    }

    /// The inode at the place.
    pub open spec fn inode_in(self, s: NamespaceModel) -> InodeId {
        match self {
            Place::Directory(d) => s.directories[d as int].inode,
            Place::Object(id) => id,
        }
    }
}

/// Beginning at directory `d` of namespace `s`, the names lead to `r`.
///
/// `.` stays, `..` goes up, any other name is looked up. A directory on which a
/// volume is mounted leads to the root of that volume. A file ends the path. A
/// symlink is followed, unless it is the last name and `follow` is off: its
/// target takes its place, unless it is empty and leads nowhere, and `budget`
/// says how often that may happen. What is not in memory could not be had: the
/// driver was asked for it since `o` and answered with the error. The targets
/// of symlinks are answers given since `o` too.
pub open spec fn walks(
    o: NamespaceModel,
    s: NamespaceModel,
    d: DirectoryId,
    names: Seq<Seq<char>>,
    follow: bool,
    budget: nat,
    r: Result<Place, FileSystemError>,
) -> bool
    decreases budget, names.len(),
{
    if names.len() == 0 {
        r == Ok::<Place, FileSystemError>(Place::Directory(d))
    } else {
        let name = names[0];
        let rest = names.skip(1);
        if name == dot() {
            walks(o, s, d, rest, follow, budget, r)
        } else if name == dot_dot() {
            walks(o, s, s.up(d), rest, follow, budget, r)
        } else {
            match s.directories[d as int].children {
                None => r matches Err(e) && asked(
                    o,
                    s,
                    s.volume_of(d),
                    DriverCall::ReadDir { directory: s.inode_of(d), reply: Err(e) },
                ),
                Some(list) => if !has_child(list, name) {
                    r == Err::<Place, FileSystemError>(FileSystemError::NotFound)
                } else {
                    let entry = list[child_index(list, name)];
                    match entry.inode {
                        None => r matches Err(e) && asked(
                            o,
                            s,
                            s.volume_of(d),
                            DriverCall::LoadInode {
                                inode_number: entry.inode_number,
                                reply: Err(e),
                            },
                        ),
                        Some(id) => match entry.entry_type {
                            DirectoryEntryType::File => r == if rest.len() == 0 {
                                Ok(Place::Object(id))
                            } else {
                                Err(FileSystemError::NotADirectory)
                            },
                            DirectoryEntryType::Directory => exists|child: DirectoryId|
                                #![trigger s.directories[child as int]]
                                s.is_dir(child) && s.directories[child as int].inode == id && walks(
                                    o,
                                    s,
                                    s.enter(child),
                                    rest,
                                    follow,
                                    budget,
                                    r,
                                ),
                            DirectoryEntryType::Symlink => if rest.len() == 0 && !follow {
                                r == Ok::<Place, FileSystemError>(Place::Object(id))
                            } else if budget == 0 {
                                r == Err::<Place, FileSystemError>(FileSystemError::TooManySymlinks)
                            } else {
                                exists|reply: Result<Seq<char>, FileSystemError>|
                                    #[trigger] asked(
                                        o,
                                        s,
                                        s.volume_of(d),
                                        DriverCall::ReadSymlink {
                                            inode: s.inodes[id as int],
                                            reply,
                                        },
                                    ) && match reply {
                                        Err(e) => r == Err::<Place, FileSystemError>(e),
                                        Ok(target) => if target.len() == 0 {
                                            r == Err::<Place, FileSystemError>(
                                                FileSystemError::InvalidPath,
                                            )
                                        } else {
                                            walks(
                                                o,
                                                s,
                                                link_base(s, d, target),
                                                components(target) + rest,
                                                follow,
                                                (budget - 1) as nat,
                                                r,
                                            )
                                        },
                                    }
                            },
                        },
                    }
                },
            }
        }
    }
}

/// Where the resolution of a symlink's target begins: at the root for a target
/// that is absolute, else at the directory of the symlink.
pub open spec fn link_base(s: NamespaceModel, d: DirectoryId, target: Seq<char>) -> DirectoryId {
    if is_absolute(target) {
        s.root
    } else {
        d
    }
}

/// Where the resolution of a path begins: at the root for an absolute path,
/// else at the working directory, which is the root if there is none.
pub open spec fn start_of(
    s: NamespaceModel,
    path: Seq<char>,
    working_directory: Option<DirectoryId>,
) -> DirectoryId {
    if is_absolute(path) {
        s.root
    } else {
        match working_directory {
            Some(d) => d,
            None => s.root,
        }
    }
}

/// A path leads to `r`. An empty path leads nowhere.
pub open spec fn path_walks(
    o: NamespaceModel,
    s: NamespaceModel,
    path: Seq<char>,
    working_directory: Option<DirectoryId>,
    follow: bool,
    budget: nat,
    r: Result<Place, FileSystemError>,
) -> bool {
    if path.len() == 0 {
        r == Err::<Place, FileSystemError>(FileSystemError::InvalidPath)
    } else {
        walks(
            o,
            s,
            start_of(s, path, working_directory),
            components(path),
            follow,
            budget,
            r,
        )
    }
}

/// The drivers of `o` have only been asked more in `s`.
pub open spec fn extends(o: NamespaceModel, s: NamespaceModel) -> bool {
    &&& s.histories.len() == o.histories.len()
    &&& forall|v: int|
        0 <= v < o.histories.len() ==> (#[trigger] o.histories[v]).is_prefix_of(s.histories[v])
}

/// What was asked since a later point was asked since an earlier one.
pub proof fn lemma_walks_earlier(
    o: NamespaceModel,
    a: NamespaceModel,
    s: NamespaceModel,
    d: DirectoryId,
    names: Seq<Seq<char>>,
    follow: bool,
    budget: nat,
    r: Result<Place, FileSystemError>,
)
    requires
        s.wf(),
        extends(o, a),
        extends(a, s),
        s.is_dir(d),
        walks(a, s, d, names, follow, budget, r),
    ensures
        walks(o, s, d, names, follow, budget, r),
    decreases budget, names.len(),
{
    assert(s.dir_wf(d));
    let v = s.volume_of(d);
    assert(s.inodes[s.directories[d as int].inode as int].filesystem < s.histories.len());
    assert(o.histories[v as int].is_prefix_of(a.histories[v as int]));
    assert(a.histories[v as int].is_prefix_of(s.histories[v as int]));
    if names.len() > 0 {
        let name = names[0];
        let rest = names.skip(1);
        if name == dot() {
            lemma_walks_earlier(o, a, s, d, rest, follow, budget, r);
        } else if name == dot_dot() {
            lemma_walks_earlier(o, a, s, s.up(d), rest, follow, budget, r);
        } else {
            match s.directories[d as int].children {
                None => {
                    lemma_asked_later(
                        o,
                        a,
                        s,
                        v,
                        DriverCall::ReadDir { directory: s.inode_of(d), reply: Err(r->Err_0) },
                    );
                },
                Some(list) => {
                    lemma_child_index(list, name);
                    if has_child(list, name) {
                        let entry = list[child_index(list, name)];
                        match entry.inode {
                            None => {
                                lemma_asked_later(
                                    o,
                                    a,
                                    s,
                                    v,
                                    DriverCall::LoadInode {
                                        inode_number: entry.inode_number,
                                        reply: Err(r->Err_0),
                                    },
                                );
                            },
                            Some(id) => match entry.entry_type {
                                DirectoryEntryType::File => {},
                                DirectoryEntryType::Directory => {
                                    let child = choose|child: DirectoryId|
                                        #![trigger s.directories[child as int]]
                                        s.is_dir(child) && s.directories[child as int].inode == id
                                            && walks(
                                            a,
                                            s,
                                            s.enter(child),
                                            rest,
                                            follow,
                                            budget,
                                            r,
                                        );
                                    assert(s.dir_wf(child));
                                    lemma_walks_earlier(
                                        o,
                                        a,
                                        s,
                                        s.enter(child),
                                        rest,
                                        follow,
                                        budget,
                                        r,
                                    );
                                },
                                DirectoryEntryType::Symlink => {
                                    if !(rest.len() == 0 && !follow) && budget != 0 {
                                        let reply = choose|reply: Result<Seq<char>, FileSystemError>|
                                            #[trigger] asked(
                                                a,
                                                s,
                                                v,
                                                DriverCall::ReadSymlink {
                                                    inode: s.inodes[id as int],
                                                    reply,
                                                },
                                            ) && match reply {
                                                Err(e) => r == Err::<Place, FileSystemError>(e),
                                                Ok(target) => if target.len() == 0 {
                                                    r == Err::<Place, FileSystemError>(
                                                        FileSystemError::InvalidPath,
                                                    )
                                                } else {
                                                    walks(
                                                        a,
                                                        s,
                                                        link_base(s, d, target),
                                                        components(target) + rest,
                                                        follow,
                                                        (budget - 1) as nat,
                                                        r,
                                                    )
                                                },
                                            };
                                        let call = DriverCall::ReadSymlink {
                                            inode: s.inodes[id as int],
                                            reply,
                                        };
                                        lemma_asked_later(o, a, s, v, call);
                                        assert(asked(o, s, v, call));
                                        if let Ok(target) = reply {
                                            if target.len() > 0 {
                                                lemma_walks_earlier(
                                                    o,
                                                    a,
                                                    s,
                                                    link_base(s, d, target),
                                                    components(target) + rest,
                                                    follow,
                                                    (budget - 1) as nat,
                                                    r,
                                                );
                                            }
                                        }
                                    }
                                },
                            },
                        }
                    }
                },
            }
        }
    }
}

/// What was found stays found.
proof fn lemma_found_later(
    a: NamespaceModel,
    m: NamespaceModel,
    s: NamespaceModel,
    d: DirectoryId,
    name: Seq<char>,
    entry_type: DirectoryEntryType,
    id: InodeId,
)
    requires
        m.wf(),
        m.is_dir(d),
        grew(m, s),
        child_found(a, m, d, name, Ok(Some((entry_type, id)))),
    ensures
        s.directories[d as int].children matches Some(list) && has_child(list, name) && list[child_index(
            list,
            name,
        )].inode == Some(id) && list[child_index(list, name)].entry_type == entry_type,
{
    let before = m.directories[d as int].children->0;
    lemma_child_index(before, name);
    let i = child_index(before, name);
    assert(s.is_dir(d));
    assert(dir_grew(m, s, d));
    let after = s.directories[d as int].children->0;
    assert(list_grew(m, s, s.volume_of(d), before, after));
    assert(entry_grew(m, s, s.volume_of(d), before[i], after[i]));
    assert forall|j: int| 0 <= j < i implies (#[trigger] after[j]).name != name by {
        assert(before[j].name != name);
    }
    lemma_child_index_is(after, name, i);
}

impl Namespace {
    /// Follows names from a directory.
    #[verifier::rlimit(60)]
    pub fn walk(
        &mut self,
        start: DirectoryId,
        names: &Vec<String>,
        follow: bool,
        budget: u8,
    ) -> (r: Result<Place, FileSystemError>)
        requires
            old(self)@.wf(),
            old(self)@.is_dir(start),
        ensures
            final(self)@.wf(),
            grew(old(self)@, final(self)@),
            walks(
                old(self)@,
                final(self)@,
                start,
                strings(names@),
                follow,
                budget as nat,
                r,
            ),
            r matches Ok(place) ==> place.wf(final(self)@),
        decreases budget, 1nat,
    {
        let ghost o = self@;
        let ghost all = strings(names@);
        let mut current: DirectoryId = start;
        let mut i: usize = 0;
        proof {
            grew_refl(o);
            assert(all.skip(0) =~= all);
            reveal_strlit(".");
            reveal_strlit("..");
            assert("."@ =~= dot());
            assert(".."@ =~= dot_dot());
        }
        while i < names.len()
            invariant
                "."@ == dot(),
                ".."@ == dot_dot(),
                i <= names@.len(),
                all == strings(names@),
                o == old(self)@,
                o.wf(),
                self@.wf(),
                grew(o, self@),
                self@.is_dir(current),
                forall|s: NamespaceModel, q: Result<Place, FileSystemError>|
                    s.wf() && grew(self@, s) && #[trigger] walks(
                        o,
                        s,
                        current,
                        all.skip(i as int),
                        follow,
                        budget as nat,
                        q,
                    ) ==> walks(o, s, start, all, follow, budget as nat, q),
            decreases names@.len() - i,
        {
            let name: &str = names[i].as_str();
            let ghost m = self@;
            let ghost tail = all.skip(i as int);
            let ghost here = current;
            proof {
                assert(tail[0] == name@);
                assert(tail.skip(1) =~= all.skip(i + 1));
                assert(m.dir_wf(current));
                grew_refl(m);
            }
            if str_eq(name, ".") {
                assert forall|s: NamespaceModel, q: Result<Place, FileSystemError>|
                    s.wf() && grew(self@, s) && #[trigger] walks(
                        o,
                        s,
                        current,
                        all.skip(i + 1),
                        follow,
                        budget as nat,
                        q,
                    ) implies walks(o, s, start, all, follow, budget as nat, q) by {
                    assert(walks(o, s, current, tail, follow, budget as nat, q));
                }
                i = i + 1;
            } else if str_eq(name, "..") {
                if !self.directories[current].is_root() {
                    match self.directories[current].parent() {
                        Ok(parent) => {
                            current = parent;
                        },
                        Err(e) => {
                            return Err(e);
                        },
                    }
                }
                assert forall|s: NamespaceModel, q: Result<Place, FileSystemError>|
                    s.wf() && grew(self@, s) && #[trigger] walks(
                        o,
                        s,
                        current,
                        all.skip(i + 1),
                        follow,
                        budget as nat,
                        q,
                    ) implies walks(o, s, start, all, follow, budget as nat, q) by {
                    assert(s.is_dir(here));
                    assert(dir_grew(m, s, here));
                    assert(s.up(here) == current);
                    assert(walks(o, s, here, tail, follow, budget as nat, q));
                }
                i = i + 1;
            } else {
                let found = self.find_child(current, name);
                let ghost n = self@;
                proof {
                    grew_trans(o, m, n);
                    grew_refl(n);
                    assert(n.dir_wf(current));
                    let v = n.volume_of(current);
                    assert(n.inodes[n.directories[current as int].inode as int].filesystem
                        < n.histories.len());
                    assert(o.histories[v as int].is_prefix_of(m.histories[v as int]));
                    assert(m.histories[v as int].is_prefix_of(n.histories[v as int]));
                }
                match found {
                    Err(e) => {
                        proof {
                            let v = n.volume_of(current);
                            lemma_asked_later(
                                o,
                                m,
                                n,
                                v,
                                DriverCall::ReadDir {
                                    directory: n.inode_of(current),
                                    reply: Err(e),
                                },
                            );
                            if let Some(list) = n.directories[current as int].children {
                                let entry = list[child_index(list, name@)];
                                lemma_asked_later(
                                    o,
                                    m,
                                    n,
                                    v,
                                    DriverCall::LoadInode {
                                        inode_number: entry.inode_number,
                                        reply: Err(e),
                                    },
                                );
                            }
                            assert(walks(o, n, here, tail, follow, budget as nat, Err(e)));
                        }
                        return Err(e);
                    },
                    Ok(None) => {
                        proof {
                            assert(walks(
                                o,
                                n,
                                here,
                                tail,
                                follow,
                                budget as nat,
                                Err(FileSystemError::NotFound),
                            ));
                        }
                        return Err(FileSystemError::NotFound);
                    },
                    Ok(Some((entry_type, id))) => {
                        let ghost list = n.directories[here as int].children->0;
                        let ghost at = child_index(list, name@);
                        proof {
                            lemma_child_index(list, name@);
                            assert(list[at].inode == Some(id));
                            assert(id < n.inodes.len());
                        }
                        match entry_type {
                            DirectoryEntryType::File => {
                                let r: Result<Place, FileSystemError> = if i + 1 == names.len() {
                                    Ok(Place::Object(id))
                                } else {
                                    Err(FileSystemError::NotADirectory)
                                };
                                assert(walks(o, n, here, tail, follow, budget as nat, r));
                                return r;
                            },
                            DirectoryEntryType::Directory => {
                                assert(is_subdirectory(n, here, id));
                                let child: DirectoryId = self.wrap(id, current);
                                let ghost w = self@;
                                proof {
                                    grew_trans(o, n, w);
                                    grew_trans(m, n, w);
                                    assert(w.dir_wf(child));
                                }
                                current = match self.directories[child].mount_root {
                                    Some(mounted) => mounted,
                                    None => child,
                                };
                                assert forall|
                                    s: NamespaceModel,
                                    q: Result<Place, FileSystemError>,
                                |
                                    s.wf() && grew(self@, s) && #[trigger] walks(
                                        o,
                                        s,
                                        current,
                                        all.skip(i + 1),
                                        follow,
                                        budget as nat,
                                        q,
                                    ) implies walks(o, s, start, all, follow, budget as nat, q) by {
                                    grew_trans(n, w, s);
                                    grew_trans(m, w, s);
                                    lemma_found_later(m, n, s, here, name@, entry_type, id);
                                    assert(s.is_dir(child));
                                    assert(dir_grew(w, s, child));
                                    assert(s.enter(child) == current);
                                    assert(s.directories[child as int].inode == id);
                                    assert(walks(o, s, here, tail, follow, budget as nat, q));
                                }
                                i = i + 1;
                            },
                            DirectoryEntryType::Symlink => {
                                if i + 1 == names.len() && !follow {
                                    assert(walks(
                                        o,
                                        n,
                                        here,
                                        tail,
                                        follow,
                                        budget as nat,
                                        Ok(Place::Object(id)),
                                    ));
                                    return Ok(Place::Object(id));
                                }
                                if budget == 0 {
                                    assert(walks(
                                        o,
                                        n,
                                        here,
                                        tail,
                                        follow,
                                        budget as nat,
                                        Err(FileSystemError::TooManySymlinks),
                                    ));
                                    return Err(FileSystemError::TooManySymlinks);
                                }
                                let r = self.follow_link(current, id, names, i, follow, budget);
                                proof {
                                    let s = self@;
                                    grew_trans(o, n, s);
                                    grew_trans(m, n, s);
                                    lemma_found_later(m, n, s, here, name@, entry_type, id);
                                    assert(s.is_dir(here));
                                    assert(dir_grew(n, s, here));
                                    lemma_link_walks(o, n, s, here, id, tail, follow, budget, r);
                                    assert(walks(o, s, here, tail, follow, budget as nat, r));
                                }
                                return r;
                            },
                        }
                    },
                }
            }
        }
        proof {
            assert(all.skip(i as int) =~= seq![]);
            grew_refl(self@);
            assert(walks(
                o,
                self@,
                current,
                all.skip(i as int),
                follow,
                budget as nat,
                Ok(Place::Directory(current)),
            ));
        }
        Ok(Place::Directory(current))
    }
}

impl Namespace {
    /// Follows a symlink that stands at `names[i]` in directory `d`, and then
    /// the names after it.
    fn follow_link(
        &mut self,
        d: DirectoryId,
        id: InodeId,
        names: &Vec<String>,
        i: usize,
        follow: bool,
        budget: u8,
    ) -> (r: Result<Place, FileSystemError>)
        requires
            old(self)@.wf(),
            old(self)@.is_dir(d),
            id < old(self)@.inodes.len(),
            i < names@.len(),
            budget > 0,
        ensures
            final(self)@.wf(),
            grew(old(self)@, final(self)@),
            r matches Ok(place) ==> place.wf(final(self)@),
            link_walks(
                old(self)@,
                final(self)@,
                d,
                id,
                strings(names@).skip(i + 1),
                follow,
                budget,
                r,
            ),
        decreases budget, 0nat,
    {
        let ghost o = self@;
        let ghost rest = strings(names@).skip(i + 1);
        let target: String = match self.read_target(id) {
            Ok(target) => target,
            Err(e) => {
                proof {
                    let v = o.inodes[id as int].filesystem;
                    let call = DriverCall::ReadSymlink {
                        inode: o.inodes[id as int],
                        reply: Err(e),
                    };
                    lemma_last_call(o, self@, v, call);
                }
                return Err(e);
            },
        };
        let ghost m = self@;
        let ghost v = o.inodes[id as int].filesystem;
        let ghost call = DriverCall::ReadSymlink {
            inode: o.inodes[id as int],
            reply: Ok(target@),
        };
        proof {
            lemma_last_call(o, m, v, call);
        }
        if target.as_str().unicode_len() == 0 {
            return Err(FileSystemError::InvalidPath);
        }
        let base: DirectoryId = if target.as_str().get_char(0) == '/' {
            self.root
        } else {
            d
        };
        let mut parts: Vec<String> = split_path(target.as_str());
        let count: usize = names.len();
        let mut j: usize = i + 1;
        assert(strings(parts@) =~= components(target@) + strings(names@).subrange(i + 1, j as int));
        while j < count
            invariant
                i < j <= count,
                count == names@.len(),
                strings(parts@) == components(target@) + strings(names@).subrange(
                    i + 1,
                    j as int,
                ),
            decreases count - j,
        {
            let ghost before = parts@;
            parts.push(names[j].clone());
            j = j + 1;
            proof {
                assert(strings(parts@) =~= strings(before).push(names@[j - 1]@));
                assert(strings(names@).subrange(i + 1, j as int) =~= strings(names@).subrange(
                    i + 1,
                    j - 1,
                ).push(names@[j - 1]@));
                assert(strings(parts@) =~= components(target@) + strings(names@).subrange(
                    i + 1,
                    j as int,
                ));
            }
        }
        assert(strings(names@).subrange(i + 1, j as int) =~= rest);
        let r = self.walk(base, &parts, follow, budget - 1);
        proof {
            let s = self@;
            grew_trans(o, m, s);
            assert(o.histories[v as int].is_prefix_of(m.histories[v as int]));
            assert(m.histories[v as int].is_prefix_of(s.histories[v as int]));
            lemma_asked_later(o, m, s, v, call);
            assert(s.is_dir(base));
            lemma_walks_earlier(
                o,
                m,
                s,
                base,
                components(target@) + rest,
                follow,
                (budget - 1) as nat,
                r,
            );
            assert(asked(o, s, v, call));
        }
        r
    }
}

/// What following a symlink comes to: the error of the driver, or where the
/// target and the names after the symlink lead.
spec fn link_walks(
    o: NamespaceModel,
    s: NamespaceModel,
    d: DirectoryId,
    id: InodeId,
    rest: Seq<Seq<char>>,
    follow: bool,
    budget: u8,
    r: Result<Place, FileSystemError>,
) -> bool {
    exists|reply: Result<Seq<char>, FileSystemError>|
        #[trigger] asked(
            o,
            s,
            o.inodes[id as int].filesystem,
            DriverCall::ReadSymlink { inode: o.inodes[id as int], reply },
        ) && match reply {
            Err(e) => r == Err::<Place, FileSystemError>(e),
            Ok(target) => if target.len() == 0 {
                r == Err::<Place, FileSystemError>(FileSystemError::InvalidPath)
            } else {
                walks(
                    o,
                    s,
                    link_base(s, d, target),
                    components(target) + rest,
                    follow,
                    (budget - 1) as nat,
                    r,
                )
            },
        }
}

proof fn lemma_last_call(
    o: NamespaceModel,
    s: NamespaceModel,
    volume: usize,
    call: DriverCall,
)
    requires
        volume < o.histories.len(),
        s == o.with_call(volume, call),
    ensures
        asked(o, s, volume, call),
{
    assert(s.histories[volume as int][o.histories[volume as int].len() as int] == call);
}

/// A symlink in its place among the names.
proof fn lemma_link_walks(
    o: NamespaceModel,
    n: NamespaceModel,
    s: NamespaceModel,
    d: DirectoryId,
    id: InodeId,
    tail: Seq<Seq<char>>,
    follow: bool,
    budget: u8,
    r: Result<Place, FileSystemError>,
)
    requires
        o.wf(),
        n.wf(),
        s.wf(),
        grew(o, n),
        grew(n, s),
        n.is_dir(d),
        s.is_dir(d),
        budget > 0,
        tail.len() > 0,
        tail[0] != dot(),
        tail[0] != dot_dot(),
        tail.len() > 1 || follow,
        s.directories[d as int].children matches Some(list) && has_child(list, tail[0])
            && list[child_index(list, tail[0])].inode == Some(id) && list[child_index(
            list,
            tail[0],
        )].entry_type is Symlink,
        id < n.inodes.len(),
        link_walks(n, s, d, id, tail.skip(1), follow, budget, r),
    ensures
        walks(o, s, d, tail, follow, budget as nat, r),
{
    let list = s.directories[d as int].children->0;
    let rest = tail.skip(1);
    lemma_child_index(list, tail[0]);
    assert(s.dir_wf(d));
    let v = n.inodes[id as int].filesystem;
    assert(s.inodes[id as int] == n.inodes[id as int]);
    assert(list[child_index(list, tail[0])].inode matches Some(k) && s.inodes[k as int].filesystem
        == s.volume_of(d));
    let reply = choose|reply: Result<Seq<char>, FileSystemError>|
        #[trigger] asked(
            n,
            s,
            v,
            DriverCall::ReadSymlink { inode: n.inodes[id as int], reply },
        ) && match reply {
            Err(e) => r == Err::<Place, FileSystemError>(e),
            Ok(target) => if target.len() == 0 {
                r == Err::<Place, FileSystemError>(FileSystemError::InvalidPath)
            } else {
                walks(
                    n,
                    s,
                    link_base(s, d, target),
                    components(target) + rest,
                    follow,
                    (budget - 1) as nat,
                    r,
                )
            },
        };
    let call = DriverCall::ReadSymlink { inode: n.inodes[id as int], reply };
    assert(n.inodes[id as int].filesystem < n.histories.len());
    assert(o.histories[v as int].is_prefix_of(n.histories[v as int]));
    assert(n.histories[v as int].is_prefix_of(s.histories[v as int]));
    lemma_asked_later(o, n, s, v, call);
    assert(asked(
        o,
        s,
        s.volume_of(d),
        DriverCall::ReadSymlink { inode: s.inodes[id as int], reply },
    ));
    if let Ok(target) = reply {
        if target.len() > 0 {
            lemma_walks_earlier(
                o,
                n,
                s,
                link_base(s, d, target),
                components(target) + rest,
                follow,
                (budget - 1) as nat,
                r,
            );
        }
    }
}

/// In `s`, the name leads from directory `d` to a loaded inode.
pub open spec fn leads_to(
    s: NamespaceModel,
    d: DirectoryId,
    name: Seq<char>,
    entry_type: DirectoryEntryType,
    id: InodeId,
) -> bool {
    s.directories[d as int].children matches Some(list) && has_child(list, name)
        && list[child_index(list, name)].inode == Some(id) && list[child_index(
        list,
        name,
    )].entry_type == entry_type
}

/// All that is in memory in `m`, or all but the files, can be reached in `n` by
/// the same names.
pub open spec fn keeps(m: NamespaceModel, n: NamespaceModel, files: bool) -> bool {
    &&& n.root == m.root
    &&& n.histories.len() == m.histories.len()
    &&& forall|v: int|
        0 <= v < m.histories.len() ==> (#[trigger] m.histories[v]).is_prefix_of(n.histories[v])
    &&& m.inodes.len() <= n.inodes.len()
    &&& forall|d: DirectoryId| #[trigger]
        m.is_dir(d) ==> {
            &&& n.is_dir(d)
            &&& n.inode_of(d) == m.inode_of(d)
            &&& n.directories[d as int].inode == m.directories[d as int].inode
            &&& n.directories[d as int].parent == m.directories[d as int].parent
            &&& n.directories[d as int].mount_root == m.directories[d as int].mount_root
        }
    &&& forall|d: DirectoryId, name: Seq<char>, t: DirectoryEntryType, id: InodeId|
        m.is_dir(d) && (files || !(t is File)) && #[trigger] leads_to(m, d, name, t, id)
            ==> leads_to(n, d, name, t, id) && n.inodes[id as int] == m.inodes[id as int]
}

/// What an entry leads to is in the table.
pub proof fn lemma_entry_in_range(
    m: NamespaceModel,
    d: DirectoryId,
    name: Seq<char>,
    t: DirectoryEntryType,
    id: InodeId,
)
    requires
        m.dir_wf(d),
        leads_to(m, d, name, t, id),
    ensures
        id < m.inodes.len(),
{
    let list = m.directories[d as int].children->0;
    lemma_child_index(list, name);
    assert(m.entries_wf(m.volume_of(d), list));
    assert(list[child_index(list, name)].inode == Some(id));
}

/// What drivers answer takes nothing away.
pub proof fn grew_keeps(m: NamespaceModel, n: NamespaceModel)
    requires
        m.wf(),
        n.wf(),
        grew(m, n),
    ensures
        keeps(m, n, true),
{
    assert forall|d: DirectoryId| #[trigger] m.is_dir(d) implies {
        &&& n.is_dir(d)
        &&& n.inode_of(d) == m.inode_of(d)
        &&& n.directories[d as int].inode == m.directories[d as int].inode
        &&& n.directories[d as int].parent == m.directories[d as int].parent
        &&& n.directories[d as int].mount_root == m.directories[d as int].mount_root
    } by {
        assert(n.is_dir(d));
        assert(dir_grew(m, n, d));
        assert(m.dir_wf(d));
    }
    assert forall|d: DirectoryId, name: Seq<char>, t: DirectoryEntryType, id: InodeId|
        m.is_dir(d) && #[trigger] leads_to(m, d, name, t, id) implies leads_to(
        n,
        d,
        name,
        t,
        id,
    ) && n.inodes[id as int] == m.inodes[id as int] by {
        lemma_entry_in_range(m, d, name, t, id);
        lemma_found_later(m, m, n, d, name, t, id);
    }
}

/// A path that leads somewhere leads there still when nothing in memory has
/// been taken away.
#[verifier::rlimit(80)]
pub proof fn walks_keep(
    o: NamespaceModel,
    m: NamespaceModel,
    n: NamespaceModel,
    d: DirectoryId,
    names: Seq<Seq<char>>,
    follow: bool,
    budget: nat,
    place: Place,
)
    requires
        m.wf(),
        keeps(m, n, place is Object),
        o.histories.len() == m.histories.len(),
        forall|v: int|
            0 <= v < o.histories.len() ==> (#[trigger] o.histories[v]).is_prefix_of(m.histories[v]),
        m.is_dir(d),
        walks(o, m, d, names, follow, budget, Ok(place)),
    ensures
        walks(o, n, d, names, follow, budget, Ok(place)),
    decreases budget, names.len(),
{
    let r = Ok::<Place, FileSystemError>(place);
    assert(m.dir_wf(d));
    assert(n.is_dir(d));
    let v = m.volume_of(d);
    assert(m.inodes[m.directories[d as int].inode as int].filesystem < m.histories.len());
    assert(n.inode_of(d) == m.inode_of(d));
    if names.len() > 0 {
        let name = names[0];
        let rest = names.skip(1);
        if name == dot() {
            walks_keep(o, m, n, d, rest, follow, budget, place);
            assert(walks(o, n, d, names, follow, budget, r));
        } else if name == dot_dot() {
            walks_keep(o, m, n, m.up(d), rest, follow, budget, place);
            assert(n.up(d) == m.up(d));
            assert(walks(o, n, d, names, follow, budget, r));
        } else {
            let list = m.directories[d as int].children->0;
            lemma_child_index(list, name);
            let entry = list[child_index(list, name)];
            let id = entry.inode->0;
            assert(leads_to(m, d, name, entry.entry_type, id));
            assert(place is Object || !(entry.entry_type is File));
            assert(leads_to(n, d, name, entry.entry_type, id));
            assert(id < m.inodes.len());
            match entry.entry_type {
                DirectoryEntryType::File => {
                    assert(walks(o, n, d, names, follow, budget, r));
                },
                DirectoryEntryType::Directory => {
                    let child = choose|child: DirectoryId|
                        #![trigger m.directories[child as int]]
                        m.is_dir(child) && m.directories[child as int].inode == id && walks(
                            o,
                            m,
                            m.enter(child),
                            rest,
                            follow,
                            budget,
                            r,
                        );
                    assert(m.dir_wf(child));
                    walks_keep(o, m, n, m.enter(child), rest, follow, budget, place);
                    assert(n.is_dir(child));
                    assert(n.enter(child) == m.enter(child));
                    assert(n.directories[child as int].inode == id);
                    assert(walks(o, n, d, names, follow, budget, r));
                },
                DirectoryEntryType::Symlink => {
                    if !(rest.len() == 0 && !follow) {
                        let reply = choose|reply: Result<Seq<char>, FileSystemError>|
                            #[trigger] asked(
                                o,
                                m,
                                v,
                                DriverCall::ReadSymlink { inode: m.inodes[id as int], reply },
                            ) && match reply {
                                Err(e) => r == Err::<Place, FileSystemError>(e),
                                Ok(target) => if target.len() == 0 {
                                    r == Err::<Place, FileSystemError>(FileSystemError::InvalidPath)
                                } else {
                                    walks(
                                        o,
                                        m,
                                        link_base(m, d, target),
                                        components(target) + rest,
                                        follow,
                                        (budget - 1) as nat,
                                        r,
                                    )
                                },
                            };
                        let call = DriverCall::ReadSymlink { inode: m.inodes[id as int], reply };
                        assert(o.histories[v as int].is_prefix_of(m.histories[v as int]));
                        assert(m.histories[v as int].is_prefix_of(n.histories[v as int]));
                        lemma_asked_later(o, m, n, v, call);
                        assert(n.inodes[id as int] == m.inodes[id as int]);
                        assert(asked(o, n, v, call));
                        let target = reply->Ok_0;
                        walks_keep(
                            o,
                            m,
                            n,
                            link_base(m, d, target),
                            components(target) + rest,
                            follow,
                            (budget - 1) as nat,
                            place,
                        );
                        assert(n.volume_of(d) == v);
                        assert(link_base(n, d, target) == link_base(m, d, target));
                    }
                    assert(walks(o, n, d, names, follow, budget, r));
                },
            }
        }
    }
}

/// A driver answered with this error between `o` and `s`.
pub open spec fn driver_failed(
    o: NamespaceModel,
    s: NamespaceModel,
    error: FileSystemError,
) -> bool {
    exists|volume: usize, call: DriverCall|
        #[trigger] asked(o, s, volume, call) && match call {
            DriverCall::ReadDir { directory: _, reply } => reply == Err::<
                Seq<EntryModel>,
                FileSystemError,
            >(error),
            DriverCall::LoadInode { inode_number: _, reply } => reply == Err::<
                super::inode::Inode,
                FileSystemError,
            >(error),
            DriverCall::ReadSymlink { inode: _, reply } => reply == Err::<
                Seq<char>,
                FileSystemError,
            >(error),
            _ => false,
        }
}

/// A resolution fails of itself only because a name is missing, because a name
/// follows that of a file, because there are too many symlinks, or because a
/// path is empty. Every other error is a driver's. In particular, going up
/// never fails.
pub proof fn other_errors_are_drivers(
    o: NamespaceModel,
    s: NamespaceModel,
    d: DirectoryId,
    names: Seq<Seq<char>>,
    follow: bool,
    budget: nat,
    error: FileSystemError,
)
    requires
        walks(o, s, d, names, follow, budget, Err(error)),
    ensures
        error is NotFound || error is NotADirectory || error is TooManySymlinks
            || error is InvalidPath || driver_failed(o, s, error),
    decreases budget, names.len(),
{
    if names.len() > 0 {
        let name = names[0];
        let rest = names.skip(1);
        let r = Err::<Place, FileSystemError>(error);
        if name == dot() {
            other_errors_are_drivers(o, s, d, rest, follow, budget, error);
        } else if name == dot_dot() {
            other_errors_are_drivers(o, s, s.up(d), rest, follow, budget, error);
        } else if let Some(list) = s.directories[d as int].children {
            if has_child(list, name) {
                let entry = list[child_index(list, name)];
                if let Some(id) = entry.inode {
                    match entry.entry_type {
                        DirectoryEntryType::File => {},
                        DirectoryEntryType::Directory => {
                            let child = choose|child: DirectoryId|
                                #![trigger s.directories[child as int]]
                                s.is_dir(child) && s.directories[child as int].inode == id && walks(
                                    o,
                                    s,
                                    s.enter(child),
                                    rest,
                                    follow,
                                    budget,
                                    r,
                                );
                            other_errors_are_drivers(
                                o,
                                s,
                                s.enter(child),
                                rest,
                                follow,
                                budget,
                                error,
                            );
                        },
                        DirectoryEntryType::Symlink => {
                            if !(rest.len() == 0 && !follow) && budget != 0 {
                                let reply = choose|reply: Result<Seq<char>, FileSystemError>|
                                    #[trigger] asked(
                                        o,
                                        s,
                                        s.volume_of(d),
                                        DriverCall::ReadSymlink {
                                            inode: s.inodes[id as int],
                                            reply,
                                        },
                                    ) && match reply {
                                        Err(e) => r == Err::<Place, FileSystemError>(e),
                                        Ok(target) => if target.len() == 0 {
                                            r == Err::<Place, FileSystemError>(
                                                FileSystemError::InvalidPath,
                                            )
                                        } else {
                                            walks(
                                                o,
                                                s,
                                                link_base(s, d, target),
                                                components(target) + rest,
                                                follow,
                                                (budget - 1) as nat,
                                                r,
                                            )
                                        },
                                    };
                                if let Ok(target) = reply {
                                    if target.len() > 0 {
                                        other_errors_are_drivers(
                                            o,
                                            s,
                                            link_base(s, d, target),
                                            components(target) + rest,
                                            follow,
                                            (budget - 1) as nat,
                                            error,
                                        );
                                    }
                                }
                            }
                        },
                    }
                }
            }
        }
    }
}

/// Two calls ask a driver the same.
pub open spec fn same_question(a: DriverCall, b: DriverCall) -> bool {
    match (a, b) {
        (
            DriverCall::ReadDir { directory: x, .. },
            DriverCall::ReadDir { directory: y, .. },
        ) => x == y,
        (
            DriverCall::LoadInode { inode_number: x, .. },
            DriverCall::LoadInode { inode_number: y, .. },
        ) => x == y,
        (DriverCall::ReadSymlink { inode: x, .. }, DriverCall::ReadSymlink { inode: y, .. }) => x
            == y,
        _ => false,
    }
}

/// Between `o` and `s` the drivers gave the same answer whenever they were
/// asked the same.
pub open spec fn steady(o: NamespaceModel, s: NamespaceModel) -> bool {
    forall|volume: VolumeId, a: DriverCall, b: DriverCall|
        #[trigger] asked(o, s, volume, a) && #[trigger] asked(o, s, volume, b) && same_question(
            a,
            b,
        ) ==> a == b
}

/// Where drivers give the same answer whenever they are asked the same, names
/// lead to one place, or fail with one error.
pub proof fn walks_lead_to_one_place(
    o: NamespaceModel,
    s: NamespaceModel,
    d: DirectoryId,
    names: Seq<Seq<char>>,
    follow: bool,
    budget: nat,
    r: Result<Place, FileSystemError>,
    q: Result<Place, FileSystemError>,
)
    requires
        s.wf(),
        s.is_dir(d),
        steady(o, s),
        walks(o, s, d, names, follow, budget, r),
        walks(o, s, d, names, follow, budget, q),
    ensures
        r == q,
    decreases budget, names.len(),
{
    assert(s.dir_wf(d));
    let v = s.volume_of(d);
    if names.len() > 0 {
        let name = names[0];
        let rest = names.skip(1);
        if name == dot() {
            walks_lead_to_one_place(o, s, d, rest, follow, budget, r, q);
        } else if name == dot_dot() {
            walks_lead_to_one_place(o, s, s.up(d), rest, follow, budget, r, q);
        } else {
            match s.directories[d as int].children {
                None => {
                    let (e, f) = (r->Err_0, q->Err_0);
                    let directory = s.inode_of(d);
                    let a = DriverCall::ReadDir { directory, reply: Err(e) };
                    let b = DriverCall::ReadDir { directory, reply: Err(f) };
                    assert(asked(o, s, v, a) && asked(o, s, v, b));
                    assert(a == b);
                },
                Some(list) => {
                    lemma_child_index(list, name);
                    if has_child(list, name) {
                        let entry = list[child_index(list, name)];
                        let inode_number = entry.inode_number;
                        match entry.inode {
                            None => {
                                let (e, f) = (r->Err_0, q->Err_0);
                                let a = DriverCall::LoadInode { inode_number, reply: Err(e) };
                                let b = DriverCall::LoadInode { inode_number, reply: Err(f) };
                                assert(asked(o, s, v, a) && asked(o, s, v, b));
                                assert(a == b);
                            },
                            Some(id) => match entry.entry_type {
                                DirectoryEntryType::File => {},
                                DirectoryEntryType::Directory => {
                                    let child = choose|child: DirectoryId|
                                        #![trigger s.directories[child as int]]
                                        s.is_dir(child) && s.directories[child as int].inode == id
                                            && walks(
                                            o,
                                            s,
                                            s.enter(child),
                                            rest,
                                            follow,
                                            budget,
                                            r,
                                        );
                                    let other = choose|child: DirectoryId|
                                        #![trigger s.directories[child as int]]
                                        s.is_dir(child) && s.directories[child as int].inode == id
                                            && walks(
                                            o,
                                            s,
                                            s.enter(child),
                                            rest,
                                            follow,
                                            budget,
                                            q,
                                        );
                                    assert(s.dir_wf(child));
                                    assert(s.is_dir(child) && s.is_dir(other));
                                    assert(child == other);
                                    walks_lead_to_one_place(
                                        o,
                                        s,
                                        s.enter(child),
                                        rest,
                                        follow,
                                        budget,
                                        r,
                                        q,
                                    );
                                },
                                DirectoryEntryType::Symlink => {
                                    if !(rest.len() == 0 && !follow) && budget != 0 {
                                        let x = link_reply(o, s, d, id, rest, follow, budget, r);
                                        let y = link_reply(o, s, d, id, rest, follow, budget, q);
                                        let inode = s.inodes[id as int];
                                        let a = DriverCall::ReadSymlink { inode, reply: x };
                                        let b = DriverCall::ReadSymlink { inode, reply: y };
                                        assert(asked(o, s, v, a) && asked(o, s, v, b));
                                        assert(a == b);
                                        if let Ok(target) = x {
                                            if target.len() > 0 {
                                                walks_lead_to_one_place(
                                                    o,
                                                    s,
                                                    link_base(s, d, target),
                                                    components(target) + rest,
                                                    follow,
                                                    (budget - 1) as nat,
                                                    r,
                                                    q,
                                                );
                                            }
                                        }
                                    }
                                },
                            },
                        }
                    }
                },
            }
        }
    }
}

/// The answer about a symlink that its resolution went by.
pub open spec fn link_reply(
    o: NamespaceModel,
    s: NamespaceModel,
    d: DirectoryId,
    id: InodeId,
    rest: Seq<Seq<char>>,
    follow: bool,
    budget: nat,
    r: Result<Place, FileSystemError>,
) -> Result<Seq<char>, FileSystemError> {
    choose|reply: Result<Seq<char>, FileSystemError>|
        #[trigger] asked(
            o,
            s,
            s.volume_of(d),
            DriverCall::ReadSymlink { inode: s.inodes[id as int], reply },
        ) && match reply {
            Err(e) => r == Err::<Place, FileSystemError>(e),
            Ok(target) => if target.len() == 0 {
                r == Err::<Place, FileSystemError>(FileSystemError::InvalidPath)
            } else {
                walks(
                    o,
                    s,
                    link_base(s, d, target),
                    components(target) + rest,
                    follow,
                    (budget - 1) as nat,
                    r,
                )
            },
        }
}

/// The answer about a symlink that its resolution went by was given.
pub proof fn lemma_link_reply(
    o: NamespaceModel,
    s: NamespaceModel,
    d: DirectoryId,
    names: Seq<Seq<char>>,
    follow: bool,
    budget: nat,
    id: InodeId,
    r: Result<Place, FileSystemError>,
)
    requires
        names.len() > 0,
        names[0] != dot(),
        names[0] != dot_dot(),
        leads_to(s, d, names[0], DirectoryEntryType::Symlink, id),
        names.len() > 1 || follow,
        budget > 0,
        walks(o, s, d, names, follow, budget, r),
    ensures
        ({
            let rest = names.skip(1);
            let reply = link_reply(o, s, d, id, rest, follow, budget, r);
            &&& asked(
                o,
                s,
                s.volume_of(d),
                DriverCall::ReadSymlink { inode: s.inodes[id as int], reply },
            )
            &&& match reply {
                Err(e) => r == Err::<Place, FileSystemError>(e),
                Ok(target) => if target.len() == 0 {
                    r == Err::<Place, FileSystemError>(FileSystemError::InvalidPath)
                } else {
                    walks(
                        o,
                        s,
                        link_base(s, d, target),
                        components(target) + rest,
                        follow,
                        (budget - 1) as nat,
                        r,
                    )
                },
            }
        }),
{
}

/// The names lead to `r`, whatever is left of the budget.
#[verifier::opaque]
pub open spec fn always_walks(
    o: NamespaceModel,
    s: NamespaceModel,
    d: DirectoryId,
    names: Seq<Seq<char>>,
    follow: bool,
    budget: nat,
    r: Result<Place, FileSystemError>,
) -> bool {
    forall|b: nat| b <= budget ==> #[trigger] walks(o, s, d, names, follow, b, r)
}

/// More names lead on from where the names before them led, if they do so
/// whatever is left of the budget.
pub proof fn walks_append(
    o: NamespaceModel,
    s: NamespaceModel,
    d: DirectoryId,
    names: Seq<Seq<char>>,
    more: Seq<Seq<char>>,
    follow: bool,
    budget: nat,
    end: DirectoryId,
    r: Result<Place, FileSystemError>,
)
    requires
        s.wf(),
        s.is_dir(d),
        more.len() > 0,
        walks(o, s, d, names, false, budget, Ok(Place::Directory(end))),
        always_walks(o, s, end, more, follow, budget, r),
    ensures
        walks(o, s, d, names + more, follow, budget, r),
    decreases budget, names.len(),
{
    assert(always_walks(o, s, end, more, follow, (budget - 1) as nat, r) || budget == 0) by {
        reveal(always_walks);
    }
    assert(walks(o, s, end, more, follow, budget, r)) by {
        reveal(always_walks);
    }
    let q = Ok::<Place, FileSystemError>(Place::Directory(end));
    let all = names + more;
    assert(s.dir_wf(d));
    if names.len() == 0 {
        assert(all =~= more);
        assert(d == end);
        assert(walks(o, s, end, more, follow, budget, r));
    } else {
        let name = names[0];
        let rest = names.skip(1);
        assert(all.skip(1) =~= rest + more);
        assert(all[0] == name);
        if name == dot() {
            walks_append(o, s, d, rest, more, follow, budget, end, r);
        } else if name == dot_dot() {
            walks_append(o, s, s.up(d), rest, more, follow, budget, end, r);
        } else {
            let list = s.directories[d as int].children->0;
            lemma_child_index(list, name);
            let entry = list[child_index(list, name)];
            let x = entry.inode->0;
            match entry.entry_type {
                DirectoryEntryType::File => {},
                DirectoryEntryType::Directory => {
                    let child = choose|child: DirectoryId|
                        #![trigger s.directories[child as int]]
                        s.is_dir(child) && s.directories[child as int].inode == x && walks(
                            o,
                            s,
                            s.enter(child),
                            rest,
                            false,
                            budget,
                            q,
                        );
                    assert(s.dir_wf(child));
                    walks_append(o, s, s.enter(child), rest, more, follow, budget, end, r);
                },
                DirectoryEntryType::Symlink => {
                    if rest.len() > 0 {
                        lemma_link_reply(o, s, d, names, false, budget, x, q);
                        let reply = link_reply(o, s, d, x, rest, false, budget, q);
                        let target = reply->Ok_0;
                        walks_append(
                            o,
                            s,
                            link_base(s, d, target),
                            components(target) + rest,
                            more,
                            follow,
                            (budget - 1) as nat,
                            end,
                            r,
                        );
                        assert((components(target) + rest) + more =~= components(target) + (rest
                            + more));
                        assert(asked(
                            o,
                            s,
                            s.volume_of(d),
                            DriverCall::ReadSymlink { inode: s.inodes[x as int], reply },
                        ));
                    }
                },
            }
        }
    }
}

/// Where names and more names lead, the more names lead from where the names
/// lead, if drivers give the same answer whenever they are asked the same.
#[verifier::spinoff_prover]
#[verifier::rlimit(60)]
pub proof fn walks_split(
    o: NamespaceModel,
    s: NamespaceModel,
    d: DirectoryId,
    names: Seq<Seq<char>>,
    more: Seq<Seq<char>>,
    follow: bool,
    budget: nat,
    end: DirectoryId,
    r: Result<Place, FileSystemError>,
) -> (left: nat)
    requires
        s.wf(),
        s.is_dir(d),
        steady(o, s),
        more.len() > 0,
        walks(o, s, d, names, false, budget, Ok(Place::Directory(end))),
        walks(o, s, d, names + more, follow, budget, r),
    ensures
        s.is_dir(end),
        left <= budget,
        walks(o, s, end, more, follow, left, r),
    decreases budget, names.len(),
{
    let q = Ok::<Place, FileSystemError>(Place::Directory(end));
    let all = names + more;
    assert(s.dir_wf(d));
    if names.len() == 0 {
        assert(all =~= more);
        budget
    } else {
        let name = names[0];
        let rest = names.skip(1);
        assert(all.skip(1) =~= rest + more);
        assert(all[0] == name);
        if name == dot() {
            walks_split(o, s, d, rest, more, follow, budget, end, r)
        } else if name == dot_dot() {
            walks_split(o, s, s.up(d), rest, more, follow, budget, end, r)
        } else {
            let list = s.directories[d as int].children->0;
            lemma_child_index(list, name);
            let entry = list[child_index(list, name)];
            let x = entry.inode->0;
            match entry.entry_type {
                DirectoryEntryType::File => 0,
                DirectoryEntryType::Directory => {
                    let child = choose|child: DirectoryId|
                        #![trigger s.directories[child as int]]
                        s.is_dir(child) && s.directories[child as int].inode == x && walks(
                            o,
                            s,
                            s.enter(child),
                            rest,
                            false,
                            budget,
                            q,
                        );
                    let other = choose|child: DirectoryId|
                        #![trigger s.directories[child as int]]
                        s.is_dir(child) && s.directories[child as int].inode == x && walks(
                            o,
                            s,
                            s.enter(child),
                            rest + more,
                            follow,
                            budget,
                            r,
                        );
                    assert(s.dir_wf(child));
                    assert(s.is_dir(child) && s.is_dir(other));
                    assert(child == other);
                    walks_split(o, s, s.enter(child), rest, more, follow, budget, end, r)
                },
                DirectoryEntryType::Symlink => {
                    if rest.len() > 0 {
                        lemma_link_reply(o, s, d, names, false, budget, x, q);
                        lemma_link_reply(o, s, d, all, follow, budget, x, r);
                        let u = link_reply(o, s, d, x, rest, false, budget, q);
                        let w = link_reply(o, s, d, x, rest + more, follow, budget, r);
                        let inode = s.inodes[x as int];
                        let a = DriverCall::ReadSymlink { inode, reply: u };
                        let b = DriverCall::ReadSymlink { inode, reply: w };
                        let v = s.volume_of(d);
                        assert(asked(o, s, v, a) && asked(o, s, v, b));
                        assert(a == b);
                        let target = u->Ok_0;
                        assert((components(target) + rest) + more =~= components(target) + (rest
                            + more));
                        walks_split(
                            o,
                            s,
                            link_base(s, d, target),
                            components(target) + rest,
                            more,
                            follow,
                            (budget - 1) as nat,
                            end,
                            r,
                        )
                    } else {
                        0
                    }
                },
            }
        }
    }
}

/// A name, and then `..`.
pub open spec fn there_and_back(name: Seq<char>) -> Seq<Seq<char>> {
    Seq::empty().push(name).push(dot_dot())
}

/// The directory that an entry stands for lies below the one that lists it.
proof fn lemma_child_lies_below(
    s: NamespaceModel,
    d: DirectoryId,
    name: Seq<char>,
    id: InodeId,
    c: DirectoryId,
)
    requires
        s.wf(),
        s.is_dir(d),
        leads_to(s, d, name, DirectoryEntryType::Directory, id),
        s.is_dir(c),
        s.directories[c as int].inode == id,
    ensures
        s.directories[c as int].parent == Some(d),
        !s.inodes[id as int].mount_flag ==> s.enter(c) == c,
        s.up(c) == d,
{
    reveal(NamespaceModel::tree_wf);
    let list = s.directories[d as int].children->0;
    lemma_child_index(list, name);
    assert(s.lists_directory(d, child_index(list, name), id));
    assert(s.dir_wf(c));
}

proof fn lemma_there_and_back(
    o: NamespaceModel,
    s: NamespaceModel,
    d: DirectoryId,
    name: Seq<char>,
    id: InodeId,
    follow: bool,
    budget: nat,
    r: Result<Place, FileSystemError>,
)
    requires
        s.wf(),
        s.is_dir(d),
        name != dot(),
        name != dot_dot(),
        leads_to(s, d, name, DirectoryEntryType::Directory, id),
        !s.inodes[id as int].mount_flag,
    ensures
        walks(o, s, d, there_and_back(name), follow, budget, r) ==> r == Ok::<
            Place,
            FileSystemError,
        >(Place::Directory(d)),
        s.has_dir(id) && r == Ok::<Place, FileSystemError>(Place::Directory(d)) ==> walks(
            o,
            s,
            d,
            there_and_back(name),
            follow,
            budget,
            r,
        ),
{
    let more = there_and_back(name);
    let rest = more.skip(1);
    assert(rest[0] == dot_dot());
    assert(rest.skip(1) =~= seq![]);
    assert(dot() != dot_dot()) by {
        assert(dot().len() != dot_dot().len());
    }
    if s.has_dir(id) {
        let c = choose|c: DirectoryId| #[trigger]
            s.is_dir(c) && s.directories[c as int].inode == id;
        lemma_child_lies_below(s, d, name, id, c);
        assert(walks(o, s, s.enter(c), rest, follow, budget, r) == walks(
            o,
            s,
            d,
            rest.skip(1),
            follow,
            budget,
            r,
        ));
    }
    if walks(o, s, d, more, follow, budget, r) {
        let c = choose|c: DirectoryId|
            #![trigger s.directories[c as int]]
            s.is_dir(c) && s.directories[c as int].inode == id && walks(
                o,
                s,
                s.enter(c),
                rest,
                follow,
                budget,
                r,
            );
        lemma_child_lies_below(s, d, name, id, c);
    }
}

pub proof fn lemma_always_more(
    o: NamespaceModel,
    s: NamespaceModel,
    d: DirectoryId,
    names: Seq<Seq<char>>,
    follow: bool,
    budget: nat,
    r: Result<Place, FileSystemError>,
)
    requires
        budget > 0 ==> always_walks(o, s, d, names, follow, (budget - 1) as nat, r),
        walks(o, s, d, names, follow, budget, r),
    ensures
        always_walks(o, s, d, names, follow, budget, r),
{
    reveal(always_walks);
    assert forall|b: nat| b <= budget implies #[trigger] walks(o, s, d, names, follow, b, r) by {
        if b < budget {
            assert(b <= (budget - 1) as nat);
        }
    }
}

proof fn lemma_always_back(
    o: NamespaceModel,
    s: NamespaceModel,
    d: DirectoryId,
    name: Seq<char>,
    id: InodeId,
    follow: bool,
    budget: nat,
)
    requires
        s.wf(),
        s.is_dir(d),
        name != dot(),
        name != dot_dot(),
        leads_to(s, d, name, DirectoryEntryType::Directory, id),
        s.has_dir(id),
        !s.inodes[id as int].mount_flag,
    ensures
        always_walks(
            o,
            s,
            d,
            there_and_back(name),
            follow,
            budget,
            Ok(Place::Directory(d)),
        ),
    decreases budget,
{
    let q = Ok::<Place, FileSystemError>(Place::Directory(d));
    if budget > 0 {
        lemma_always_back(o, s, d, name, id, follow, (budget - 1) as nat);
    }
    lemma_there_and_back(o, s, d, name, id, follow, budget, q);
    lemma_always_more(o, s, d, there_and_back(name), follow, budget, q);
}

/// The name of a directory, and then `..`, lead back: to where the names before
/// them lead. Nothing must be mounted on the directory, since `..` leads from
/// the root of a volume to the directory it is mounted on.
pub proof fn dot_dot_leads_back(
    o: NamespaceModel,
    s: NamespaceModel,
    d: DirectoryId,
    names: Seq<Seq<char>>,
    name: Seq<char>,
    follow: bool,
    budget: nat,
    end: DirectoryId,
    id: InodeId,
)
    requires
        s.wf(),
        s.is_dir(d),
        walks(o, s, d, names, false, budget, Ok(Place::Directory(end))),
        s.is_dir(end),
        name != dot(),
        name != dot_dot(),
        leads_to(s, end, name, DirectoryEntryType::Directory, id),
        s.has_dir(id),
        !s.inodes[id as int].mount_flag,
    ensures
        walks(
            o,
            s,
            d,
            names + there_and_back(name),
            follow,
            budget,
            Ok(Place::Directory(end)),
        ),
{
    let q = Ok::<Place, FileSystemError>(Place::Directory(end));
    lemma_always_back(o, s, end, name, id, follow, budget);
    walks_append(o, s, d, names, there_and_back(name), follow, budget, end, q);
}

/// The name of a directory, and then `..`, lead nowhere else than back, if
/// drivers give the same answer whenever they are asked the same.
pub proof fn dot_dot_only_leads_back(
    o: NamespaceModel,
    s: NamespaceModel,
    d: DirectoryId,
    names: Seq<Seq<char>>,
    name: Seq<char>,
    follow: bool,
    budget: nat,
    end: DirectoryId,
    id: InodeId,
    r: Result<Place, FileSystemError>,
)
    requires
        s.wf(),
        s.is_dir(d),
        steady(o, s),
        walks(o, s, d, names, false, budget, Ok(Place::Directory(end))),
        name != dot(),
        name != dot_dot(),
        leads_to(s, end, name, DirectoryEntryType::Directory, id),
        !s.inodes[id as int].mount_flag,
        walks(o, s, d, names + there_and_back(name), follow, budget, r),
    ensures
        r == Ok::<Place, FileSystemError>(Place::Directory(end)),
{
    let more = there_and_back(name);
    let left = walks_split(o, s, d, names, more, follow, budget, end, r);
    lemma_there_and_back(o, s, end, name, id, follow, left, r);
}

/// What entries say of their inodes is what the inodes say, and the inodes of
/// directories are directories.
pub open spec fn types_agree(s: NamespaceModel) -> bool {
    &&& forall|d: DirectoryId, name: Seq<char>, entry_type: DirectoryEntryType, id: InodeId|
        s.is_dir(d) && #[trigger] leads_to(s, d, name, entry_type, id) ==> entry_type_of(
            s.inodes[id as int].inode_type,
        ) == entry_type
    &&& forall|d: DirectoryId| #[trigger] s.is_dir(d) ==> s.inode_of(d).inode_type is Directory
}

/// Names that are followed to the end do not lead to a symlink.
pub proof fn followed_names_end_at_no_symlink(
    o: NamespaceModel,
    s: NamespaceModel,
    d: DirectoryId,
    names: Seq<Seq<char>>,
    budget: nat,
    place: Place,
)
    requires
        s.wf(),
        s.is_dir(d),
        types_agree(s),
        walks(o, s, d, names, true, budget, Ok(place)),
    ensures
        !(s.inodes[place.inode_in(s) as int].inode_type is Symlink),
    decreases budget, names.len(),
{
    let r = Ok::<Place, FileSystemError>(place);
    assert(s.dir_wf(d));
    if names.len() > 0 {
        let name = names[0];
        let rest = names.skip(1);
        if name == dot() {
            followed_names_end_at_no_symlink(o, s, d, rest, budget, place);
        } else if name == dot_dot() {
            followed_names_end_at_no_symlink(o, s, s.up(d), rest, budget, place);
        } else {
            let list = s.directories[d as int].children->0;
            lemma_child_index(list, name);
            let entry = list[child_index(list, name)];
            let x = entry.inode->0;
            assert(leads_to(s, d, name, entry.entry_type, x));
            match entry.entry_type {
                DirectoryEntryType::File => {},
                DirectoryEntryType::Directory => {
                    let child = choose|child: DirectoryId|
                        #![trigger s.directories[child as int]]
                        s.is_dir(child) && s.directories[child as int].inode == x && walks(
                            o,
                            s,
                            s.enter(child),
                            rest,
                            true,
                            budget,
                            r,
                        );
                    assert(s.dir_wf(child));
                    followed_names_end_at_no_symlink(o, s, s.enter(child), rest, budget, place);
                },
                DirectoryEntryType::Symlink => {
                    lemma_link_reply(o, s, d, names, true, budget, x, r);
                    let reply = link_reply(o, s, d, x, rest, true, budget, r);
                    let target = reply->Ok_0;
                    followed_names_end_at_no_symlink(
                        o,
                        s,
                        link_base(s, d, target),
                        components(target) + rest,
                        (budget - 1) as nat,
                        place,
                    );
                },
            }
        }
    }
}

/// Each step from directory `d`, with these names left, leads to one of the
/// states.
pub open spec fn steps_on(
    o: NamespaceModel,
    s: NamespaceModel,
    d: DirectoryId,
    names: Seq<Seq<char>>,
    follow: bool,
    states: spec_fn(DirectoryId, Seq<Seq<char>>) -> bool,
) -> bool {
    let name = names[0];
    let rest = names.skip(1);
    if name == dot() {
        states(d, rest)
    } else if name == dot_dot() {
        states(s.up(d), rest)
    } else {
        match s.directories[d as int].children {
            None => false,
            Some(list) => has_child(list, name) && {
                let entry = list[child_index(list, name)];
                match entry.inode {
                    None => false,
                    Some(id) => match entry.entry_type {
                        DirectoryEntryType::File => false,
                        DirectoryEntryType::Directory => forall|c: DirectoryId| #[trigger]
                            s.is_dir(c) && s.directories[c as int].inode == id ==> states(
                                s.enter(c),
                                rest,
                            ),
                        DirectoryEntryType::Symlink => (rest.len() > 0 || follow) && forall|
                            reply: Result<Seq<char>, FileSystemError>,
                        |
                            #[trigger] asked(
                                o,
                                s,
                                s.volume_of(d),
                                DriverCall::ReadSymlink { inode: s.inodes[id as int], reply },
                            ) ==> (reply matches Ok(target) && target.len() > 0 && states(
                                link_base(s, d, target),
                                components(target) + rest,
                            )),
                    },
                }
            },
        }
    }
}

/// Every step from one of the states leads to one of the states. A state is a
/// directory, and the names that are left.
pub open spec fn never_ends(
    o: NamespaceModel,
    s: NamespaceModel,
    follow: bool,
    states: spec_fn(DirectoryId, Seq<Seq<char>>) -> bool,
) -> bool {
    forall|d: DirectoryId, names: Seq<Seq<char>>| #[trigger]
        states(d, names) ==> s.is_dir(d) && names.len() > 0 && steps_on(
            o,
            s,
            d,
            names,
            follow,
            states,
        )
}

/// A cycle of symlinks, or any other walk that has no end, fails: there are too
/// many symlinks.
pub proof fn endless_walks_are_refused(
    o: NamespaceModel,
    s: NamespaceModel,
    states: spec_fn(DirectoryId, Seq<Seq<char>>) -> bool,
    d: DirectoryId,
    names: Seq<Seq<char>>,
    follow: bool,
    budget: nat,
    r: Result<Place, FileSystemError>,
)
    requires
        s.wf(),
        never_ends(o, s, follow, states),
        states(d, names),
        walks(o, s, d, names, follow, budget, r),
    ensures
        r == Err::<Place, FileSystemError>(FileSystemError::TooManySymlinks),
    decreases budget, names.len(),
{
    let rest = names.skip(1);
    let name = names[0];
    if name == dot() {
        endless_walks_are_refused(o, s, states, d, rest, follow, budget, r);
    } else if name == dot_dot() {
        endless_walks_are_refused(o, s, states, s.up(d), rest, follow, budget, r);
    } else {
        let list = s.directories[d as int].children->0;
        let entry = list[child_index(list, name)];
        let x = entry.inode->0;
        match entry.entry_type {
            DirectoryEntryType::File => {},
            DirectoryEntryType::Directory => {
                let child = choose|child: DirectoryId|
                    #![trigger s.directories[child as int]]
                    s.is_dir(child) && s.directories[child as int].inode == x && walks(
                        o,
                        s,
                        s.enter(child),
                        rest,
                        follow,
                        budget,
                        r,
                    );
                assert(s.is_dir(child));
                endless_walks_are_refused(o, s, states, s.enter(child), rest, follow, budget, r);
            },
            DirectoryEntryType::Symlink => {
                if budget > 0 {
                    lemma_link_reply(o, s, d, names, follow, budget, x, r);
                    let reply = link_reply(o, s, d, x, rest, follow, budget, r);
                    let target = reply->Ok_0;
                    endless_walks_are_refused(
                        o,
                        s,
                        states,
                        link_base(s, d, target),
                        components(target) + rest,
                        follow,
                        (budget - 1) as nat,
                        r,
                    );
                }
            },
        }
    }
}

} // verus!

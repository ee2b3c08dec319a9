//! Mounting and unmounting by path.

use vstd::prelude::*;

use super::directory::{child_index, has_child, lemma_child_index, DirectoryId};
use super::driver::{Device, DriverCall, Instance};
use super::inode::{Inode, InodeId, VolumeId};
use super::mounting::{
    asked_for_root, lemma_mount_stays, mounted, mounts_at, mounts_on, roots, unmount_undoes_mount,
    unmounts_at, unmounts_from, volume_is_open, with_mount, without_mount,
};
use super::namespace::{asked, dir_grew, grew, NamespaceModel};
use super::path::{components, dot, dot_dot};
use super::resolver::{
    grew_keeps, keeps, leads_to, lemma_entry_in_range, lemma_link_reply, link_base, link_reply,
    path_walks, same_question, start_of, walks, Place, MAX_SYMLINK_DEPTH,
};
use super::types::{DirectoryEntryType, FileSystemError, OpenFileKey};
use super::vfs::{as_directory, resolves_dir, wd_wf, VirtualFileSystem};

verus! {

/// All the names are `.`.
pub open spec fn all_stay(names: Seq<Seq<char>>) -> bool {
    forall|i: int| 0 <= i < names.len() ==> #[trigger] names[i] == dot()
}

/// The names lead from directory `d` through the entry of directory `h`, and
/// there are names left that lead on.
pub open spec fn goes_through(
    o: NamespaceModel,
    s: NamespaceModel,
    d: DirectoryId,
    names: Seq<Seq<char>>,
    budget: nat,
    h: DirectoryId,
) -> bool
    decreases budget, names.len(),
{
    if names.len() == 0 {
        false
    } else {
        let name = names[0];
        let rest = names.skip(1);
        if name == dot() {
            goes_through(o, s, d, rest, budget, h)
        } else if name == dot_dot() {
            goes_through(o, s, s.up(d), rest, budget, h)
        } else {
            match s.directories[d as int].children {
                None => false,
                Some(list) => {
                    let entry = list[child_index(list, name)];
                    &&& has_child(list, name)
                    &&& entry.inode is Some
                    &&& if entry.inode == Some(s.directories[h as int].inode) {
                        rest.len() > 0 && !(entry.entry_type is Directory && all_stay(rest))
                    } else {
                        match entry.entry_type {
                            DirectoryEntryType::File => false,
                            DirectoryEntryType::Directory => exists|child: DirectoryId|
                                #![trigger s.directories[child as int]]
                                s.is_dir(child) && Some(s.directories[child as int].inode)
                                    == entry.inode && goes_through(
                                    o,
                                    s,
                                    s.enter(child),
                                    rest,
                                    budget,
                                    h,
                                ),
                            DirectoryEntryType::Symlink => rest.len() > 0 && budget > 0 && exists|
                                target: Seq<char>,
                            |
                                #[trigger] asked(
                                    o,
                                    s,
                                    s.volume_of(d),
                                    DriverCall::ReadSymlink {
                                        inode: s.inodes[entry.inode->0 as int],
                                        reply: Ok(target),
                                    },
                                ) && goes_through(
                                    o,
                                    s,
                                    link_base(s, d, target),
                                    components(target) + rest,
                                    (budget - 1) as nat,
                                    h,
                                ),
                        }
                    }
                },
            }
        }
    }
}

/// There is a symlink on the way that the names lead from directory `d`.
pub open spec fn meets_link(s: NamespaceModel, d: DirectoryId, names: Seq<Seq<char>>) -> bool
    decreases names.len(),
{
    if names.len() == 0 {
        false
    } else {
        let name = names[0];
        let rest = names.skip(1);
        if name == dot() {
            meets_link(s, d, rest)
        } else if name == dot_dot() {
            meets_link(s, s.up(d), rest)
        } else {
            match s.directories[d as int].children {
                None => false,
                Some(list) => {
                    let entry = list[child_index(list, name)];
                    &&& has_child(list, name)
                    &&& match entry.entry_type {
                        DirectoryEntryType::File => false,
                        DirectoryEntryType::Directory => exists|child: DirectoryId|
                            #![trigger s.directories[child as int]]
                            s.is_dir(child) && Some(s.directories[child as int].inode)
                                == entry.inode && meets_link(s, s.enter(child), rest),
                        DirectoryEntryType::Symlink => rest.len() > 0,
                    }
                },
            }
        }
    }
}

/// Since `o`, the drivers of the volumes that `o` has gave the same answer
/// whenever they were asked the same.
pub open spec fn steady_volumes(o: NamespaceModel, s: NamespaceModel) -> bool {
    forall|volume: VolumeId, a: DriverCall, b: DriverCall|
        volume < o.histories.len() && #[trigger] asked(o, s, volume, a) && #[trigger] asked(
            o,
            s,
            volume,
            b,
        ) && same_question(a, b) ==> a == b
}

/// The symlinks that were read on the way from `o` to `n` had the targets that
/// they had on the way from `w` to `k`.
pub open spec fn targets_agree(
    o: NamespaceModel,
    n: NamespaceModel,
    w: NamespaceModel,
    k: NamespaceModel,
) -> bool {
    forall|
        v: VolumeId,
        x: InodeId,
        a: Result<Seq<char>, FileSystemError>,
        b: Result<Seq<char>, FileSystemError>,
    |
        v < n.histories.len() && #[trigger] asked(
            o,
            n,
            v,
            DriverCall::ReadSymlink { inode: n.inodes[x as int], reply: a },
        ) && #[trigger] asked(
            w,
            k,
            v,
            DriverCall::ReadSymlink { inode: n.inodes[x as int], reply: b },
        ) ==> a == b
}

/// What is in namespace `n` stands in `k` where it stood, but that a volume may
/// have been mounted on directory `h`, or not be any more.
pub open spec fn survives(n: NamespaceModel, k: NamespaceModel, h: DirectoryId) -> bool {
    &&& k.root == n.root
    &&& forall|x: DirectoryId| #[trigger]
        n.is_dir(x) ==> {
            &&& k.is_dir(x)
            &&& k.directories[x as int].inode == n.directories[x as int].inode
            &&& k.directories[x as int].parent == n.directories[x as int].parent
            &&& x != h ==> k.directories[x as int].mount_root == n.directories[x as int].mount_root
            &&& k.volume_of(x) == n.volume_of(x)
        }
    &&& forall|x: DirectoryId, name: Seq<char>, t: DirectoryEntryType, id: InodeId|
        n.is_dir(x) && #[trigger] leads_to(n, x, name, t, id) ==> leads_to(k, x, name, t, id) && (id
            != n.directories[h as int].inode ==> k.inodes[id as int] == n.inodes[id as int])
}

/// Names that are all `.` stay.
proof fn lemma_stay(
    o: NamespaceModel,
    s: NamespaceModel,
    d: DirectoryId,
    names: Seq<Seq<char>>,
    budget: nat,
    r: Result<Place, FileSystemError>,
)
    requires
        all_stay(names),
    ensures
        walks(o, s, d, names, false, budget, r) <==> r == Ok::<Place, FileSystemError>(
            Place::Directory(d),
        ),
    decreases names.len(),
{
    if names.len() > 0 {
        assert(names[0] == dot());
        assert forall|i: int| 0 <= i < names.skip(1).len() implies #[trigger] names.skip(1)[i]
            == dot() by {
            assert(names.skip(1)[i] == names[i + 1]);
        }
        lemma_stay(o, s, d, names.skip(1), budget, r);
    }
}

/// Names that led to directory `h` still lead there, or to the volume that has
/// been mounted on it, unless they go through it.
#[verifier::spinoff_prover]
#[verifier::rlimit(60)]
proof fn lemma_still_leads(
    o: NamespaceModel,
    n: NamespaceModel,
    m: NamespaceModel,
    w: NamespaceModel,
    k: NamespaceModel,
    d: DirectoryId,
    names: Seq<Seq<char>>,
    budget: nat,
    h: DirectoryId,
    r: Result<Place, FileSystemError>,
)
    requires
        n.wf(),
        k.wf(),
        n.is_dir(h),
        n.directories[h as int].mount_root is None,
        survives(n, m, h),
        survives(n, k, h),
        m.wf(),
        n.is_dir(d),
        forall|v: VolumeId, call: DriverCall|
            v < n.histories.len() && #[trigger] asked(o, n, v, call) ==> asked(o, m, v, call),
        meets_link(m, d, names) ==> targets_agree(o, n, w, k),
        !goes_through(o, m, d, names, budget, h),
        walks(o, n, d, names, false, budget, Ok(Place::Directory(h))),
        walks(w, k, d, names, false, budget, r),
    ensures
        r == Ok::<Place, FileSystemError>(Place::Directory(h)) || r == Ok::<Place, FileSystemError>(
            Place::Directory(k.enter(h)),
        ),
    decreases budget, names.len(),
{
    let there = Ok::<Place, FileSystemError>(Place::Directory(h));
    assert(n.dir_wf(d));
    assert(k.is_dir(d) && m.is_dir(d));
    if names.len() > 0 {
        let name = names[0];
        let rest = names.skip(1);
        if name == dot() {
            lemma_still_leads(o, n, m, w, k, d, rest, budget, h, r);
        } else if name == dot_dot() {
            assert(k.up(d) == n.up(d) && m.up(d) == n.up(d));
            lemma_still_leads(o, n, m, w, k, n.up(d), rest, budget, h, r);
        } else {
            let list = n.directories[d as int].children->0;
            lemma_child_index(list, name);
            let entry = list[child_index(list, name)];
            let id = entry.inode->0;
            assert(leads_to(n, d, name, entry.entry_type, id));
            assert(leads_to(m, d, name, entry.entry_type, id));
            assert(leads_to(k, d, name, entry.entry_type, id));
            match entry.entry_type {
                DirectoryEntryType::File => {},
                DirectoryEntryType::Directory => {
                    let child = choose|child: DirectoryId|
                        #![trigger n.directories[child as int]]
                        n.is_dir(child) && n.directories[child as int].inode == id && walks(
                            o,
                            n,
                            n.enter(child),
                            rest,
                            false,
                            budget,
                            there,
                        );
                    let other = choose|child: DirectoryId|
                        #![trigger k.directories[child as int]]
                        k.is_dir(child) && k.directories[child as int].inode == id && walks(
                            w,
                            k,
                            k.enter(child),
                            rest,
                            false,
                            budget,
                            r,
                        );
                    assert(n.is_dir(child));
                    assert(n.dir_wf(child));
                    assert(k.is_dir(child) && k.is_dir(other));
                    assert(child == other);
                    assert(m.is_dir(child) && m.directories[child as int].inode == id);
                    assert(m.directories[h as int].inode == n.directories[h as int].inode);
                    if id == n.directories[h as int].inode {
                        assert(n.is_dir(child) && n.is_dir(h));
                        assert(child == h);
                        assert(all_stay(rest));
                        lemma_stay(w, k, k.enter(h), rest, budget, r);
                    } else {
                        assert(k.enter(child) == n.enter(child));
                        assert(m.enter(child) == n.enter(child));
                        assert(n.is_dir(n.enter(child)));
                        lemma_still_leads(o, n, m, w, k, n.enter(child), rest, budget, h, r);
                    }
                },
                DirectoryEntryType::Symlink => {
                    assert(rest.len() > 0 && budget > 0);
                    lemma_link_reply(o, n, d, names, false, budget, id, there);
                    lemma_link_reply(w, k, d, names, false, budget, id, r);
                    let a = link_reply(o, n, d, id, rest, false, budget, there);
                    let b = link_reply(w, k, d, id, rest, false, budget, r);
                    let v = n.volume_of(d);
                    let inode = n.inodes[id as int];
                    assert(m.directories[h as int].inode == n.directories[h as int].inode);
                    assert(id != n.directories[h as int].inode);
                    assert(meets_link(m, d, names));
                    assert(asked(o, n, v, DriverCall::ReadSymlink { inode, reply: a }));
                    assert(asked(w, k, v, DriverCall::ReadSymlink { inode, reply: b }));
                    assert(n.inodes[n.directories[d as int].inode as int].filesystem
                        < n.histories.len());
                    assert(a == b);
                    let target = a->Ok_0;
                    assert(asked(
                        o,
                        m,
                        m.volume_of(d),
                        DriverCall::ReadSymlink { inode: m.inodes[id as int], reply: Ok(target) },
                    ));
                    let base = link_base(n, d, target);
                    assert(link_base(k, d, target) == base && link_base(m, d, target) == base);
                    assert(n.is_dir(n.root));
                    lemma_still_leads(
                        o,
                        n,
                        m,
                        w,
                        k,
                        base,
                        components(target) + rest,
                        (budget - 1) as nat,
                        h,
                        r,
                    );
                },
            }
        }
    }
}

/// The directory on which the newest volume was mounted.
pub open spec fn newest_host(s: NamespaceModel) -> DirectoryId {
    s.directories.last().parent->0
}

/// A volume was mounted on directory `h`, to which the path led in namespace
/// `n`.
pub open spec fn mounted_by_path(
    before: &VirtualFileSystem,
    between: &VirtualFileSystem,
    path: Seq<char>,
    working_directory: Option<DirectoryId>,
    n: NamespaceModel,
    h: DirectoryId,
    history: Seq<DriverCall>,
    root: Inode,
) -> bool {
    &&& n.wf()
    &&& grew(before.namespace@, n)
    &&& n.is_dir(h)
    &&& resolves_dir(
        before.namespace@,
        n,
        path,
        working_directory,
        MAX_SYMLINK_DEPTH as nat,
        Ok(h),
    )
    &&& n.host(h) == h
    &&& n.directories[h as int].mount_root is None
    &&& !n.inode_of(h).mount_flag
    &&& root.inode_type is Directory
    &&& mounted(before, between, n, h, history, root)
    &&& between.open_files == before.open_files
}

/// A directory that is not a volume's root hosts itself.
proof fn lemma_free_host(n: NamespaceModel, d: DirectoryId)
    requires
        n.wf(),
        n.is_dir(d),
        !n.inode_of(n.host(d)).mount_flag,
    ensures
        n.host(d) == d,
        n.directories[d as int].mount_root is None,
{
    assert(n.dir_wf(d));
    if let Some(p) = n.directories[d as int].parent {
        assert(n.is_dir(p));
        assert(n.dir_wf(p));
    }
}

proof fn lemma_mounted_by_path(
    before: &VirtualFileSystem,
    between: &VirtualFileSystem,
    path: Seq<char>,
    working_directory: Option<DirectoryId>,
    driver_name: Seq<char>,
    device: Device,
) -> (w: (NamespaceModel, DirectoryId, Seq<DriverCall>, Inode))
    requires
        mounts_at(before, between, path, working_directory, driver_name, device, Ok(())),
    ensures
        mounted_by_path(before, between, path, working_directory, w.0, w.1, w.2, w.3),
{
    let o = before.namespace@;
    let budget = MAX_SYMLINK_DEPTH as nat;
    let ok = Ok::<(), FileSystemError>(());
    let (n, q) = choose|n: NamespaceModel, q: Result<DirectoryId, FileSystemError>|
        grew(o, n) && n.wf() && #[trigger] resolves_dir(
            o,
            n,
            path,
            working_directory,
            budget,
            q,
        ) && match q {
            Err(e) => between.namespace@ == n && between.same_tables(before) && ok == Err::<
                (),
                FileSystemError,
            >(e),
            Ok(d) => n.is_dir(d) && mounts_on(
                before,
                between,
                n,
                n.host(d),
                driver_name,
                device,
                ok,
            ),
        };
    let h = q->Ok_0;
    lemma_free_host(n, h);
    let reply = choose|reply: Result<Instance, FileSystemError>|
        #[trigger] before.drivers@[driver_name].mounts_as(device, reply) && match reply {
            Err(e) => {
                &&& ok == Err::<(), FileSystemError>(e)
                &&& between.namespace@ == n
                &&& between.same_tables(before)
            },
            Ok(instance) => roots(before, between, n, h, instance, ok),
        };
    let instance = reply->Ok_0;
    let (used, root) = choose|used: Instance, root: Result<Inode, FileSystemError>| {
        &&& #[trigger] asked_for_root(instance, used, root)
        &&& match root {
            Ok(inode) if inode.inode_type is Directory => {
                &&& ok == Ok::<(), FileSystemError>(())
                &&& mounted(before, between, n, h, used.filesystem.history(), inode)
            },
            _ => {
                &&& ok == Err::<(), FileSystemError>(
                    match root {
                        Ok(_) => FileSystemError::NotADirectory,
                        Err(e) => e,
                    },
                )
                &&& between.namespace@ == n
                &&& between.mounts == before.mounts
                &&& between.mounted_root_index == before.mounted_root_index
            },
        }
    };
    (n, h, used.filesystem.history(), root->Ok_0)
}

/// No file of a volume is open before it is mounted.
proof fn lemma_new_volume_is_not_open(before: &VirtualFileSystem)
    requires
        before.wf(),
    ensures
        !volume_is_open(before.open_files@, before.next_filesystem_id),
{
    let s = before.namespace@;
    assert forall|key: OpenFileKey| #[trigger]
        before.open_files@.contains_key(key) implies key.filesystem_id
        != before.next_filesystem_id by {
        let id = before.files@[before.open_files@[key] as int].inode;
        let v = s.inodes[id as int].filesystem as int;
        assert(s.ids[v] < before.next_filesystem_id);
    }
}

/// Mounting a volume leaves everything where it stood.
proof fn lemma_survives_mount(
    n: NamespaceModel,
    h: DirectoryId,
    id: u64,
    history: Seq<DriverCall>,
    root: Inode,
)
    requires
        n.wf(),
        n.is_dir(h),
        n.directories.len() < usize::MAX,
    ensures
        survives(n, with_mount(n, h, id, history, root), h),
{
    let w = with_mount(n, h, id, history, root);
    assert(n.dir_wf(h));
    assert forall|x: DirectoryId| #[trigger] n.is_dir(x) implies w.is_dir(x) && w.volume_of(x)
        == n.volume_of(x) by {
        assert(n.dir_wf(x));
    }
    assert forall|x: DirectoryId, name: Seq<char>, t: DirectoryEntryType, k: InodeId|
        n.is_dir(x) && #[trigger] leads_to(n, x, name, t, k) implies leads_to(w, x, name, t, k) && (k
        != n.directories[h as int].inode ==> w.inodes[k as int] == n.inodes[k as int]) by {
        assert(n.dir_wf(x));
        lemma_entry_in_range(n, x, name, t, k);
    }
}

/// So does looking things up.
proof fn lemma_survives_growth(
    n: NamespaceModel,
    w: NamespaceModel,
    k: NamespaceModel,
    h: DirectoryId,
)
    requires
        survives(n, w, h),
        keeps(w, k, true),
    ensures
        survives(n, k, h),
{
    assert forall|x: DirectoryId| #[trigger] n.is_dir(x) implies k.is_dir(x) && k.volume_of(x)
        == n.volume_of(x) by {
        assert(w.is_dir(x));
    }
    assert forall|x: DirectoryId, name: Seq<char>, t: DirectoryEntryType, id: InodeId|
        n.is_dir(x) && #[trigger] leads_to(n, x, name, t, id) implies leads_to(k, x, name, t, id)
        && (id != n.directories[h as int].inode ==> k.inodes[id as int] == n.inodes[id as int]) by {
        assert(w.is_dir(x));
        assert(leads_to(w, x, name, t, id));
    }
}

/// So does unmounting.
proof fn lemma_survives_unmount(
    n: NamespaceModel,
    k: NamespaceModel,
    s: NamespaceModel,
    h: DirectoryId,
)
    requires
        n.is_dir(h),
        survives(n, k, h),
        forall|x: DirectoryId| #[trigger] k.is_dir(x) ==> k.dir_wf(x),
        s.root == k.root,
        s.directories == without_mount(k, h).directories,
        s.inodes == without_mount(k, h).inodes,
    ensures
        survives(n, s, h),
{
    assert(k.is_dir(h));
    assert forall|x: DirectoryId| #[trigger] n.is_dir(x) implies s.is_dir(x) && s.volume_of(x)
        == n.volume_of(x) by {
        assert(k.is_dir(x));
        assert(k.dir_wf(x));
    }
    assert forall|x: DirectoryId, name: Seq<char>, t: DirectoryEntryType, id: InodeId|
        n.is_dir(x) && #[trigger] leads_to(n, x, name, t, id) implies leads_to(s, x, name, t, id)
        && (id != n.directories[h as int].inode ==> s.inodes[id as int] == n.inodes[id as int]) by {
        assert(k.is_dir(x));
        assert(k.dir_wf(x));
        assert(leads_to(k, x, name, t, id));
        lemma_entry_in_range(k, x, name, t, id);
    }
}

/// The volumes of `n` were only asked more in `s`.
pub open spec fn asked_more(n: NamespaceModel, s: NamespaceModel) -> bool {
    &&& n.histories.len() <= s.histories.len()
    &&& forall|v: int|
        0 <= v < n.histories.len() ==> (#[trigger] n.histories[v]).is_prefix_of(s.histories[v])
}

/// Steady drivers give symlinks the same targets.
proof fn lemma_targets_agree(
    o: NamespaceModel,
    n: NamespaceModel,
    w: NamespaceModel,
    k: NamespaceModel,
    s: NamespaceModel,
)
    requires
        o.histories.len() == n.histories.len(),
        asked_more(o, n),
        asked_more(n, w),
        asked_more(w, k),
        asked_more(k, s),
        steady_volumes(o, s),
    ensures
        targets_agree(o, n, w, k),
{
    assert forall|
        v: VolumeId,
        x: InodeId,
        a: Result<Seq<char>, FileSystemError>,
        b: Result<Seq<char>, FileSystemError>,
    |
        v < n.histories.len() && #[trigger] asked(
            o,
            n,
            v,
            DriverCall::ReadSymlink { inode: n.inodes[x as int], reply: a },
        ) && #[trigger] asked(
            w,
            k,
            v,
            DriverCall::ReadSymlink { inode: n.inodes[x as int], reply: b },
        ) implies a == b by {
        let p = DriverCall::ReadSymlink { inode: n.inodes[x as int], reply: a };
        let q = DriverCall::ReadSymlink { inode: n.inodes[x as int], reply: b };
        let y = v as int;
        assert(o.histories[y].is_prefix_of(n.histories[y]));
        assert(n.histories[y].is_prefix_of(w.histories[y]));
        assert(w.histories[y].is_prefix_of(k.histories[y]));
        assert(k.histories[y].is_prefix_of(s.histories[y]));
        let i = choose|i: int|
            o.histories[y].len() <= i < n.histories[y].len() && #[trigger] n.histories[y][i] == p;
        let j = choose|j: int|
            w.histories[y].len() <= j < k.histories[y].len() && #[trigger] k.histories[y][j] == q;
        assert(w.histories[y][i] == p);
        assert(k.histories[y][i] == p);
        assert(s.histories[y][i] == p);
        assert(s.histories[y][j] == q);
        assert(asked(o, s, v, p) && asked(o, s, v, q));
        assert(same_question(p, q));
    }
}

/// Unmounting only asks drivers more.
proof fn lemma_unmount_asks_more(
    before: &VirtualFileSystem,
    after: &VirtualFileSystem,
    k: NamespaceModel,
    h: DirectoryId,
    r: Result<(), FileSystemError>,
)
    requires
        k.wf(),
        k.is_dir(h),
        unmounts_from(before, after, k, h, r),
    ensures
        asked_more(k, after.namespace@),
{
    assert(k.dir_wf(h));
    let s = after.namespace@;
    if s != k {
        let root = k.directories[h as int].mount_root->0;
        assert(k.is_dir(root));
        assert(k.dir_wf(root));
        let v = k.volume_of(root) as int;
        assert(k.inodes[k.directories[root as int].inode as int].filesystem < k.histories.len());
        assert(k.histories[v].is_prefix_of(s.histories[v]));
        assert forall|i: int| 0 <= i < k.histories.len() implies (
        #[trigger] k.histories[i]).is_prefix_of(s.histories[i]) by {}
    }
}

/// What a host hosts is a directory.
proof fn lemma_host_is_dir(k: NamespaceModel, d: DirectoryId)
    requires
        k.wf(),
        k.is_dir(d),
    ensures
        k.is_dir(k.host(d)),
{
    assert(k.dir_wf(d));
}

/// Mounting only asks drivers more.
proof fn lemma_mount_asks_more(
    n: NamespaceModel,
    h: DirectoryId,
    id: u64,
    history: Seq<DriverCall>,
    root: Inode,
)
    ensures
        asked_more(n, with_mount(n, h, id, history, root)),
{
    let w = with_mount(n, h, id, history, root);
    assert forall|i: int| 0 <= i < n.histories.len() implies (
    #[trigger] n.histories[i]).is_prefix_of(w.histories[i]) by {}
}

/// The path that a volume was mounted by resolves to the directory, or to the
/// volume that is mounted on it now.
proof fn lemma_path_still_leads(
    before: &VirtualFileSystem,
    between: &VirtualFileSystem,
    path: Seq<char>,
    working_directory: Option<DirectoryId>,
    n: NamespaceModel,
    h: DirectoryId,
    history: Seq<DriverCall>,
    root: Inode,
    w: NamespaceModel,
    k: NamespaceModel,
    q: Result<DirectoryId, FileSystemError>,
)
    requires
        between.namespace@.wf(),
        k.wf(),
        wd_wf(before.namespace@, working_directory),
        mounted_by_path(before, between, path, working_directory, n, h, history, root),
        !goes_through(
            before.namespace@,
            between.namespace@,
            start_of(between.namespace@, path, working_directory),
            components(path),
            MAX_SYMLINK_DEPTH as nat,
            h,
        ),
        meets_link(
            between.namespace@,
            start_of(between.namespace@, path, working_directory),
            components(path),
        ) ==> targets_agree(before.namespace@, n, w, k),
        survives(n, k, h),
        k.inode_of(h).inode_type is Directory,
        k.inode_of(k.enter(h)).inode_type is Directory,
        resolves_dir(w, k, path, working_directory, MAX_SYMLINK_DEPTH as nat, q),
    ensures
        q == Ok::<DirectoryId, FileSystemError>(h) || q == Ok::<DirectoryId, FileSystemError>(
            k.enter(h),
        ),
{
    let o = before.namespace@;
    let m = between.namespace@;
    let budget = MAX_SYMLINK_DEPTH as nat;
    let u = choose|u: Result<Place, FileSystemError>|
        #[trigger] path_walks(o, n, path, working_directory, false, budget, u) && Ok::<
            DirectoryId,
            FileSystemError,
        >(h) == as_directory(n, u);
    assert(u == Ok::<Place, FileSystemError>(Place::Directory(h)));
    let x = choose|x: Result<Place, FileSystemError>|
        #[trigger] path_walks(w, k, path, working_directory, false, budget, x) && q == as_directory(
            k,
            x,
        );
    let start = start_of(n, path, working_directory);
    assert(n.is_dir(n.root));
    assert(n.is_dir(start)) by {
        if let Some(d) = working_directory {
            assert(o.is_dir(d));
        }
    }
    lemma_survives_mount(n, h, before.next_filesystem_id, history, root);
    lemma_mount_asks_more(n, h, before.next_filesystem_id, history, root);
    assert forall|v: VolumeId, call: DriverCall|
        v < n.histories.len() && #[trigger] asked(o, n, v, call) implies asked(o, m, v, call) by {
        let i = choose|i: int|
            o.histories[v as int].len() <= i < n.histories[v as int].len() && #[trigger]
                n.histories[v as int][i] == call;
        assert(m.histories[v as int][i] == call);
    }
    lemma_still_leads(o, n, m, w, k, start, components(path), budget, h, x);
}

/// What the mount of a volume on directory `h` comes to, after more was looked
/// up.
proof fn lemma_mount_shows(
    n: NamespaceModel,
    k: NamespaceModel,
    h: DirectoryId,
    id: u64,
    history: Seq<DriverCall>,
    root: Inode,
)
    requires
        n.wf(),
        n.is_dir(h),
        n.host(h) == h,
        !n.inode_of(h).mount_flag,
        n.directories.len() < usize::MAX,
        n.inodes.len() < usize::MAX,
        with_mount(n, h, id, history, root).wf(),
        k.wf(),
        grew(with_mount(n, h, id, history, root), k),
    ensures
        survives(n, k, h),
        k.is_dir(h),
        k.enter(h) == n.directories.len(),
        k.host(h) == h,
        k.host(k.enter(h)) == h,
        k.inode_of(h).inode_type == n.inode_of(h).inode_type,
        k.inode_of(k.enter(h)).inode_type == root.inode_type,
{
    let w = with_mount(n, h, id, history, root);
    let m = n.directories.len() as DirectoryId;
    lemma_survives_mount(n, h, id, history, root);
    grew_keeps(w, k);
    lemma_survives_growth(n, w, k, h);
    assert(n.dir_wf(h));
    assert(w.is_dir(h) && w.is_dir(m));
    assert(w.directories[m as int].parent == Some(h));
    assert(w.directories[h as int].mount_root == Some(m));
    assert(w.inode_of(m).inode_type == root.inode_type);
    assert(w.inode_of(h).inode_type == n.inode_of(h).inode_type);
    if let Some(p) = n.directories[h as int].parent {
        assert(n.is_dir(p));
    }
}

/// What unmounting the path comes to: the volume that was mounted by it is
/// unmounted.
proof fn lemma_unmounts_the_mount(
    before: &VirtualFileSystem,
    between: &VirtualFileSystem,
    after: &VirtualFileSystem,
    path: Seq<char>,
    working_directory: Option<DirectoryId>,
    n: NamespaceModel,
    h: DirectoryId,
    history: Seq<DriverCall>,
    root: Inode,
    r: Result<(), FileSystemError>,
) -> (k: NamespaceModel)
    requires
        between.namespace@.wf(),
        wd_wf(before.namespace@, working_directory),
        mounted_by_path(before, between, path, working_directory, n, h, history, root),
        n.inode_of(h).inode_type is Directory,
        unmounts_at(between, after, path, working_directory, r),
        !goes_through(
            before.namespace@,
            between.namespace@,
            start_of(between.namespace@, path, working_directory),
            components(path),
            MAX_SYMLINK_DEPTH as nat,
            h,
        ),
        meets_link(
            between.namespace@,
            start_of(between.namespace@, path, working_directory),
            components(path),
        ) ==> steady_volumes(before.namespace@, after.namespace@),
    ensures
        k.wf(),
        grew(between.namespace@, k),
        survives(n, k, h),
        k.inode_of(h).inode_type is Directory,
        asked_more(k, after.namespace@),
        unmounts_from(between, after, k, h, r),
{
    let o = before.namespace@;
    let w = between.namespace@;
    let id = before.next_filesystem_id;
    let budget = MAX_SYMLINK_DEPTH as nat;
    let (k, q) = choose|k: NamespaceModel, q: Result<DirectoryId, FileSystemError>|
        grew(w, k) && k.wf() && #[trigger] resolves_dir(
            w,
            k,
            path,
            working_directory,
            budget,
            q,
        ) && match q {
            Err(e) => after.namespace@ == k && after.same_tables(between) && r == Err::<
                (),
                FileSystemError,
            >(e),
            Ok(d) => k.is_dir(d) && unmounts_from(between, after, k, k.host(d), r),
        };
    lemma_mount_shows(n, k, h, id, history, root);
    assert(asked_more(k, after.namespace@)) by {
        if let Ok(d) = q {
            lemma_host_is_dir(k, d);
            lemma_unmount_asks_more(between, after, k, k.host(d), r);
        }
    }
    if steady_volumes(o, after.namespace@) {
        lemma_mount_asks_more(n, h, id, history, root);
        lemma_targets_agree(o, n, w, k, after.namespace@);
    }
    lemma_path_still_leads(
        before,
        between,
        path,
        working_directory,
        n,
        h,
        history,
        root,
        w,
        k,
        q,
    );
    k
}

/// Directory `d` stands in `s` where it stands in `o`.
pub open spec fn same_place(o: NamespaceModel, s: NamespaceModel, d: DirectoryId) -> bool {
    &&& s.is_dir(d)
    &&& s.inode_of(d) == o.inode_of(d)
    &&& s.directories[d as int].inode == o.directories[d as int].inode
    &&& s.directories[d as int].parent == o.directories[d as int].parent
    &&& s.directories[d as int].mount_root == o.directories[d as int].mount_root
}

/// Since `w`, the driver of the newest volume was asked to unmount last of all,
/// and not before.
pub open spec fn unmounted_last(
    w: NamespaceModel,
    s: NamespaceModel,
    r: Result<(), FileSystemError>,
) -> bool {
    let earlier = w.histories.last();
    let calls = s.histories.last();
    &&& s.histories.len() == w.histories.len()
    &&& earlier.len() < calls.len()
    &&& earlier.is_prefix_of(calls)
    &&& calls.last() == (DriverCall::Unmount { reply: r })
    &&& forall|i: int|
        earlier.len() <= i < calls.len() - 1 ==> !((#[trigger] calls[i]) is Unmount)
}

/// Unmounting a path undoes mounting it. Both mount tables are what they were,
/// and so is every directory: its inode, its parent and what is mounted on it.
/// Of all calls since the mount, the driver of the volume was asked to unmount
/// by the last one only, and what it answered is the result.
///
/// The path must not go through the directory that the volume is mounted on:
/// what follows there is looked up in the volume. Where there are symlinks on
/// the way, the drivers have to give the same answer whenever they are asked the
/// same.
pub proof fn unmounting_a_path_undoes_mounting_it(
    before: &VirtualFileSystem,
    between: &VirtualFileSystem,
    after: &VirtualFileSystem,
    path: Seq<char>,
    working_directory: Option<DirectoryId>,
    driver_name: Seq<char>,
    device: Device,
    r: Result<(), FileSystemError>,
)
    requires
        before.wf(),
        between.wf(),
        between.namespace@.histories.len() <= usize::MAX,
        wd_wf(before.namespace@, working_directory),
        mounts_at(before, between, path, working_directory, driver_name, device, Ok(())),
        unmounts_at(between, after, path, working_directory, r),
        !goes_through(
            before.namespace@,
            between.namespace@,
            start_of(between.namespace@, path, working_directory),
            components(path),
            MAX_SYMLINK_DEPTH as nat,
            newest_host(between.namespace@),
        ),
        meets_link(
            between.namespace@,
            start_of(between.namespace@, path, working_directory),
            components(path),
        ) ==> steady_volumes(before.namespace@, after.namespace@),
    ensures
        after.mounts@ == before.mounts@,
        after.mounted_root_index@ == before.mounted_root_index@,
        forall|d: DirectoryId| #[trigger]
            before.namespace@.is_dir(d) ==> same_place(before.namespace@, after.namespace@, d),
        unmounted_last(between.namespace@, after.namespace@, r),
{
    let (n, h, history, root) = lemma_mounted_by_path(
        before,
        between,
        path,
        working_directory,
        driver_name,
        device,
    );
    assert(newest_host(between.namespace@) == h);
    lemma_resolved_is_directory(before.namespace@, n, path, working_directory, h);
    let k = lemma_unmounts_the_mount(
        before,
        between,
        after,
        path,
        working_directory,
        n,
        h,
        history,
        root,
        r,
    );
    lemma_new_volume_is_not_open(before);
    unmount_undoes_mount(before, between, after, n, k, h, history, root, r);
    lemma_same_places(before.namespace@, n, after.namespace@);
}

/// What a path to a directory resolves to is a directory by its inode.
proof fn lemma_resolved_is_directory(
    o: NamespaceModel,
    n: NamespaceModel,
    path: Seq<char>,
    working_directory: Option<DirectoryId>,
    h: DirectoryId,
)
    requires
        resolves_dir(o, n, path, working_directory, MAX_SYMLINK_DEPTH as nat, Ok(h)),
    ensures
        n.inode_of(h).inode_type is Directory,
{
}

proof fn lemma_same_places(o: NamespaceModel, n: NamespaceModel, s: NamespaceModel)
    requires
        o.wf(),
        grew(o, n),
        forall|d: DirectoryId| #[trigger] n.is_dir(d) ==> same_place(n, s, d),
    ensures
        forall|d: DirectoryId| #[trigger] o.is_dir(d) ==> same_place(o, s, d),
{
    assert forall|d: DirectoryId| #[trigger] o.is_dir(d) implies same_place(o, s, d) by {
        assert(n.is_dir(d));
        assert(dir_grew(o, n, d));
        assert(o.dir_wf(d));
        assert(n.inode_of(d) == o.inode_of(d));
    }
}

/// Once the volume is unmounted, the directory is an ordinary one.
proof fn lemma_after_unmount(
    before: &VirtualFileSystem,
    between: &VirtualFileSystem,
    after: &VirtualFileSystem,
    n: NamespaceModel,
    k: NamespaceModel,
    h: DirectoryId,
    history: Seq<DriverCall>,
    root: Inode,
    r: Result<(), FileSystemError>,
)
    requires
        n.wf(),
        k.wf(),
        n.is_dir(h),
        !n.inode_of(h).mount_flag,
        n.directories.len() < usize::MAX,
        n.inodes.len() < usize::MAX,
        n.histories.len() < usize::MAX,
        mounted(before, between, n, h, history, root),
        grew(between.namespace@, k),
        survives(n, k, h),
        !volume_is_open(between.open_files@, before.next_filesystem_id),
        unmounts_from(between, after, k, h, r),
    ensures
        survives(n, after.namespace@, h),
        after.namespace@.directories[h as int].mount_root is None,
        !after.namespace@.inode_of(h).mount_flag,
        after.namespace@.inode_of(h).inode_type == k.inode_of(h).inode_type,
{
    lemma_mount_stays(n, k, h, before.next_filesystem_id, history, root);
    assert(k.ids[n.histories.len() as int] == before.next_filesystem_id);
    assert(k.is_dir(h));
    assert(k.dir_wf(h));
    lemma_survives_unmount(n, k, after.namespace@, h);
}

/// After a path was mounted and unmounted, nothing is mounted there: it cannot
/// be unmounted again. No driver is asked to, and nothing changes but what is
/// looked up on the way.
pub proof fn second_unmount_is_refused(
    before: &VirtualFileSystem,
    between: &VirtualFileSystem,
    after: &VirtualFileSystem,
    end: &VirtualFileSystem,
    path: Seq<char>,
    working_directory: Option<DirectoryId>,
    driver_name: Seq<char>,
    device: Device,
    r: Result<(), FileSystemError>,
    again: Result<(), FileSystemError>,
)
    requires
        before.wf(),
        between.wf(),
        after.wf(),
        between.namespace@.histories.len() <= usize::MAX,
        wd_wf(before.namespace@, working_directory),
        mounts_at(before, between, path, working_directory, driver_name, device, Ok(())),
        unmounts_at(between, after, path, working_directory, r),
        unmounts_at(after, end, path, working_directory, again),
        !goes_through(
            before.namespace@,
            between.namespace@,
            start_of(between.namespace@, path, working_directory),
            components(path),
            MAX_SYMLINK_DEPTH as nat,
            newest_host(between.namespace@),
        ),
        meets_link(
            between.namespace@,
            start_of(between.namespace@, path, working_directory),
            components(path),
        ) ==> steady_volumes(before.namespace@, end.namespace@),
    ensures
        again == Err::<(), FileSystemError>(FileSystemError::NotMounted),
        grew(after.namespace@, end.namespace@),
        end.same_tables(after),
{
    let o = before.namespace@;
    let w = between.namespace@;
    let s = after.namespace@;
    let budget = MAX_SYMLINK_DEPTH as nat;
    let (n, h, history, root) = lemma_mounted_by_path(
        before,
        between,
        path,
        working_directory,
        driver_name,
        device,
    );
    assert(newest_host(w) == h);
    lemma_resolved_is_directory(o, n, path, working_directory, h);
    let (k, q) = lemma_unmount_found(after, end, path, working_directory, again);
    if steady_volumes(o, end.namespace@) {
        lemma_steady_earlier(o, s, k, end.namespace@);
    }
    let x = lemma_unmounts_the_mount(
        before,
        between,
        after,
        path,
        working_directory,
        n,
        h,
        history,
        root,
        r,
    );
    lemma_new_volume_is_not_open(before);
    lemma_after_unmount(before, between, after, n, x, h, history, root, r);
    if steady_volumes(o, end.namespace@) {
        lemma_mount_asks_more(n, h, before.next_filesystem_id, history, root);
        lemma_asked_more_trans(n, w, x);
        lemma_asked_more_trans(n, x, s);
        lemma_targets_agree(o, n, s, k, end.namespace@);
    }
    grew_keeps(s, k);
    lemma_survives_growth(n, s, k, h);
    assert(s.is_dir(h));
    lemma_path_still_leads(
        before,
        between,
        path,
        working_directory,
        n,
        h,
        history,
        root,
        s,
        k,
        q,
    );
    lemma_host_survives(n, k, h);
}

/// An unmount resolves its path in a namespace that has grown.
proof fn lemma_unmount_found(
    after: &VirtualFileSystem,
    end: &VirtualFileSystem,
    path: Seq<char>,
    working_directory: Option<DirectoryId>,
    again: Result<(), FileSystemError>,
) -> (w: (NamespaceModel, Result<DirectoryId, FileSystemError>))
    requires
        unmounts_at(after, end, path, working_directory, again),
    ensures
        grew(after.namespace@, w.0),
        w.0.wf(),
        resolves_dir(
            after.namespace@,
            w.0,
            path,
            working_directory,
            MAX_SYMLINK_DEPTH as nat,
            w.1,
        ),
        asked_more(w.0, end.namespace@),
        match w.1 {
            Err(e) => end.namespace@ == w.0 && end.same_tables(after) && again == Err::<
                (),
                FileSystemError,
            >(e),
            Ok(d) => w.0.is_dir(d) && unmounts_from(after, end, w.0, w.0.host(d), again),
        },
{
    let s = after.namespace@;
    let (k, q) = choose|k: NamespaceModel, q: Result<DirectoryId, FileSystemError>|
        grew(s, k) && k.wf() && #[trigger] resolves_dir(
            s,
            k,
            path,
            working_directory,
            MAX_SYMLINK_DEPTH as nat,
            q,
        ) && match q {
            Err(e) => end.namespace@ == k && end.same_tables(after) && again == Err::<
                (),
                FileSystemError,
            >(e),
            Ok(d) => k.is_dir(d) && unmounts_from(after, end, k, k.host(d), again),
        };
    if let Ok(d) = q {
        lemma_host_is_dir(k, d);
        lemma_unmount_asks_more(after, end, k, k.host(d), again);
    }
    (k, q)
}

proof fn lemma_asked_more_trans(a: NamespaceModel, b: NamespaceModel, c: NamespaceModel)
    requires
        asked_more(a, b),
        asked_more(b, c),
    ensures
        asked_more(a, c),
{
    assert forall|v: int| 0 <= v < a.histories.len() implies (
    #[trigger] a.histories[v]).is_prefix_of(c.histories[v]) by {
        assert(a.histories[v].is_prefix_of(b.histories[v]));
        assert(b.histories[v].is_prefix_of(c.histories[v]));
    }
}

/// Drivers that are steady to the end were steady before.
proof fn lemma_steady_earlier(
    o: NamespaceModel,
    s: NamespaceModel,
    k: NamespaceModel,
    t: NamespaceModel,
)
    requires
        o.histories.len() <= s.histories.len(),
        grew(s, k),
        asked_more(k, t),
        steady_volumes(o, t),
    ensures
        steady_volumes(o, s),
{
    assert forall|volume: VolumeId, a: DriverCall|
        volume < o.histories.len() && #[trigger] asked(o, s, volume, a) implies asked(
        o,
        t,
        volume,
        a,
    ) by {
        let v = volume as int;
        assert(s.histories[v].is_prefix_of(k.histories[v]));
        assert(k.histories[v].is_prefix_of(t.histories[v]));
        let i = choose|i: int|
            o.histories[v].len() <= i < s.histories[v].len() && #[trigger] s.histories[v][i] == a;
        assert(k.histories[v][i] == a);
        assert(t.histories[v][i] == a);
    }
}

/// A directory that hosted itself does so still.
proof fn lemma_host_survives(n: NamespaceModel, k: NamespaceModel, h: DirectoryId)
    requires
        n.wf(),
        n.is_dir(h),
        n.host(h) == h,
        survives(n, k, h),
        k.directories[h as int].mount_root is None,
    ensures
        k.host(h) == h,
{
    assert(n.dir_wf(h));
    if let Some(p) = n.directories[h as int].parent {
        assert(n.is_dir(p));
    }
}

/// A path of one name goes through nothing.
pub proof fn one_name_goes_through_nothing(
    o: NamespaceModel,
    s: NamespaceModel,
    d: DirectoryId,
    names: Seq<Seq<char>>,
    budget: nat,
    h: DirectoryId,
)
    requires
        names.len() == 1,
    ensures
        !goes_through(o, s, d, names, budget, h),
        !meets_link(s, d, names),
{
    reveal_with_fuel(goes_through, 2);
    reveal_with_fuel(meets_link, 2);
    assert(names.skip(1).len() == 0);
}

} // verus!

//! Path strings.

use vstd::prelude::*;
use vstd::string::StrSliceExecFns;

use super::types::FileSystemError;

verus! {

/// The name of a directory in itself.
pub open spec fn dot() -> Seq<char> {
    seq!['.']
}

/// The name of the directory above.
pub open spec fn dot_dot() -> Seq<char> {
    seq!['.', '.']
}

/// The number of characters before the first `/`.
pub open spec fn name_len(path: Seq<char>) -> int
    decreases path.len(),
{
    if path.len() == 0 || path[0] == '/' {
        0
    } else {
        1 + name_len(path.skip(1))
    }
}

pub proof fn lemma_name_len(path: Seq<char>)
    ensures
        0 <= name_len(path) <= path.len(),
        forall|i: int| 0 <= i < name_len(path) ==> path[i] != '/',
        name_len(path) < path.len() ==> path[name_len(path)] == '/',
    decreases path.len(),
{
    if path.len() > 0 && path[0] != '/' {
        lemma_name_len(path.skip(1));
        assert forall|i: int| 0 <= i < name_len(path) implies path[i] != '/' by {
            if i > 0 {
                assert(path.skip(1)[i - 1] == path[i]);
            }
        }
    }
}

proof fn lemma_name_len_is(path: Seq<char>, n: int)
    requires
        0 <= n <= path.len(),
        forall|i: int| 0 <= i < n ==> path[i] != '/',
        n < path.len() ==> path[n] == '/',
    ensures
        name_len(path) == n,
{
    lemma_name_len(path);
    let k = name_len(path);
    if k < n {
        assert(path[k] != '/');
    } else if n < k {
        assert(path[n] != '/');
    }
}

/// The names in a path: what stands between the separators, without the empty
/// pieces.
pub open spec fn components(path: Seq<char>) -> Seq<Seq<char>>
    decreases path.len(),
{
    if path.len() == 0 {
        seq![]
    } else if path[0] == '/' {
        components(path.skip(1))
    } else {
        proof {
            lemma_name_len(path);
            lemma_name_len(path.skip(1));
        }
        seq![path.take(name_len(path))] + components(path.skip(name_len(path)))
    }
}

/// A path that begins with a separator is resolved from the root.
pub open spec fn is_absolute(path: Seq<char>) -> bool {
    path.len() > 0 && path[0] == '/'
}

/// A name as it can stand in a path.
pub open spec fn is_name(name: Seq<char>) -> bool {
    name.len() > 0 && forall|i: int| 0 <= i < name.len() ==> name[i] != '/'
}

/// The place of the last `/`, or -1.
pub open spec fn last_slash(path: Seq<char>) -> int
    decreases path.len(),
{
    if path.len() == 0 {
        -1
    } else if path.last() == '/' {
        path.len() - 1
    } else {
        last_slash(path.drop_last())
    }
}

proof fn lemma_last_slash(path: Seq<char>)
    ensures
        -1 <= last_slash(path) < path.len(),
        last_slash(path) >= 0 ==> path[last_slash(path)] == '/',
        forall|i: int| last_slash(path) < i < path.len() ==> path[i] != '/',
    decreases path.len(),
{
    if path.len() > 0 && path.last() != '/' {
        lemma_last_slash(path.drop_last());
        assert forall|i: int| last_slash(path) < i < path.len() implies path[i] != '/' by {
            if i < path.len() - 1 {
                assert(path.drop_last()[i] == path[i]);
            }
        }
    }
}

/// The components of two paths joined by a separator are those of the one and
/// then those of the other.
pub proof fn components_join(a: Seq<char>, b: Seq<char>)
    ensures
        components(a + seq!['/'] + b) == components(a) + components(b),
    decreases a.len(),
{
    let whole = a + seq!['/'] + b;
    if a.len() == 0 {
        assert(whole.skip(1) =~= b);
        assert(components(a) + components(b) =~= components(b));
    } else if a[0] == '/' {
        components_join(a.skip(1), b);
        assert(whole.skip(1) =~= a.skip(1) + seq!['/'] + b);
    } else {
        lemma_name_len(a);
        let n = name_len(a);
        lemma_name_len_is(whole, n);
        assert(n > 0) by {
            lemma_name_len(a.skip(1));
        }
        components_join(a.skip(n), b);
        assert(whole.skip(n) =~= a.skip(n) + seq!['/'] + b);
        assert(whole.take(n) =~= a.take(n));
        assert(components(whole) =~= components(a) + components(b));
    }
}

/// A name is its own only component.
pub proof fn components_of_name(name: Seq<char>)
    requires
        is_name(name),
    ensures
        components(name) == seq![name],
{
    lemma_name_len_is(name, name.len() as int);
    assert(name.take(name.len() as int) =~= name);
    assert(components(name.skip(name.len() as int)) =~= seq![]);
    assert(components(name) =~= seq![name]);
}

/// No component is empty or holds a separator.
pub proof fn components_are_names(path: Seq<char>)
    ensures
        forall|i: int| 0 <= i < components(path).len() ==> is_name(#[trigger] components(path)[i]),
    decreases path.len(),
{
    if path.len() > 0 {
        if path[0] == '/' {
            components_are_names(path.skip(1));
            assert(components(path) == components(path.skip(1)));
        } else {
            lemma_name_len(path);
            let n = name_len(path);
            assert(n > 0) by {
                lemma_name_len(path.skip(1));
            }
            components_are_names(path.skip(n));
            assert forall|i: int| 0 <= i < components(path).len() implies is_name(
                #[trigger] components(path)[i],
            ) by {
                if i > 0 {
                    assert(components(path)[i] == components(path.skip(n))[i - 1]);
                } else {
                    assert(components(path)[0] == path.take(n));
                    assert(is_name(path.take(n)));
                }
            }
        }
    }
}

/// Components as owned strings.
pub open spec fn strings(parts: Seq<String>) -> Seq<Seq<char>> {
    Seq::new(parts.len(), |i: int| parts[i]@)
}

/// Splits a path into its components.
pub fn split_path(path: &str) -> (r: Vec<String>)
    ensures
        strings(r@) == components(path@),
{
    let n: usize = path.unicode_len();
    let mut parts: Vec<String> = Vec::new();
    let mut i: usize = 0;
    assert(path@.skip(0) =~= path@);
    assert(strings(parts@) + components(path@) =~= components(path@));
    while i < n
        invariant
            n == path@.len(),
            i <= n,
            strings(parts@) + components(path@.skip(i as int)) == components(path@),
        decreases n - i,
    {
        let ghost rest = path@.skip(i as int);
        if path.get_char(i) == '/' {
            i = i + 1;
            assert(path@.skip(i as int) =~= rest.skip(1));
        } else {
            let mut j: usize = i + 1;
            while j < n && path.get_char(j) != '/'
                invariant
                    n == path@.len(),
                    i < j <= n,
                    forall|k: int| i <= k < j ==> path@[k] != '/',
                decreases n - j,
            {
                j = j + 1;
            }
            let name: &str = path.substring_char(i, j);
            let ghost before = parts@;
            let name_string: String = name.to_owned();
            parts.push(name_string);
            proof {
                lemma_name_len_is(rest, j - i);
                assert(rest.take(j - i) =~= name@);
                assert(rest.skip(j - i) =~= path@.skip(j as int));
                assert(strings(parts@) =~= strings(before).push(name@));
                assert(strings(parts@) + components(path@.skip(j as int)) =~= strings(before) + (
                seq![name@] + components(path@.skip(j as int))));
            }
            i = j;
        }
    }
    assert(path@.skip(i as int) =~= seq![]);
    assert(strings(parts@) =~= components(path@));
    parts
}

/// How a path splits into the path of its parent and its last name; `None` if
/// it is empty or ends with a separator.
pub open spec fn parent_and_name(path: Seq<char>) -> Option<(Seq<char>, Seq<char>)> {
    let k = last_slash(path);
    if path.len() == 0 || k == path.len() - 1 {
        None
    } else if k < 0 {
        Some((dot(), path))
    } else if k == 0 {
        Some((seq!['/'], path.skip(1)))
    } else {
        Some((path.take(k), path.skip(k + 1)))
    }
}

/// The path of the parent.
pub open spec fn parent_of(path: Seq<char>) -> Seq<char> {
    match parent_and_name(path) {
        Some((parent, _)) => parent,
        None => seq![],
    }
}

/// The last name of a path.
pub open spec fn name_of(path: Seq<char>) -> Seq<char> {
    match parent_and_name(path) {
        Some((_, name)) => name,
        None => seq![],
    }
}

/// Splits a path into the path of its parent and its last name.
pub fn split_parent_and_name(path: &str) -> (r: Result<(&str, &str), FileSystemError>)
    ensures
        match parent_and_name(path@) {
            Some((parent, name)) => r matches Ok((p, n)) && p@ == parent && n@ == name,
            None => r matches Err(e) && e == FileSystemError::InvalidPath,
        },
{
    let n: usize = path.unicode_len();
    proof {
        lemma_last_slash(path@);
    }
    if n == 0 {
        return Err(FileSystemError::InvalidPath);
    }
    if path.get_char(n - 1) == '/' {
        return Err(FileSystemError::InvalidPath);
    }
    let mut k: usize = n;
    while k > 0 && path.get_char(k - 1) != '/'
        invariant
            n == path@.len(),
            k <= n,
            forall|i: int| k <= i < n ==> path@[i] != '/',
        decreases k,
    {
        k = k - 1;
    }
    proof {
        assert(last_slash(path@) == k - 1) by {
            let s = last_slash(path@);
            if s > k - 1 {
                assert(path@[s] != '/');
            } else if s < k - 1 {
                assert(path@[k - 1] != '/');
            }
        }
        reveal_strlit(".");
        reveal_strlit("/");
        assert("."@ =~= dot());
        assert("/"@ =~= seq!['/']);
    }
    let name: &str = path.substring_char(k, n);
    if k == 0 {
        assert(name@ =~= path@);
        Ok((".", path))
    } else if k == 1 {
        assert(name@ =~= path@.skip(1));
        Ok(("/", name))
    } else {
        let parent: &str = path.substring_char(0, k - 1);
        assert(name@ =~= path@.skip(k as int));
        assert(parent@ =~= path@.take(k - 1));
        Ok((parent, name))
    }
}

/// A path leads through its parent to its last name.
pub proof fn parent_and_name_rejoin(path: Seq<char>)
    requires
        parent_and_name(path) is Some,
    ensures
        ({
            let (parent, name) = parent_and_name(path)->0;
            &&& is_name(name)
            &&& last_slash(path) < 0 ==> components(path) == seq![name]
            &&& last_slash(path) >= 0 ==> components(path) == components(parent).push(name)
            &&& parent.len() > 0
            &&& is_absolute(parent) == is_absolute(path)
        }),
{
    lemma_last_slash(path);
    let k = last_slash(path);
    let (parent, name) = parent_and_name(path)->0;
    components_of_name(name);
    if k >= 0 {
        components_join(path.take(k), name);
        assert(path =~= path.take(k) + seq!['/'] + name);
        if k == 0 {
            assert(seq!['/'].skip(1) =~= seq![]);
            assert(path.take(k) =~= seq![]);
        }
        assert(components(path) =~= components(parent).push(name));
    }
}

/// The last slash is the one that no slash follows.
proof fn lemma_last_slash_is(path: Seq<char>, k: int)
    requires
        -1 <= k < path.len(),
        k >= 0 ==> path[k] == '/',
        forall|i: int| k < i < path.len() ==> path[i] != '/',
    ensures
        last_slash(path) == k,
{
    lemma_last_slash(path);
    let s = last_slash(path);
    if s > k {
        assert(path[s] != '/');
    } else if s < k {
        assert(path[k] != '/');
    }
}

/// The last name of a path is what stands behind its last slash, and its parent
/// what stands before; the parent of a name at the root is the root, and that
/// of a lone name is `.`. A path that ends in a slash, or is empty, has none.
pub proof fn paths_have_parents(parent: Seq<char>, name: Seq<char>)
    requires
        name.len() > 0,
        forall|i: int| 0 <= i < name.len() ==> name[i] != '/',
    ensures
        parent_and_name(name) == Some((seq!['.'], name)),
        parent_and_name(seq!['/'] + name) == Some((seq!['/'], name)),
        parent.len() > 0 ==> parent_and_name(parent + seq!['/'] + name) == Some((parent, name)),
        parent_and_name(parent + seq!['/']) is None,
        parent_and_name(Seq::<char>::empty()) is None,
{
    lemma_last_slash_is(name, -1);
    assert(seq!['.'] =~= dot());
    let rooted = seq!['/'] + name;
    lemma_last_slash_is(rooted, 0);
    assert(rooted.skip(1) =~= name);
    let whole = parent + seq!['/'] + name;
    let k = parent.len() as int;
    lemma_last_slash_is(whole, k);
    assert(whole.take(k) =~= parent);
    assert(whole.skip(k + 1) =~= name);
    lemma_last_slash_is(parent + seq!['/'], k);
}

/// Slashes separate names, however many there are; nothing else does. A name is
/// itself, and a path without names has none.
pub proof fn slashes_separate_names(a: Seq<char>, b: Seq<char>, name: Seq<char>)
    requires
        name.len() > 0,
        forall|i: int| 0 <= i < name.len() ==> name[i] != '/',
    ensures
        components(Seq::<char>::empty()) == Seq::<Seq<char>>::empty(),
        components(name) == seq![name],
        components(a + seq!['/'] + b) == components(a) + components(b),
        components(seq!['/'] + a) == components(a),
        components(a + seq!['/']) == components(a),
        is_absolute(seq!['/'] + a),
        !is_absolute(name),
        !is_absolute(Seq::<char>::empty()),
{
    components_of_name(name);
    components_join(a, b);
    let none = Seq::<char>::empty();
    components_join(none, a);
    components_join(a, none);
    assert(none + seq!['/'] + a =~= seq!['/'] + a);
    assert(a + seq!['/'] + none =~= a + seq!['/']);
    assert(components(none) =~= Seq::<Seq<char>>::empty());
    assert(components(none) + components(a) =~= components(a));
    assert(components(a) + components(none) =~= components(a));
}

/// `.` and `..` are spelled so.
pub proof fn dots_are_spelled()
    ensures
        dot() == seq!['.'],
        dot_dot() == seq!['.', '.'],
{
    assert(dot() =~= seq!['.']);
    assert(dot_dot() =~= seq!['.', '.']);
}

} // verus!

//! Path text.
//!
//! A path is a string whose components are separated by `/`. The functions
//! here work on the text alone: nothing is looked up on disk, and a path is
//! taken as it is written, so `a//b` and `a/b` are different paths.

use vstd::prelude::*;

verus! {

/// Where the final component of `path` starts: just behind its last `/`, or
/// at 0 where it holds none.
pub open spec fn component_start(path: Seq<char>) -> int
    decreases path.len(),
{
    if path.len() == 0 {
        0
    } else if path.last() == '/' {
        path.len() as int
    } else {
        component_start(path.drop_last())
    }
}

/// `component_start` lies within the path, a `/` stands just before it
/// unless it is 0, and no `/` follows it.
pub proof fn lemma_component_start(path: Seq<char>)
    ensures
        0 <= component_start(path) <= path.len(),
        component_start(path) > 0 ==> path[component_start(path) - 1] == '/',
        forall|j: int| component_start(path) <= j < path.len() ==> path[j] != '/',
    decreases path.len(),
{
    if path.len() > 0 && path.last() != '/' {
        let head = path.drop_last();
        lemma_component_start(head);
        assert forall|j: int| component_start(path) <= j < path.len() implies path[j] != '/' by {
            if j < head.len() {
                assert(head[j] == path[j]);
            }
        }
    }
}

/// The final component of `path`; none where the path is empty or ends in `/`.
pub open spec fn file_name_of(path: Seq<char>) -> Option<Seq<char>> {
    let k = component_start(path);
    if k == path.len() {
        None
    } else {
        Some(path.subrange(k, path.len() as int))
    }
}

/// The path without its final component and the `/` before it. The parent of
/// `/a` is `/`, that of `a` is the empty path; `/` and the empty path have
/// none.
pub open spec fn parent_of(path: Seq<char>) -> Option<Seq<char>> {
    let k = component_start(path);
    if path.len() == 0 {
        None
    } else if k == 0 {
        Some(Seq::empty())
    } else if k == 1 {
        if path.len() == 1 {
            None
        } else {
            Some(path.subrange(0, 1))
        }
    } else {
        Some(path.subrange(0, k - 1))
    }
}

/// A parent is shorter than its child.
pub proof fn lemma_parent_shorter(path: Seq<char>)
    ensures
        parent_of(path) matches Some(p) ==> p.len() < path.len(),
{
    lemma_component_start(path);
}

/// The ancestors of `path`, the nearest first: its parent, the parent of
/// that, and so on.
pub open spec fn ancestors(path: Seq<char>) -> Seq<Seq<char>>
    decreases path.len(),
    via ancestors_decreases
{
    match parent_of(path) {
        Some(p) => seq![p] + ancestors(p),
        None => Seq::empty(),
    }
}

#[via_fn]
proof fn ancestors_decreases(path: Seq<char>) {
    lemma_parent_shorter(path);
}

/// `root` joined with `rel`: the two with one `/` between them. An empty side
/// leaves the other as it is, and a root that ends in `/` gets no second one.
pub open spec fn joined(root: Seq<char>, rel: Seq<char>) -> Seq<char> {
    if rel.len() == 0 {
        root
    } else if root.len() == 0 {
        rel
    } else if root.last() == '/' {
        root + rel
    } else {
        root + seq!['/'] + rel
    }
}

/// What is left of `path` below `root`: the `rel` with `joined(root, rel) ==
/// path`, where there is one.
pub open spec fn stripped(path: Seq<char>, root: Seq<char>) -> Option<Seq<char>> {
    let n = root.len() as int;
    if path == root {
        Some(Seq::empty())
    } else if n == 0 {
        Some(path)
    } else if path.len() > n && path.subrange(0, n) == root && root.last() == '/' {
        Some(path.subrange(n, path.len() as int))
    } else if path.len() > n + 1 && path.subrange(0, n) == root && path[n] == '/' {
        Some(path.subrange(n + 1, path.len() as int))
    } else {
        None
    }
}

/// `root` is a leading part of `path` that ends where a component ends.
pub open spec fn is_dir_prefix(root: Seq<char>, path: Seq<char>) -> bool {
    root.len() == 0 || (root.len() < path.len() && path.subrange(0, root.len() as int) == root && (
    root.last() == '/' || path[root.len() as int] == '/'))
}

/// For one root, distinct relative paths join to distinct paths.
pub proof fn lemma_joined_injective(root: Seq<char>, a: Seq<char>, b: Seq<char>)
    requires
        joined(root, a) == joined(root, b),
    ensures
        a == b,
{
    let ja = joined(root, a);
    let jb = joined(root, b);
    let n = root.len() as int;
    if a.len() == 0 || b.len() == 0 || n == 0 {
        assert(ja.len() == jb.len());
        assert(a =~= b);
    } else if root.last() == '/' {
        assert(ja.len() == jb.len());
        assert forall|i: int| 0 <= i < a.len() implies a[i] == b[i] by {
            assert(ja[n + i] == a[i]);
            assert(jb[n + i] == b[i]);
        }
        assert(a =~= b);
    } else {
        assert(ja.len() == jb.len());
        assert forall|i: int| 0 <= i < a.len() implies a[i] == b[i] by {
            assert(ja[n + 1 + i] == a[i]);
            assert(jb[n + 1 + i] == b[i]);
        }
        assert(a =~= b);
    }
}

/// What `stripped` takes off, `joined` puts back.
pub proof fn lemma_stripped_joined(path: Seq<char>, root: Seq<char>)
    ensures
        stripped(path, root) matches Some(rel) ==> joined(root, rel) == path,
{
    let n = root.len() as int;
    if path == root {
    } else if n == 0 {
    } else if path.len() > n && path.subrange(0, n) == root && root.last() == '/' {
        assert(root + path.subrange(n, path.len() as int) =~= path);
    } else if path.len() > n + 1 && path.subrange(0, n) == root && path[n] == '/' {
        assert(root + seq!['/'] + path.subrange(n + 1, path.len() as int) =~= path);
    }
}

/// What `joined` puts together, `stripped` takes apart again.
pub proof fn lemma_joined_stripped(root: Seq<char>, rel: Seq<char>)
    ensures
        stripped(joined(root, rel), root) == Some(rel),
{
    let path = joined(root, rel);
    let n = root.len() as int;
    if rel.len() == 0 {
        assert(rel =~= Seq::empty());
    } else if n == 0 {
    } else if root.last() == '/' {
        assert(path.subrange(0, n) =~= root);
        assert(path.subrange(n, path.len() as int) =~= rel);
    } else {
        assert(path.subrange(0, n) =~= root);
        assert(path[n] == '/');
        assert(path.subrange(n + 1, path.len() as int) =~= rel);
    }
}

/// A parent is a directory prefix of its child.
pub proof fn lemma_parent_is_dir_prefix(path: Seq<char>)
    ensures
        parent_of(path) matches Some(p) ==> is_dir_prefix(p, path),
{
    lemma_component_start(path);
    let k = component_start(path);
    if path.len() > 0 && k >= 1 {
        if k == 1 {
            if path.len() > 1 {
                assert(path.subrange(0, 1).last() == path[0]);
                assert(path.subrange(0, 1).subrange(0, 1) =~= path.subrange(0, 1));
            }
        } else {
            let p = path.subrange(0, k - 1);
            assert(path.subrange(0, p.len() as int) =~= p);
        }
    }
}

/// A directory prefix of a directory prefix is one.
pub proof fn lemma_dir_prefix_transitive(a: Seq<char>, b: Seq<char>, c: Seq<char>)
    requires
        is_dir_prefix(a, b),
        is_dir_prefix(b, c),
    ensures
        is_dir_prefix(a, c),
{
    if a.len() > 0 {
        let n = a.len() as int;
        assert(b.len() > 0);
        assert(c.subrange(0, b.len() as int) == b);
        assert(c.subrange(0, n) =~= b.subrange(0, n));
        assert(b[n] == c.subrange(0, b.len() as int)[n]);
    }
}

/// Every ancestor of a path is a directory prefix of it.
pub proof fn lemma_ancestors_are_dir_prefixes(path: Seq<char>, i: int)
    requires
        0 <= i < ancestors(path).len(),
    ensures
        is_dir_prefix(ancestors(path)[i], path),
    decreases path.len(),
{
    lemma_parent_shorter(path);
    lemma_parent_is_dir_prefix(path);
    let p = parent_of(path)->0;
    if i > 0 {
        assert(ancestors(path)[i] == ancestors(p)[i - 1]);
        lemma_ancestors_are_dir_prefixes(p, i - 1);
        lemma_dir_prefix_transitive(ancestors(p)[i - 1], p, path);
    }
}

/// A path that names a file (it does not end in `/`) has a relative path
/// below each directory prefix, and joining the two gives the path back.
pub proof fn lemma_dir_prefix_strips(root: Seq<char>, path: Seq<char>)
    requires
        is_dir_prefix(root, path),
        file_name_of(path) is Some,
    ensures
        stripped(path, root) is Some,
        joined(root, stripped(path, root)->0) == path,
{
    lemma_component_start(path);
    lemma_stripped_joined(path, root);
    let n = root.len() as int;
    if path != root && n > 0 && root.last() != '/' {
        assert(path[n] == '/');
        assert(component_start(path) < path.len());
        assert(n + 1 <= component_start(path));
    }
}

/// Whether `path` ends in `/`.
pub fn ends_with_separator(path: &str) -> (r: bool)
    ensures
        r == (path@.len() > 0 && path@.last() == '/'),
{
    let n: usize = path.unicode_len();
    if n == 0 {
        false
    } else {
        path.get_char(n - 1) == '/'
    }
}

/// Finds where the final component of `path` starts.
pub fn final_component_start(path: &str) -> (k: usize)
    ensures
        k == component_start(path@),
{
    let n: usize = path.unicode_len();
    let mut k: usize = n;
    assert(path@.subrange(0, n as int) =~= path@);
    while k > 0 && path.get_char(k - 1) != '/'
        invariant
            k <= n,
            n == path@.len(),
            component_start(path@) == component_start(path@.subrange(0, k as int)),
        decreases k,
    {
        proof {
            let s = path@.subrange(0, k as int);
            assert(s.last() == path@[k - 1]);
            assert(s.drop_last() =~= path@.subrange(0, k - 1));
        }
        k = k - 1;
    }
    proof {
        let s = path@.subrange(0, k as int);
        if k > 0 {
            assert(s.last() == path@[k - 1]);
        }
    }
    k
}

/// The final component of `path`.
pub fn file_name(path: &str) -> (r: Option<String>)
    ensures
        match r {
            Some(name) => file_name_of(path@) == Some(name@),
            None => file_name_of(path@) is None,
        },
{
    let n: usize = path.unicode_len();
    let k: usize = final_component_start(path);
    proof {
        lemma_component_start(path@);
    }
    if k == n {
        None
    } else {
        Some(path.substring_char(k, n).to_owned())
    }
}

/// The parent of `path`.
pub fn parent(path: &str) -> (r: Option<String>)
    ensures
        match r {
            Some(p) => parent_of(path@) == Some(p@),
            None => parent_of(path@) is None,
        },
{
    let n: usize = path.unicode_len();
    let k: usize = final_component_start(path);
    proof {
        lemma_component_start(path@);
    }
    if n == 0 {
        None
    } else if k == 0 {
        Some(String::new())
    } else if k == 1 {
        if n == 1 {
            None
        } else {
            Some(path.substring_char(0, 1).to_owned())
        }
    } else {
        Some(path.substring_char(0, k - 1).to_owned())
    }
}

/// Joins a root and a path relative to it.
pub fn join(root: &str, rel: &str) -> (r: String)
    ensures
        r@ == joined(root@, rel@),
{
    if rel.unicode_len() == 0 {
        root.to_owned()
    } else if root.unicode_len() == 0 {
        rel.to_owned()
    } else if ends_with_separator(root) {
        root.to_owned().concat(rel)
    } else {
        proof {
            reveal_strlit("/");
        }
        assert("/"@ =~= seq!['/']);
        root.to_owned().concat("/").concat(rel)
    }
}

/// Whether the first `root.len()` characters of `path` are `root`.
fn starts_with(path: &str, root: &str) -> (r: bool)
    ensures
        r == (root@.len() <= path@.len() && path@.subrange(0, root@.len() as int) == root@),
{
    let n: usize = root.unicode_len();
    if n > path.unicode_len() {
        return false;
    }
    let head: String = path.substring_char(0, n).to_owned();
    let want: String = root.to_owned();
    head == want
}

/// The path of `path` relative to `root`, where `path` lies at or below it.
pub fn strip_prefix(path: &str, root: &str) -> (r: Option<String>)
    ensures
        match r {
            Some(rel) => stripped(path@, root@) == Some(rel@),
            None => stripped(path@, root@) is None,
        },
{
    let n: usize = root.unicode_len();
    let m: usize = path.unicode_len();
    let whole: String = path.to_owned();
    let base: String = root.to_owned();
    if whole == base {
        return Some(String::new());
    }
    if n == 0 {
        return Some(whole);
    }
    if m <= n || !starts_with(path, root) {
        return None;
    }
    if ends_with_separator(root) {
        Some(path.substring_char(n, m).to_owned())
    } else if m > n + 1 && path.get_char(n) == '/' {
        Some(path.substring_char(n + 1, m).to_owned())
    } else {
        None
    }
}

} // verus!

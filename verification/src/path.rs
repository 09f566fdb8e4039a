//! Relative paths as character sequences: segments, components, base names,
//! joining, and what makes a path stand for a repository.

use crate::text::{chars_end_with, chars_of, ends_with, starts_with};
use vstd::prelude::*;

verus! {

/// The suffix that marks a path as a repository.
pub open spec fn git_suffix() -> Seq<char> {
    seq!['.', 'g', 'i', 't']
}

/// A path stands for a repository exactly when it ends in the suffix,
/// whatever lies on disk under it.
pub open spec fn is_repo(path: Seq<char>) -> bool {
    ends_with(path, git_suffix())
}

/// A path can name a single repository when it is not empty and not written
/// as a folder.
pub open spec fn can_be_repo(path: Seq<char>) -> bool {
    path.len() > 0 && path.last() != '/'
}

/// An absolute path begins at the filesystem root.
pub open spec fn is_absolute(path: Seq<char>) -> bool {
    path.len() > 0 && path[0] == '/'
}

/// Position `i` is where a segment begins: the start of the path, or just
/// after a separator.
pub open spec fn segment_start(path: Seq<char>, i: int) -> bool {
    0 <= i <= path.len() && (i == 0 || path[i - 1] == '/')
}

/// The segment that begins at `i` is `..`.
pub open spec fn is_parent_segment_at(path: Seq<char>, i: int) -> bool {
    &&& segment_start(path, i)
    &&& i + 2 <= path.len()
    &&& path[i] == '.'
    &&& path[i + 1] == '.'
    &&& (i + 2 == path.len() || path[i + 2] == '/')
}

/// Some segment of the path is `..`.
pub open spec fn has_parent_segment(path: Seq<char>) -> bool {
    exists|i: int| is_parent_segment_at(path, i)
}

/// The segment that begins at `i` is `.`.
pub open spec fn is_current_segment_at(path: Seq<char>, i: int) -> bool {
    &&& segment_start(path, i)
    &&& i + 1 <= path.len()
    &&& path[i] == '.'
    &&& (i + 1 == path.len() || path[i + 1] == '/')
}

/// Position `i` begins a component: the first character of the path (a root,
/// a leading `.`, or the first name), or the first character of a later
/// segment that is neither empty nor `.`.
pub open spec fn component_start(path: Seq<char>, i: int) -> bool {
    &&& 0 <= i < path.len()
    &&& (i == 0 || (path[i - 1] == '/' && path[i] != '/' && !is_current_segment_at(path, i)))
}

/// The number of components that begin before position `n`.
pub open spec fn component_count_upto(path: Seq<char>, n: int) -> nat
    decreases n,
{
    if n <= 0 {
        0
    } else {
        component_count_upto(path, n - 1) + if component_start(path, n - 1) {
            1nat
        } else {
            0nat
        }
    }
}

/// The depth of a path: how many components it has. Repeated separators, a
/// trailing separator and inner `.` segments add nothing.
pub open spec fn component_count(path: Seq<char>) -> nat {
    component_count_upto(path, path.len() as int)
}

/// Where the last segment begins: just after the last separator, or at 0.
pub open spec fn base_start(path: Seq<char>) -> int
    decreases path.len(),
{
    if path.len() == 0 || path.last() == '/' {
        path.len() as int
    } else {
        base_start(path.drop_last())
    }
}

/// The last segment of a path: its name without the folders before it.
pub open spec fn base_name(path: Seq<char>) -> Seq<char> {
    path.subrange(base_start(path), path.len() as int)
}

/// `rest` placed inside `folder`. An empty folder is the root itself, and a
/// folder written with its trailing separator gets no second one.
pub open spec fn join_path(folder: Seq<char>, rest: Seq<char>) -> Seq<char> {
    if folder.len() == 0 {
        rest
    } else if folder.last() == '/' {
        folder + rest
    } else {
        folder + seq!['/'] + rest
    }
}

/// `path` lies strictly below `folder`.
pub open spec fn is_under(path: Seq<char>, folder: Seq<char>) -> bool {
    starts_with(path, folder.push('/'))
}

/// The first segment of `path` is exactly `name`.
pub open spec fn top_level_is(path: Seq<char>, name: Seq<char>) -> bool {
    starts_with(path, name) && (path.len() == name.len() || path[name.len() as int] == '/')
}

/// `base_start` is a segment start with no separator after it.
pub proof fn lemma_base_start(path: Seq<char>)
    ensures
        segment_start(path, base_start(path)),
        forall|k: int| base_start(path) <= k < path.len() ==> path[k] != '/',
    decreases path.len(),
{
    if path.len() == 0 || path.last() == '/' {
    } else {
        let head = path.drop_last();
        lemma_base_start(head);
        assert forall|k: int| base_start(path) <= k < path.len() implies path[k] != '/' by {
            if k < head.len() {
                assert(head[k] == path[k]);
            }
        }
        if base_start(head) > 0 {
            assert(head[base_start(head) - 1] == path[base_start(head) - 1]);
        }
    }
}

/// Only one position is a segment start with no separator after it.
pub proof fn lemma_base_start_unique(path: Seq<char>, b: int)
    requires
        segment_start(path, b),
        forall|k: int| b <= k < path.len() ==> path[k] != '/',
    ensures
        b == base_start(path),
{
    lemma_base_start(path);
    let c = base_start(path);
    if b < c {
        assert(path[c - 1] == '/');
    } else if c < b {
        assert(path[b - 1] == '/');
    }
}

/// Whether the path stands for a repository.
pub fn represents_repo(path: &str) -> (r: bool)
    ensures
        r == is_repo(path@),
{
    let v = chars_of(path);
    chars_represent_repo(&v)
}

/// Whether the characters end in the repository suffix.
pub fn chars_represent_repo(v: &Vec<char>) -> (r: bool)
    ensures
        r == is_repo(v@),
{
    let suffix = git_suffix_chars();
    chars_end_with(v, &suffix)
}

/// The repository suffix as characters.
pub fn git_suffix_chars() -> (v: Vec<char>)
    ensures
        v@ == git_suffix(),
{
    let mut v: Vec<char> = Vec::new();
    v.push('.');
    v.push('g');
    v.push('i');
    v.push('t');
    assert(v@ =~= git_suffix());
    v
}

/// Whether the path can name a single repository.
pub fn can_represent_repo(path: &str) -> (r: bool)
    ensures
        r == can_be_repo(path@),
{
    let v = chars_of(path);
    v.len() > 0 && v[v.len() - 1] != '/'
}

/// Whether some segment is `..`.
pub fn chars_have_parent_segment(v: &Vec<char>) -> (r: bool)
    ensures
        r == has_parent_segment(v@),
{
    let n: usize = v.len();
    let mut i: usize = 0;
    while i < n
        invariant
            n == v.len(),
            i <= n,
            forall|k: int| 0 <= k < i ==> !is_parent_segment_at(v@, k),
        decreases n - i,
    {
        if (i == 0 || v[i - 1] == '/') && n - i >= 2 && v[i] == '.' && v[i + 1] == '.' && (n - i
            == 2 || v[i + 2] == '/') {
            assert(is_parent_segment_at(v@, i as int));
            return true;
        }
        i += 1;
    }
    assert forall|k: int| !is_parent_segment_at(v@, k) by {
        if is_parent_segment_at(v@, k) {
            assert(0 <= k < n);
        }
    }
    false
}

/// The depth of the path.
pub fn chars_component_count(v: &Vec<char>) -> (r: usize)
    ensures
        r == component_count(v@),
{
    let n: usize = v.len();
    let mut count: usize = 0;
    let mut i: usize = 0;
    while i < n
        invariant
            n == v.len(),
            i <= n,
            count <= i,
            count == component_count_upto(v@, i as int),
        decreases n - i,
    {
        let starts: bool = i == 0 || (v[i - 1] == '/' && v[i] != '/' && !(v[i] == '.' && (i + 1
            == n || v[i + 1] == '/')));
        assert(starts == component_start(v@, i as int));
        if starts {
            count += 1;
        }
        i += 1;
    }
    count
}

/// Where the last segment begins.
pub fn chars_base_start(v: &Vec<char>) -> (r: usize)
    ensures
        r == base_start(v@),
        r <= v.len(),
{
    let mut i: usize = v.len();
    while i > 0 && v[i - 1] != '/'
        invariant
            i <= v.len(),
            forall|k: int| i <= k < v.len() ==> v@[k] != '/',
        decreases i,
    {
        i -= 1;
    }
    proof {
        lemma_base_start_unique(v@, i as int);
    }
    i
}

} // verus!

//! The repository enumerator. A listing of the visible tree comes in as
//! plain entries; out come the paths that a walk from a root yields: the
//! entries that are candidates, that the caller's filter selects, and that
//! lie in no subtree the walk leaves closed.

use crate::glob::PatternSet;
use crate::path::{chars_represent_repo, is_repo, is_under, top_level_is};
use crate::text::{chars_of, chars_start_with, starts_with, views};
use vstd::prelude::*;

verus! {

/// What kind of thing lies at a path of the visible tree.
#[derive(Debug, Clone, Copy, PartialEq, Eq)]
pub enum EntryKind {
    /// A link; the walk never follows it.
    Symlink,
    /// A plain directory.
    Directory,
    /// Anything else.
    File,
}

/// One entry of a listing: a path relative to the visible root, and what
/// lies there. The root itself is not an entry.
#[derive(Debug, Clone, PartialEq, Eq)]
pub struct Entry {
    pub path: String,
    pub kind: EntryKind,
}

/// How a walk is set up: where it starts (`None` is the visible root),
/// whether plain folders are candidates, and which paths the caller wants
/// (`None` wants every path).
pub struct Walk {
    pub root: Option<Seq<char>>,
    pub match_folders: bool,
    pub filter: Option<PatternSet>,
}

/// The directory of the secure-shell configuration.
pub open spec fn ssh_folder() -> Seq<char> {
    ".ssh"@
}

/// The directory that holds the commands.
pub open spec fn commands_folder() -> Seq<char> {
    "git-shell-commands"@
}

/// The path is one of the two reserved top-level entries, or lies in one.
pub open spec fn is_reserved(path: Seq<char>) -> bool {
    top_level_is(path, ssh_folder()) || top_level_is(path, commands_folder())
}

impl Walk {
    /// The caller's filter selects the path.
    pub open spec fn selects(self, path: Seq<char>) -> bool {
        match self.filter {
            None => true,
            Some(set) => set.admits(path),
        }
    }

    /// The path belongs to the walk: below the given root, or, from the
    /// visible root, any path outside the two reserved entries.
    pub open spec fn in_scope(self, path: Seq<char>) -> bool {
        match self.root {
            None => path.len() > 0 && !is_reserved(path),
            Some(root) => is_under(path, root),
        }
    }

    /// The entry may be yielded: it stands for a repository, it is a link,
    /// or it is a plain folder and folders are asked for.
    pub open spec fn is_candidate(self, e: Entry) -> bool {
        is_repo(e.path@) || e.kind == EntryKind::Symlink || (self.match_folders && e.kind
            == EntryKind::Directory)
    }

    /// The walk does not go below the entry: it stands for a repository, it
    /// is a link, or it is a folder that was selected as one unit.
    pub open spec fn closes(self, e: Entry) -> bool {
        is_repo(e.path@) || e.kind == EntryKind::Symlink || (self.match_folders && e.kind
            == EntryKind::Directory && self.selects(e.path@))
    }

    /// Entry `j` of the listing keeps the walk from reaching `path`.
    pub open spec fn hides(self, entries: Seq<Entry>, j: int, path: Seq<char>) -> bool {
        &&& 0 <= j < entries.len()
        &&& self.in_scope(entries[j].path@)
        &&& self.closes(entries[j])
        &&& is_under(path, entries[j].path@)
    }

    /// The walk never reaches `path`.
    pub open spec fn is_hidden(self, entries: Seq<Entry>, path: Seq<char>) -> bool {
        exists|j: int| self.hides(entries, j, path)
    }

    /// The walk yields entry `i` of the listing.
    pub open spec fn yields(self, entries: Seq<Entry>, i: int) -> bool {
        &&& 0 <= i < entries.len()
        &&& self.in_scope(entries[i].path@)
        &&& self.is_candidate(entries[i])
        &&& self.selects(entries[i].path@)
        &&& !self.is_hidden(entries, entries[i].path@)
    }

    /// The paths that the walk yields among the first `n` entries, in the
    /// listing's order.
    pub open spec fn yielded_upto(self, entries: Seq<Entry>, n: int) -> Seq<Seq<char>>
        decreases n,
    {
        if n <= 0 {
            Seq::<Seq<char>>::empty()
        } else if self.yields(entries, n - 1) {
            self.yielded_upto(entries, n - 1).push(entries[n - 1].path@)
        } else {
            self.yielded_upto(entries, n - 1)
        }
    }

    /// The paths that the walk yields, in the listing's order.
    pub open spec fn yielded(self, entries: Seq<Entry>) -> Seq<Seq<char>> {
        self.yielded_upto(entries, entries.len() as int)
    }
}

/// The walk that the executable arguments describe.
pub open spec fn walk_of(
    root: Option<&str>,
    match_folders: bool,
    filter: Option<&PatternSet>,
) -> Walk {
    Walk {
        root: match root {
            Some(r) => Some(r@),
            None => None,
        },
        match_folders,
        filter: match filter {
            Some(f) => Some(*f),
            None => None,
        },
    }
}

/// Whether the first segment of the path is exactly `name`.
pub fn chars_top_level_is(v: &Vec<char>, name: &Vec<char>) -> (r: bool)
    ensures
        r == top_level_is(v@, name@),
{
    chars_start_with(v, name) && (v.len() == name.len() || v[name.len()] == '/')
}

/// Whether the path lies strictly below the folder.
pub fn chars_under(v: &Vec<char>, folder: &Vec<char>) -> (r: bool)
    ensures
        r == is_under(v@, folder@),
{
    let ghost long = folder@.push('/');
    if folder.len() >= v.len() {
        return false;
    }
    if !chars_start_with(v, folder) {
        assert(!starts_with(v@, long)) by {
            if starts_with(v@, long) {
                assert(v@.subrange(0, folder.len() as int) =~= v@.subrange(
                    0,
                    long.len() as int,
                ).subrange(0, folder.len() as int));
                assert(long.subrange(0, folder.len() as int) =~= folder@);
            }
        }
        return false;
    }
    if v[folder.len()] == '/' {
        assert(v@.subrange(0, long.len() as int) =~= v@.subrange(0, folder.len() as int).push('/'));
        true
    } else {
        assert(!starts_with(v@, long)) by {
            if starts_with(v@, long) {
                assert(v@.subrange(0, long.len() as int)[folder.len() as int] == '/');
            }
        }
        false
    }
}

/// Whether the path is, or lies in, one of the two reserved entries.
pub fn chars_reserved(v: &Vec<char>) -> (r: bool)
    ensures
        r == is_reserved(v@),
{
    let ssh = chars_of(".ssh");
    let commands = chars_of("git-shell-commands");
    chars_top_level_is(v, &ssh) || chars_top_level_is(v, &commands)
}

/// Whether the path is, or lies in, one of the two reserved entries, which
/// a walk from the visible root neither yields nor enters.
pub fn is_reserved_path(path: &str) -> (r: bool)
    ensures
        r == is_reserved(path@),
{
    let v = chars_of(path);
    chars_reserved(&v)
}

/// What the walk needs to know of one entry.
struct Seen {
    chars: Vec<char>,
    wanted: bool,
    closed: bool,
}

/// The walk yields the entry unless something hides it, and the walk stops
/// at the entry.
spec fn seen_as(walk: Walk, e: Entry, s: Seen) -> bool {
    &&& s.chars@ == e.path@
    &&& s.wanted == (walk.in_scope(e.path@) && walk.is_candidate(e) && walk.selects(e.path@))
    &&& s.closed == (walk.in_scope(e.path@) && walk.closes(e))
}

/// Looks at one entry on its own.
fn see(
    entry: &Entry,
    root: &Option<Vec<char>>,
    match_folders: bool,
    filter: Option<&PatternSet>,
) -> (s: Seen)
    ensures
        seen_as(
            Walk {
                root: match root {
                    Some(r) => Some(r@),
                    None => None,
                },
                match_folders,
                filter: match filter {
                    Some(f) => Some(*f),
                    None => None,
                },
            },
            *entry,
            s,
        ),
{
    let chars = chars_of(entry.path.as_str());
    let in_scope: bool = match root {
        None => chars.len() > 0 && !chars_reserved(&chars),
        Some(r) => chars_under(&chars, r),
    };
    let repo: bool = chars_represent_repo(&chars);
    let link: bool = match entry.kind {
        EntryKind::Symlink => true,
        _ => false,
    };
    let folder: bool = match entry.kind {
        EntryKind::Directory => true,
        _ => false,
    };
    let candidate: bool = repo || link || (match_folders && folder);
    let selected: bool = if in_scope && candidate {
        match filter {
            None => true,
            Some(set) => set.is_match(entry.path.as_str()),
        }
    } else {
        false
    };
    Seen {
        chars,
        wanted: in_scope && candidate && selected,
        closed: in_scope && (repo || link || (match_folders && folder && selected)),
    }
}

/// The paths that a walk yields, handed out one at a time and never again.
#[derive(Debug)]
pub struct FilterRepos {
    found: Vec<String>,
    position: usize,
}

impl FilterRepos {
    /// The paths still to come, in order.
    pub closed spec fn remaining(&self) -> Seq<Seq<char>> {
        views(self.found@).skip(self.position as int)
    }

    #[verifier::type_invariant]
    spec fn in_bounds(&self) -> bool {
        self.position <= self.found.len()
    }

    /// Walks the listing from `root` (`None` is the visible root). From the
    /// visible root the two reserved entries and all below them are left
    /// out; from a given root nothing is.
    pub fn new(
        entries: &Vec<Entry>,
        root: Option<&str>,
        match_folders: bool,
        filter: Option<&PatternSet>,
    ) -> (r: FilterRepos)
        ensures
            r.remaining() == walk_of(root, match_folders, filter).yielded(entries@),
    {
        let ghost walk = walk_of(root, match_folders, filter);
        let root_chars: Option<Vec<char>> = match root {
            Some(r) => Some(chars_of(r)),
            None => None,
        };
        let mut seen: Vec<Seen> = Vec::new();
        let mut j: usize = 0;
        while j < entries.len()
            invariant
                j <= entries.len(),
                seen.len() == j,
                walk == walk_of(root, match_folders, filter),
                match root_chars {
                    Some(r) => root is Some && r@ == root->0@,
                    None => root is None,
                },
                forall|k: int| 0 <= k < j ==> seen_as(walk, #[trigger] entries@[k], seen@[k]),
            decreases entries.len() - j,
        {
            let s = see(&entries[j], &root_chars, match_folders, filter);
            seen.push(s);
            j += 1;
        }
        let mut found: Vec<String> = Vec::new();
        let mut i: usize = 0;
        while i < entries.len()
            invariant
                i <= entries.len(),
                seen.len() == entries.len(),
                forall|k: int|
                    0 <= k < entries.len() ==> seen_as(walk, #[trigger] entries@[k], seen@[k]),
                views(found@) == walk.yielded_upto(entries@, i as int),
            decreases entries.len() - i,
        {
            let ghost path = entries@[i as int].path@;
            assert(seen_as(walk, entries@[i as int], seen@[i as int]));
            if seen[i].wanted {
                let mut hidden: bool = false;
                let mut k: usize = 0;
                while k < entries.len() && !hidden
                    invariant
                        k <= entries.len(),
                        i < entries.len(),
                        seen.len() == entries.len(),
                        path == entries@[i as int].path@,
                        seen@[i as int].chars@ == path,
                        forall|m: int|
                            0 <= m < entries.len() ==> seen_as(
                                walk,
                                #[trigger] entries@[m],
                                seen@[m],
                            ),
                        hidden ==> walk.is_hidden(entries@, path),
                        !hidden ==> forall|m: int| 0 <= m < k ==> !walk.hides(entries@, m, path),
                    decreases entries.len() - k, if hidden { 0int } else { 1int },
                {
                    assert(seen_as(walk, entries@[k as int], seen@[k as int]));
                    if seen[k].closed && chars_under(&seen[i].chars, &seen[k].chars) {
                        assert(walk.hides(entries@, k as int, path));
                        hidden = true;
                    } else {
                        k += 1;
                    }
                }
                if !hidden {
                    assert(!walk.is_hidden(entries@, path));
                    assert(walk.yields(entries@, i as int));
                    found.push(entries[i].path.clone());
                    assert(views(found@) =~= walk.yielded_upto(entries@, i as int).push(path));
                } else {
                    assert(views(found@) =~= walk.yielded_upto(entries@, i + 1));
                }
            }
            i += 1;
        }
        assert(views(found@).skip(0) =~= views(found@));
        FilterRepos { found, position: 0 }
    }

    /// The next path of the walk, or `None` once all were handed out.
    pub fn next(&mut self) -> (r: Option<String>)
        ensures
            match r {
                Some(p) => old(self).remaining().len() > 0 && p@ == old(self).remaining()[0]
                    && final(self).remaining() == old(self).remaining().drop_first(),
                None => old(self).remaining().len() == 0 && final(self).remaining().len() == 0,
            },
    {
        proof {
            use_type_invariant(&*self);
        }
        if self.position < self.found.len() {
            let p = self.found[self.position].clone();
            proof {
                assert(views(self.found@).skip(self.position as int)[0]
                    == self.found@[self.position as int]@);
                assert(views(self.found@).skip(self.position + 1) =~= views(self.found@).skip(
                    self.position as int,
                ).drop_first());
            }
            self.position = self.position + 1;
            Some(p)
        } else {
            None
        }
    }

    /// All the paths still to come.
    pub fn collect(self) -> (r: Vec<String>)
        ensures
            views(r@) == self.remaining(),
    {
        let ghost all = self.remaining();
        let mut walker = self;
        let mut out: Vec<String> = Vec::new();
        assert(views(out@) + walker.remaining() =~= all);
        loop
            invariant
                all == self.remaining(),
                views(out@) + walker.remaining() == all,
            decreases walker.remaining().len(),
        {
            match walker.next() {
                Some(p) => {
                    let ghost before = views(out@);
                    out.push(p);
                    assert(views(out@) =~= before.push(p@));
                    assert(views(out@) + walker.remaining() =~= all);
                },
                None => {
                    assert(views(out@) =~= all);
                    return out;
                },
            }
        }
    }
}

/// The repositories, and with `match_folders` the folders, that a walk from
/// the visible root yields under the filter (`None` takes every path).
pub fn filter_repos(entries: &Vec<Entry>, match_folders: bool, filter: Option<&PatternSet>) -> (r:
    Vec<String>)
    ensures
        views(r@) == walk_of(None, match_folders, filter).yielded(entries@),
{
    FilterRepos::new(entries, None, match_folders, filter).collect()
}

/// As `filter_repos`, from a given root: a folder that was matched before.
pub fn t_filter_repos(
    entries: &Vec<Entry>,
    root: Option<&str>,
    match_folders: bool,
    filter: Option<&PatternSet>,
) -> (r: Vec<String>)
    ensures
        views(r@) == walk_of(root, match_folders, filter).yielded(entries@),
{
    FilterRepos::new(entries, root, match_folders, filter).collect()
}

/// No two entries of the listing have the same path.
pub open spec fn distinct_paths(entries: Seq<Entry>) -> bool {
    forall|i: int, j: int|
        0 <= i < j < entries.len() ==> (#[trigger] entries[i]).path@ != (
        #[trigger] entries[j]).path@
}

/// Every yielded path is the path of an entry that the walk yields.
pub proof fn lemma_yielded_comes_from(walk: Walk, entries: Seq<Entry>, n: int, k: int) -> (i: int)
    requires
        0 <= n <= entries.len(),
        0 <= k < walk.yielded_upto(entries, n).len(),
    ensures
        0 <= i < n,
        walk.yields(entries, i),
        walk.yielded_upto(entries, n)[k] == entries[i].path@,
    decreases n,
{
    if walk.yields(entries, n - 1) && k == walk.yielded_upto(entries, n - 1).len() {
        n - 1
    } else {
        lemma_yielded_comes_from(walk, entries, n - 1, k)
    }
}

/// The path of every entry that the walk yields is among the yielded paths.
pub proof fn lemma_yielded_holds(walk: Walk, entries: Seq<Entry>, n: int, i: int) -> (k: int)
    requires
        0 <= i < n <= entries.len(),
        walk.yields(entries, i),
    ensures
        0 <= k < walk.yielded_upto(entries, n).len(),
        walk.yielded_upto(entries, n)[k] == entries[i].path@,
    decreases n,
{
    if i == n - 1 {
        walk.yielded_upto(entries, n - 1).len() as int
    } else {
        lemma_yielded_holds(walk, entries, n - 1, i)
    }
}

/// Of a listing without repeated paths no path is yielded twice.
pub proof fn lemma_yielded_once(walk: Walk, entries: Seq<Entry>, n: int)
    requires
        0 <= n <= entries.len(),
        distinct_paths(entries),
    ensures
        walk.yielded_upto(entries, n).no_duplicates(),
    decreases n,
{
    if n > 0 {
        lemma_yielded_once(walk, entries, n - 1);
        if walk.yields(entries, n - 1) {
            let before = walk.yielded_upto(entries, n - 1);
            assert forall|k: int| 0 <= k < before.len() implies before[k] != entries[n
                - 1].path@ by {
                let i = lemma_yielded_comes_from(walk, entries, n - 1, k);
                assert(entries[i].path@ != entries[n - 1].path@);
            }
        }
    }
}

/// A walk from the visible root never yields one of the two reserved
/// top-level entries, nor anything that lies in one.
pub proof fn law_reserved_never_yielded(walk: Walk, entries: Seq<Entry>, k: int)
    requires
        walk.root is None,
        0 <= k < walk.yielded(entries).len(),
    ensures
        !is_reserved(walk.yielded(entries)[k]),
        !top_level_is(walk.yielded(entries)[k], ssh_folder()),
        !top_level_is(walk.yielded(entries)[k], commands_folder()),
{
    let i = lemma_yielded_comes_from(walk, entries, entries.len() as int, k);
}

/// A walk yields nothing from below an entry that stands for a repository,
/// from below a link, or from below a folder that it yielded as one unit.
pub proof fn law_closed_subtrees_stay_closed(walk: Walk, entries: Seq<Entry>, j: int, k: int)
    requires
        0 <= j < entries.len(),
        walk.in_scope(entries[j].path@),
        walk.closes(entries[j]),
        0 <= k < walk.yielded(entries).len(),
    ensures
        !is_under(walk.yielded(entries)[k], entries[j].path@),
{
    let i = lemma_yielded_comes_from(walk, entries, entries.len() as int, k);
    if is_under(entries[i].path@, entries[j].path@) {
        assert(walk.hides(entries, j, entries[i].path@));
    }
}

} // verus!

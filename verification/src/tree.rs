//! The trees in memory: a stand-in for the disk on which scripts can be
//! carried out. It does what the state of the contracts does, so that a
//! whole command can be run from listing to result without touching a
//! filesystem.

use crate::path::{chars_represent_repo, is_repo};
use crate::plan::on_disk;
use crate::prune::{ancestors, ancestors_of};
use crate::relocate::{is_link, StepView};
use crate::script::{step_views, Action, Place, Step};
use crate::state::{with_dir, State};
use crate::text::{chars_eq, chars_of, views};
use crate::walk::{distinct_paths, Entry, EntryKind};
use vstd::prelude::*;

verus! {

/// A directory of the physical tree or of the staging area: where it lies
/// and what it holds. 0 is a directory that holds nothing yet.
#[derive(Debug, Clone, PartialEq, Eq)]
pub struct Stored {
    pub path: String,
    pub content: u64,
}

/// Some directory of the list lies at the path.
pub open spec fn holds(dirs: Seq<Stored>, path: Seq<char>) -> bool {
    exists|i: int| 0 <= i < dirs.len() && (#[trigger] dirs[i]).path@ == path
}

/// No two directories of the list lie at the same path.
pub open spec fn no_path_twice(dirs: Seq<Stored>) -> bool {
    forall|i: int, j: int|
        0 <= i < j < dirs.len() ==> (#[trigger] dirs[i]).path@ != (#[trigger] dirs[j]).path@
}

/// The directories of a list by path.
pub open spec fn dir_map(dirs: Seq<Stored>) -> Map<Seq<char>, nat> {
    Map::new(
        |p: Seq<char>| holds(dirs, p),
        |p: Seq<char>|
            dirs[choose|i: int|
                0 <= i < dirs.len() && (#[trigger] dirs[i]).path@ == p].content as nat,
    )
}

/// Some path of the list is the path.
pub open spec fn has_path(paths: Seq<String>, path: Seq<char>) -> bool {
    exists|i: int| 0 <= i < paths.len() && (#[trigger] paths[i])@ == path
}

/// No path occurs twice in the list.
pub open spec fn no_string_twice(paths: Seq<String>) -> bool {
    forall|i: int, j: int|
        0 <= i < j < paths.len() ==> (#[trigger] paths[i])@ != (#[trigger] paths[j])@
}

/// The paths of a list as a set.
pub open spec fn link_set(paths: Seq<String>) -> Set<Seq<char>> {
    Set::new(|p: Seq<char>| has_path(paths, p))
}

/// What lies at a position of the list lies at its path in the map.
pub proof fn lemma_dir_at(dirs: Seq<Stored>, i: int)
    requires
        no_path_twice(dirs),
        0 <= i < dirs.len(),
    ensures
        dir_map(dirs).dom().contains(dirs[i].path@),
        dir_map(dirs)[dirs[i].path@] == dirs[i].content,
{
    let p = dirs[i].path@;
    assert(holds(dirs, p));
    let c = choose|c: int| 0 <= c < dirs.len() && (#[trigger] dirs[c]).path@ == p;
    if c < i {
        assert(dirs[c].path@ != dirs[i].path@);
    } else if i < c {
        assert(dirs[i].path@ != dirs[c].path@);
    }
}

/// A directory added at a new path is an insertion into the map.
pub proof fn lemma_dir_push(dirs: Seq<Stored>, d: Stored)
    requires
        no_path_twice(dirs),
        !holds(dirs, d.path@),
    ensures
        no_path_twice(dirs.push(d)),
        dir_map(dirs.push(d)) == dir_map(dirs).insert(d.path@, d.content as nat),
{
    let more = dirs.push(d);
    assert forall|i: int, j: int| 0 <= i < j < more.len() implies (#[trigger] more[i]).path@ != (
    #[trigger] more[j]).path@ by {
        if j == dirs.len() {
            assert(dirs[i].path@ != d.path@);
        } else {
            assert(dirs[i].path@ != dirs[j].path@);
        }
    }
    assert forall|p: Seq<char>| holds(more, p) == (holds(dirs, p) || p == d.path@) by {
        if holds(dirs, p) {
            let i = choose|i: int| 0 <= i < dirs.len() && (#[trigger] dirs[i]).path@ == p;
            assert(more[i].path@ == p);
        }
        if p == d.path@ {
            assert(more[dirs.len() as int].path@ == p);
        }
        if holds(more, p) {
            let i = choose|i: int| 0 <= i < more.len() && (#[trigger] more[i]).path@ == p;
            if i < dirs.len() {
                assert(dirs[i].path@ == p);
            }
        }
    }
    assert forall|p: Seq<char>| holds(more, p) implies #[trigger] dir_map(more)[p] == dir_map(
        dirs,
    ).insert(d.path@, d.content as nat)[p] by {
        let i = choose|i: int| 0 <= i < more.len() && (#[trigger] more[i]).path@ == p;
        lemma_dir_at(more, i);
        if i < dirs.len() {
            assert(dirs[i] == more[i]);
            lemma_dir_at(dirs, i);
        }
    }
    assert(dir_map(more) =~= dir_map(dirs).insert(d.path@, d.content as nat));
}

/// A directory taken out of the list is a removal from the map.
pub proof fn lemma_dir_remove(dirs: Seq<Stored>, i: int)
    requires
        no_path_twice(dirs),
        0 <= i < dirs.len(),
    ensures
        no_path_twice(dirs.remove(i)),
        dir_map(dirs.remove(i)) == dir_map(dirs).remove(dirs[i].path@),
{
    let less = dirs.remove(i);
    let gone = dirs[i].path@;
    assert forall|a: int, b: int| 0 <= a < b < less.len() implies (#[trigger] less[a]).path@ != (
    #[trigger] less[b]).path@ by {
        let x = if a < i {
            a
        } else {
            a + 1
        };
        let y = if b < i {
            b
        } else {
            b + 1
        };
        assert(dirs[x].path@ != dirs[y].path@);
    }
    assert forall|p: Seq<char>| holds(less, p) == (holds(dirs, p) && p != gone) by {
        if holds(less, p) {
            let a = choose|a: int| 0 <= a < less.len() && (#[trigger] less[a]).path@ == p;
            let x = if a < i {
                a
            } else {
                a + 1
            };
            assert(dirs[x].path@ == p);
            if x < i {
                assert(dirs[x].path@ != dirs[i].path@);
            } else {
                assert(dirs[i].path@ != dirs[x].path@);
            }
        }
        if holds(dirs, p) && p != gone {
            let x = choose|x: int| 0 <= x < dirs.len() && (#[trigger] dirs[x]).path@ == p;
            let a = if x < i {
                x
            } else {
                x - 1
            };
            assert(less[a].path@ == p);
        }
    }
    assert forall|p: Seq<char>| holds(less, p) implies #[trigger] dir_map(less)[p] == dir_map(
        dirs,
    )[p] by {
        let a = choose|a: int| 0 <= a < less.len() && (#[trigger] less[a]).path@ == p;
        let x = if a < i {
            a
        } else {
            a + 1
        };
        lemma_dir_at(less, a);
        lemma_dir_at(dirs, x);
    }
    assert(dir_map(less) =~= dir_map(dirs).remove(gone));
}

/// A path added that was not there is an insertion into the set.
pub proof fn lemma_link_push(paths: Seq<String>, path: String)
    requires
        no_string_twice(paths),
        !has_path(paths, path@),
    ensures
        no_string_twice(paths.push(path)),
        link_set(paths.push(path)) == link_set(paths).insert(path@),
{
    let more = paths.push(path);
    assert forall|i: int, j: int| 0 <= i < j < more.len() implies (#[trigger] more[i])@ != (
    #[trigger] more[j])@ by {
        if j == paths.len() {
            assert(paths[i]@ != path@);
        } else {
            assert(paths[i]@ != paths[j]@);
        }
    }
    assert forall|p: Seq<char>| has_path(more, p) == (has_path(paths, p) || p == path@) by {
        if has_path(paths, p) {
            let i = choose|i: int| 0 <= i < paths.len() && (#[trigger] paths[i])@ == p;
            assert(more[i]@ == p);
        }
        if p == path@ {
            assert(more[paths.len() as int]@ == p);
        }
        if has_path(more, p) {
            let i = choose|i: int| 0 <= i < more.len() && (#[trigger] more[i])@ == p;
            if i < paths.len() {
                assert(paths[i]@ == p);
            }
        }
    }
    assert(link_set(more) =~= link_set(paths).insert(path@));
}

/// A path taken out of the list is a removal from the set.
pub proof fn lemma_link_remove(paths: Seq<String>, i: int)
    requires
        no_string_twice(paths),
        0 <= i < paths.len(),
    ensures
        no_string_twice(paths.remove(i)),
        link_set(paths.remove(i)) == link_set(paths).remove(paths[i]@),
{
    let less = paths.remove(i);
    let gone = paths[i]@;
    assert forall|a: int, b: int| 0 <= a < b < less.len() implies (#[trigger] less[a])@ != (
    #[trigger] less[b])@ by {
        let x = if a < i {
            a
        } else {
            a + 1
        };
        let y = if b < i {
            b
        } else {
            b + 1
        };
        assert(paths[x]@ != paths[y]@);
    }
    assert forall|p: Seq<char>| has_path(less, p) == (has_path(paths, p) && p != gone) by {
        if has_path(less, p) {
            let a = choose|a: int| 0 <= a < less.len() && (#[trigger] less[a])@ == p;
            let x = if a < i {
                a
            } else {
                a + 1
            };
            assert(paths[x]@ == p);
            if x < i {
                assert(paths[x]@ != paths[i]@);
            } else {
                assert(paths[i]@ != paths[x]@);
            }
        }
        if has_path(paths, p) && p != gone {
            let x = choose|x: int| 0 <= x < paths.len() && (#[trigger] paths[x])@ == p;
            let a = if x < i {
                x
            } else {
                x - 1
            };
            assert(less[a]@ == p);
        }
    }
    assert(link_set(less) =~= link_set(paths).remove(gone));
}

/// Where the list holds a directory at the path, if anywhere.
fn find_dir(dirs: &Vec<Stored>, path: &str) -> (r: Option<usize>)
    ensures
        match r {
            Some(i) => i < dirs.len() && dirs@[i as int].path@ == path@,
            None => !holds(dirs@, path@),
        },
{
    let wanted = chars_of(path);
    let mut i: usize = 0;
    while i < dirs.len()
        invariant
            i <= dirs.len(),
            wanted@ == path@,
            forall|k: int| 0 <= k < i ==> (#[trigger] dirs@[k]).path@ != path@,
        decreases dirs.len() - i,
    {
        let here = chars_of(dirs[i].path.as_str());
        if chars_eq(&here, &wanted) {
            return Some(i);
        }
        i += 1;
    }
    None
}

/// Where the list holds the path, if anywhere.
pub fn find_path(paths: &Vec<String>, path: &str) -> (r: Option<usize>)
    ensures
        match r {
            Some(i) => i < paths.len() && paths@[i as int]@ == path@,
            None => !has_path(paths@, path@),
        },
{
    let wanted = chars_of(path);
    let mut i: usize = 0;
    while i < paths.len()
        invariant
            i <= paths.len(),
            wanted@ == path@,
            forall|k: int| 0 <= k < i ==> (#[trigger] paths@[k])@ != path@,
        decreases paths.len() - i,
    {
        let here = chars_of(paths[i].as_str());
        if chars_eq(&here, &wanted) {
            return Some(i);
        }
        i += 1;
    }
    None
}

/// Creates an empty directory at the path where there is none.
fn dir_create(dirs: &mut Vec<Stored>, path: &str)
    requires
        no_path_twice(old(dirs)@),
    ensures
        no_path_twice(final(dirs)@),
        dir_map(final(dirs)@) == with_dir(dir_map(old(dirs)@), path@),
{
    match find_dir(dirs, path) {
        Some(i) => {
            proof {
                lemma_dir_at(dirs@, i as int);
            }
        },
        None => {
            let d = Stored { path: path.to_string(), content: 0 };
            proof {
                lemma_dir_push(dirs@, d);
            }
            dirs.push(d);
        },
    }
}

/// What the directory at the path holds, if there is one.
fn dir_get(dirs: &Vec<Stored>, path: &str) -> (r: Option<u64>)
    requires
        no_path_twice(dirs@),
    ensures
        match r {
            Some(c) => dir_map(dirs@).dom().contains(path@) && dir_map(dirs@)[path@] == c,
            None => !dir_map(dirs@).dom().contains(path@),
        },
{
    match find_dir(dirs, path) {
        Some(i) => {
            proof {
                lemma_dir_at(dirs@, i as int);
            }
            Some(dirs[i].content)
        },
        None => None,
    }
}

/// Takes the directory at the path out of the list, if there is one.
fn dir_take(dirs: &mut Vec<Stored>, path: &str)
    requires
        no_path_twice(old(dirs)@),
    ensures
        no_path_twice(final(dirs)@),
        dir_map(final(dirs)@) == dir_map(old(dirs)@).remove(path@),
{
    match find_dir(dirs, path) {
        Some(i) => {
            proof {
                lemma_dir_remove(dirs@, i as int);
            }
            dirs.remove(i);
        },
        None => {
            assert(dir_map(dirs@).remove(path@) =~= dir_map(dirs@));
        },
    }
}

/// Puts a directory with the given content at the path, in place of what
/// lay there.
fn dir_put(dirs: &mut Vec<Stored>, path: &str, content: u64)
    requires
        no_path_twice(old(dirs)@),
    ensures
        no_path_twice(final(dirs)@),
        dir_map(final(dirs)@) == dir_map(old(dirs)@).insert(path@, content as nat),
{
    dir_take(dirs, path);
    let d = Stored { path: path.to_string(), content };
    proof {
        assert(!dir_map(dirs@).dom().contains(path@));
        assert(!holds(dirs@, d.path@));
        lemma_dir_push(dirs@, d);
        assert(dir_map(old(dirs)@).remove(path@).insert(path@, content as nat) =~= dir_map(
            old(dirs)@,
        ).insert(path@, content as nat));
    }
    dirs.push(d);
}

/// One more entry at a new path keeps the paths distinct.
pub proof fn lemma_entry_added(before: Seq<Entry>, after: Seq<Entry>)
    requires
        distinct_paths(before),
        after.len() == before.len() + 1,
        after.subrange(0, before.len() as int) == before,
        !on_disk(before, after[after.len() - 1].path@),
    ensures
        distinct_paths(after),
{
    assert forall|i: int, j: int| 0 <= i < j < after.len() implies (#[trigger] after[i]).path@ != (
    #[trigger] after[j]).path@ by {
        assert(after.subrange(0, before.len() as int)[i] == after[i]);
        if j < before.len() {
            assert(after.subrange(0, before.len() as int)[j] == after[j]);
            assert(before[i].path@ != before[j].path@);
        } else {
            assert(before[i].path@ == after[i].path@);
        }
    }
}

/// What a listing shows, a longer one shows too.
pub proof fn lemma_still_shown(
    s: State,
    before: Seq<Entry>,
    after: Seq<Entry>,
    folder: Seq<char>,
)
    requires
        before.len() <= after.len(),
        after.subrange(0, before.len() as int) == before,
        s.shows_folder(before, folder),
    ensures
        s.shows_folder(after, folder),
{
    if on_disk(before, folder) {
        let j = choose|j: int| 0 <= j < before.len() && (#[trigger] before[j]).path@ == folder;
        assert(after.subrange(0, before.len() as int)[j] == after[j]);
        assert(after[j].path@ == folder);
    }
}

/// A link that a listing shows, a longer one shows too.
pub proof fn lemma_still_linked(before: Seq<Entry>, after: Seq<Entry>, path: Seq<char>)
    requires
        before.len() <= after.len(),
        after.subrange(0, before.len() as int) == before,
        is_link(before, path),
    ensures
        is_link(after, path),
{
    let j = choose|j: int|
        0 <= j < before.len() && (#[trigger] before[j]).path@ == path && before[j].kind
            == EntryKind::Symlink;
    assert(after.subrange(0, before.len() as int)[j] == after[j]);
    assert(after[j].path@ == path && after[j].kind == EntryKind::Symlink);
}

/// Where the listing has an entry at the path, if anywhere.
fn find_entry(entries: &Vec<Entry>, path: &str) -> (r: Option<usize>)
    ensures
        match r {
            Some(i) => i < entries.len() && entries@[i as int].path@ == path@,
            None => !on_disk(entries@, path@),
        },
{
    let wanted = chars_of(path);
    let mut i: usize = 0;
    while i < entries.len()
        invariant
            i <= entries.len(),
            wanted@ == path@,
            forall|k: int| 0 <= k < i ==> (#[trigger] entries@[k]).path@ != path@,
        decreases entries.len() - i,
    {
        let here = chars_of(entries[i].path.as_str());
        if chars_eq(&here, &wanted) {
            return Some(i);
        }
        i += 1;
    }
    None
}

/// The trees of one operator, in memory.
#[derive(Debug, Clone, PartialEq, Eq)]
pub struct Tree {
    links: Vec<String>,
    physical: Vec<Stored>,
    staged: Vec<Stored>,
}

impl View for Tree {
    type V = State;

    closed spec fn view(&self) -> State {
        State {
            links: link_set(self.links@),
            physical: dir_map(self.physical@),
            staged: dir_map(self.staged@),
        }
    }
}

impl Tree {
    /// No path occurs twice in any of the three lists.
    pub closed spec fn wf(&self) -> bool {
        no_string_twice(self.links@) && no_path_twice(self.physical@) && no_path_twice(
            self.staged@,
        )
    }

    /// The trees with nothing in them.
    pub fn new() -> (r: Tree)
        ensures
            r.wf(),
            r@.links == Set::<Seq<char>>::empty(),
            r@.physical == Map::<Seq<char>, nat>::empty(),
            r@.staged == Map::<Seq<char>, nat>::empty(),
            r@.is_healthy(),
    {
        let r = Tree { links: Vec::new(), physical: Vec::new(), staged: Vec::new() };
        assert(r@.links =~= Set::<Seq<char>>::empty());
        assert(r@.physical =~= Map::<Seq<char>, nat>::empty());
        assert(r@.staged =~= Map::<Seq<char>, nat>::empty());
        r
    }

    /// Whether a link lies at the path.
    pub fn is_linked(&self, path: &str) -> (r: bool)
        ensures
            r == self@.links.contains(path@),
    {
        find_path(&self.links, path).is_some()
    }

    /// What the physical directory at the path holds, if there is one.
    pub fn content_at(&self, path: &str) -> (r: Option<u64>)
        requires
            self.wf(),
        ensures
            match r {
                Some(c) => self@.physical.dom().contains(path@) && self@.physical[path@] == c,
                None => !self@.physical.dom().contains(path@),
            },
    {
        dir_get(&self.physical, path)
    }

    /// What the staged directory at the path holds, if there is one.
    pub fn staged_at(&self, path: &str) -> (r: Option<u64>)
        requires
            self.wf(),
        ensures
            match r {
                Some(c) => self@.staged.dom().contains(path@) && self@.staged[path@] == c,
                None => !self@.staged.dom().contains(path@),
            },
    {
        dir_get(&self.staged, path)
    }

    /// Whether the staging area holds nothing.
    pub fn staging_is_empty(&self) -> (r: bool)
        ensures
            r == (self@.staged == Map::<Seq<char>, nat>::empty()),
    {
        if self.staged.len() == 0 {
            assert(self@.staged =~= Map::<Seq<char>, nat>::empty());
            true
        } else {
            assert(holds(self.staged@, self.staged@[0].path@));
            assert(self@.staged.dom().contains(self.staged@[0].path@));
            false
        }
    }

    /// Puts a repository with the given content at the path, link and
    /// directory, unless something lies there in either tree.
    pub fn add_repo(&mut self, path: &str, content: u64) -> (r: bool)
        requires
            old(self).wf(),
        ensures
            final(self).wf(),
            r == (!old(self)@.links.contains(path@) && !old(self)@.physical.dom().contains(path@)),
            r ==> final(self)@ == (State {
                links: old(self)@.links.insert(path@),
                physical: old(self)@.physical.insert(path@, content as nat),
                ..old(self)@
            }),
            !r ==> final(self)@ == old(self)@,
    {
        if find_path(&self.links, path).is_some() || find_dir(&self.physical, path).is_some() {
            return false;
        }
        let d = Stored { path: path.to_string(), content };
        let link = path.to_string();
        proof {
            lemma_dir_push(self.physical@, d);
            lemma_link_push(self.links@, link);
        }
        self.physical.push(d);
        self.links.push(link);
        true
    }

    /// A listing of the visible tree: a link entry for every link, and a
    /// directory entry for every folder above a link, each path once. A
    /// folder named like a repository is not listed, nor one at whose path
    /// a link lies.
    pub fn listing(&self) -> (r: Vec<Entry>)
        requires
            self.wf(),
        ensures
            self@.is_listed_by(r@),
            self@.has_folders_in(r@),
    {
        let mut out: Vec<Entry> = Vec::new();
        let mut k: usize = 0;
        while k < self.links.len()
            invariant
                k <= self.links.len(),
                self.wf(),
                distinct_paths(out@),
                forall|j: int|
                    0 <= j < out.len() && (#[trigger] out@[j]).kind == EntryKind::Symlink
                        ==> exists|i: int|
                        0 <= i < k && (#[trigger] self.links@[i])@ == out@[j].path@,
                forall|i: int| 0 <= i < k ==> is_link(out@, (#[trigger] self.links@[i])@),
                forall|j: int|
                    0 <= j < out.len() && (#[trigger] out@[j]).kind != EntryKind::Symlink
                        ==> out@[j].kind == EntryKind::Directory && !is_repo(out@[j].path@)
                        && !has_path(self.links@, out@[j].path@),
                forall|i: int, a: int|
                    0 <= i < k && 0 <= a < ancestors(self.links@[i]@).len()
                        ==> self@.shows_folder(out@, #[trigger] ancestors(self.links@[i]@)[a]),
            decreases self.links.len() - k,
        {
            let link: &str = self.links[k].as_str();
            let above = ancestors_of(link);
            let ghost chain = ancestors(link@);
            let mut a: usize = 0;
            while a < above.len()
                invariant
                    a <= above.len(),
                    k < self.links.len(),
                    self.wf(),
                    link@ == self.links@[k as int]@,
                    views(above@) == chain,
                    chain == ancestors(link@),
                    distinct_paths(out@),
                    forall|j: int|
                        0 <= j < out.len() && (#[trigger] out@[j]).kind == EntryKind::Symlink
                            ==> exists|i: int|
                            0 <= i < k && (#[trigger] self.links@[i])@ == out@[j].path@,
                    forall|i: int| 0 <= i < k ==> is_link(out@, (#[trigger] self.links@[i])@),
                    forall|j: int|
                        0 <= j < out.len() && (#[trigger] out@[j]).kind != EntryKind::Symlink
                            ==> out@[j].kind == EntryKind::Directory && !is_repo(out@[j].path@)
                            && !has_path(self.links@, out@[j].path@),
                    forall|i: int, b: int|
                        0 <= i < k && 0 <= b < ancestors(self.links@[i]@).len()
                            ==> self@.shows_folder(out@, #[trigger] ancestors(self.links@[i]@)[b]),
                    forall|b: int|
                        0 <= b < a ==> self@.shows_folder(out@, #[trigger] chain[b]),
                decreases above.len() - a,
            {
                let folder: &str = above[a].as_str();
                assert(chain[a as int] == folder@);
                let chars = chars_of(folder);
                let ghost before = out@;
                if !chars_represent_repo(&chars) && find_path(&self.links, folder).is_none()
                    && find_entry(&out, folder).is_none() {
                    out.push(Entry { path: folder.to_string(), kind: EntryKind::Directory });
                    proof {
                        assert(out@.subrange(0, before.len() as int) =~= before);
                        lemma_entry_added(before, out@);
                        assert(out@[out.len() - 1].path@ == folder@);
                    }
                }
                proof {
                    assert(out@.subrange(0, before.len() as int) =~= before);
                    assert(self@.shows_folder(out@, folder@)) by {
                        if !is_repo(folder@) && !has_path(self.links@, folder@) {
                            if before.len() == out.len() {
                                let j = choose|j: int|
                                    0 <= j < before.len() && (#[trigger] before[j]).path@
                                        == folder@;
                                assert(out@[j].path@ == folder@);
                            } else {
                                assert(out@[out.len() - 1].path@ == folder@);
                            }
                        }
                    }
                    assert forall|p: Seq<char>| self@.shows_folder(before, p)
                        implies self@.shows_folder(out@, p) by {
                        lemma_still_shown(self@, before, out@, p);
                    }
                    assert forall|i: int| 0 <= i < k implies is_link(
                        out@,
                        (#[trigger] self.links@[i])@,
                    ) by {
                        lemma_still_linked(before, out@, self.links@[i]@);
                    }
                }
                a += 1;
            }
            let ghost before = out@;
            proof {
                assert(!on_disk(before, link@)) by {
                    if on_disk(before, link@) {
                        let j = choose|j: int|
                            0 <= j < before.len() && (#[trigger] before[j]).path@ == link@;
                        if before[j].kind == EntryKind::Symlink {
                            let i = choose|i: int|
                                0 <= i < k && (#[trigger] self.links@[i])@ == before[j].path@;
                            assert(self.links@[i]@ != self.links@[k as int]@);
                        } else {
                            assert(has_path(self.links@, link@));
                        }
                    }
                }
            }
            out.push(Entry { path: link.to_string(), kind: EntryKind::Symlink });
            proof {
                assert(out@.subrange(0, before.len() as int) =~= before);
                lemma_entry_added(before, out@);
                assert(out@[out.len() - 1].path@ == link@);
                assert(is_link(out@, link@));
                assert forall|p: Seq<char>| self@.shows_folder(before, p)
                    implies self@.shows_folder(out@, p) by {
                    lemma_still_shown(self@, before, out@, p);
                }
                assert forall|i: int| 0 <= i < k + 1 implies is_link(
                    out@,
                    (#[trigger] self.links@[i])@,
                ) by {
                    if i < k {
                        lemma_still_linked(before, out@, self.links@[i]@);
                    }
                }
                assert forall|j: int|
                    0 <= j < out.len() && (#[trigger] out@[j]).kind == EntryKind::Symlink
                        implies exists|i: int|
                    0 <= i < k + 1 && (#[trigger] self.links@[i])@ == out@[j].path@ by {
                    if j < before.len() {
                        assert(before[j] == out@[j]);
                        let i = choose|i: int|
                            0 <= i < k && (#[trigger] self.links@[i])@ == before[j].path@;
                        assert(0 <= i < k + 1 && self.links@[i]@ == out@[j].path@);
                    } else {
                        assert(self.links@[k as int]@ == out@[j].path@);
                    }
                }
                assert forall|i: int, b: int|
                    0 <= i < k + 1 && 0 <= b < ancestors(self.links@[i]@).len()
                        implies self@.shows_folder(out@, #[trigger] ancestors(self.links@[i]@)[b]) by {
                    if i < k {
                        assert(self@.shows_folder(before, ancestors(self.links@[i]@)[b]));
                    } else {
                        assert(self@.shows_folder(before, chain[b]));
                    }
                }
            }
            k += 1;
        }
        proof {
            assert forall|p: Seq<char>| self@.links.contains(p) == is_link(out@, p) by {
                if self@.links.contains(p) {
                    let i = choose|i: int|
                        0 <= i < self.links@.len() && (#[trigger] self.links@[i])@ == p;
                    assert(is_link(out@, self.links@[i]@));
                }
                if is_link(out@, p) {
                    let j = choose|j: int|
                        0 <= j < out@.len() && (#[trigger] out@[j]).path@ == p && out@[j].kind
                            == EntryKind::Symlink;
                    let i = choose|i: int|
                        0 <= i < k && (#[trigger] self.links@[i])@ == out@[j].path@;
                    assert(has_path(self.links@, p));
                }
            }
            assert forall|p: Seq<char>, b: int|
                self@.links.contains(p) && 0 <= b < ancestors(p).len()
                implies self@.shows_folder(out@, #[trigger] ancestors(p)[b]) by {
                let i = choose|i: int|
                    0 <= i < self.links@.len() && (#[trigger] self.links@[i])@ == p;
                assert(self@.shows_folder(out@, ancestors(self.links@[i]@)[b]));
            }
        }
        out
    }

    /// A listing of the physical tree: a directory entry for every
    /// directory.
    pub fn physical_listing(&self) -> (r: Vec<Entry>)
        requires
            self.wf(),
        ensures
            forall|p: Seq<char>| on_disk(r@, p) == self@.physical.dom().contains(p),
    {
        let mut out: Vec<Entry> = Vec::new();
        let mut k: usize = 0;
        while k < self.physical.len()
            invariant
                k <= self.physical.len(),
                out.len() == k,
                forall|i: int| 0 <= i < k ==> (#[trigger] out@[i]).path@ == self.physical@[i].path@,
            decreases self.physical.len() - k,
        {
            out.push(Entry { path: self.physical[k].path.clone(), kind: EntryKind::Directory });
            k += 1;
        }
        proof {
            assert forall|p: Seq<char>| on_disk(out@, p) == self@.physical.dom().contains(
                p,
            ) by {
                if on_disk(out@, p) {
                    let j = choose|j: int| 0 <= j < out@.len() && (#[trigger] out@[j]).path@ == p;
                    assert(self.physical@[j].path@ == p);
                    assert(holds(self.physical@, p));
                }
                if holds(self.physical@, p) {
                    let i = choose|i: int|
                        0 <= i < self.physical@.len() && (#[trigger] self.physical@[i]).path@ == p;
                    assert(out@[i].path@ == p);
                }
            }
        }
        out
    }

    /// Makes one change, as the disk would. Where the change fails the
    /// trees are left as they were and the answer is `false`.
    pub fn apply(&mut self, action: &Action<String>) -> (r: bool)
        requires
            old(self).wf(),
        ensures
            final(self).wf(),
            match old(self)@.apply(action@) {
                Some(t) => r && final(self)@ == t,
                None => !r && final(self)@ == old(self)@,
            },
    {
        match action {
            Action::CreateDirAll(place, p) => {
                match place {
                    Place::Visible => {},
                    Place::Physical => {
                        dir_create(&mut self.physical, p.as_str());
                    },
                    Place::Staging => {
                        dir_create(&mut self.staged, p.as_str());
                    },
                }
                true
            },
            Action::InitBare(p) => {
                match dir_get(&self.physical, p.as_str()) {
                    None => false,
                    Some(c) => {
                        if c == 0 {
                            dir_put(&mut self.physical, p.as_str(), 1);
                        }
                        true
                    },
                }
            },
            Action::Rename(from, p, to, q) => {
                match (from, to) {
                    (Place::Physical, Place::Physical) => {
                        match dir_get(&self.physical, p.as_str()) {
                            None => false,
                            Some(c) => {
                                let ghost before = dir_map(self.physical@);
                                dir_take(&mut self.physical, p.as_str());
                                let free: bool = match dir_get(&self.physical, q.as_str()) {
                                    None => true,
                                    Some(there) => there == 0,
                                };
                                if free {
                                    dir_put(&mut self.physical, q.as_str(), c);
                                    true
                                } else {
                                    dir_put(&mut self.physical, p.as_str(), c);
                                    assert(dir_map(self.physical@) =~= before);
                                    false
                                }
                            },
                        }
                    },
                    (Place::Physical, Place::Staging) => {
                        match dir_get(&self.physical, p.as_str()) {
                            None => false,
                            Some(c) => {
                                let free: bool = match dir_get(&self.staged, q.as_str()) {
                                    None => true,
                                    Some(there) => there == 0,
                                };
                                if free {
                                    dir_take(&mut self.physical, p.as_str());
                                    dir_put(&mut self.staged, q.as_str(), c);
                                }
                                free
                            },
                        }
                    },
                    (Place::Staging, Place::Physical) => {
                        match dir_get(&self.staged, p.as_str()) {
                            None => false,
                            Some(c) => {
                                let free: bool = match dir_get(&self.physical, q.as_str()) {
                                    None => true,
                                    Some(there) => there == 0,
                                };
                                if free {
                                    dir_take(&mut self.staged, p.as_str());
                                    dir_put(&mut self.physical, q.as_str(), c);
                                }
                                free
                            },
                        }
                    },
                    _ => false,
                }
            },
            Action::Link(p) => {
                match find_path(&self.links, p.as_str()) {
                    Some(_) => false,
                    None => {
                        let link = p.clone();
                        proof {
                            lemma_link_push(self.links@, link);
                        }
                        self.links.push(link);
                        true
                    },
                }
            },
            Action::Unlink(p) => {
                match find_path(&self.links, p.as_str()) {
                    Some(i) => {
                        proof {
                            lemma_link_remove(self.links@, i as int);
                        }
                        self.links.remove(i);
                        true
                    },
                    None => false,
                }
            },
            Action::RemoveTree(p) => {
                match dir_get(&self.physical, p.as_str()) {
                    None => false,
                    Some(_) => {
                        dir_take(&mut self.physical, p.as_str());
                        true
                    },
                }
            },
            Action::Prune(_, _) => true,
            Action::DropStaging => {
                self.staged = Vec::new();
                assert(dir_map(self.staged@) =~= Map::<Seq<char>, nat>::empty());
                true
            },
        }
    }

    /// Carries out a script, step by step, up to the first change that
    /// fails. The answer says whether every step was made.
    pub fn run(&mut self, steps: &Vec<Step<String>>) -> (r: bool)
        requires
            old(self).wf(),
        ensures
            final(self).wf(),
            match old(self)@.run(step_views(steps@)) {
                Some(t) => r && final(self)@ == t,
                None => !r,
            },
    {
        let ghost all = step_views(steps@);
        let ghost start = self@;
        let mut i: usize = 0;
        while i < steps.len()
            invariant
                i <= steps.len(),
                self.wf(),
                all == step_views(steps@),
                start == old(self)@,
                start.run_upto(all, i as int) == Some(self@),
            decreases steps.len() - i,
        {
            assert(all[i as int] == steps@[i as int]@);
            let ok: bool = match &steps[i] {
                Step::Do(action) => self.apply(action),
                _ => true,
            };
            if !ok {
                proof {
                    assert(start.run_upto(all, i + 1) is None);
                    lemma_failed_run(start, all, i + 1, all.len() as int);
                }
                return false;
            }
            i += 1;
        }
        true
    }
}

/// A script that has failed stays failed.
pub proof fn lemma_failed_run(s: State, steps: Seq<StepView>, n: int, m: int)
    requires
        0 <= n <= m,
        s.run_upto(steps, n) is None,
    ensures
        s.run_upto(steps, m) is None,
    decreases m - n,
{
    if n < m {
        lemma_failed_run(s, steps, n, m - 1);
    }
}

} // verus!

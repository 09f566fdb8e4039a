//! Pruning: once a repository has left a path, the folders above it are
//! removed from the nearest upward, as long as each is found empty.

use crate::path::is_under;
use crate::relocate::{parent_of, parent_path};
use crate::text::{chars_of, str_eq, views};
use crate::tree::{find_path, has_path, lemma_link_remove, link_set, no_string_twice};
use crate::walk::chars_under;
use vstd::prelude::*;

verus! {

/// What lies at a folder when pruning looks at it.
#[derive(Debug, Clone, Copy, PartialEq, Eq)]
pub enum Found {
    /// Nothing lies there.
    Missing,
    /// A directory that holds nothing.
    Empty,
    /// A directory that holds something.
    Occupied,
}

/// The folders above a path, nearest first, the root left out.
pub open spec fn ancestors(path: Seq<char>) -> Seq<Seq<char>>
    decreases path.len(),
{
    let parent = parent_path(path);
    if parent.len() == 0 || parent.len() >= path.len() {
        Seq::<Seq<char>>::empty()
    } else {
        seq![parent] + ancestors(parent)
    }
}

/// The first `n` folders, up to the first that is the stop and without it.
pub open spec fn before_stop(chain: Seq<Seq<char>>, stop: Option<Seq<char>>, n: int) -> Seq<
    Seq<char>,
>
    decreases n,
{
    if n <= 0 {
        Seq::<Seq<char>>::empty()
    } else if before_stop(chain, stop, n - 1).len() < n - 1 || stop == Some(chain[n - 1]) {
        before_stop(chain, stop, n - 1)
    } else {
        before_stop(chain, stop, n - 1).push(chain[n - 1])
    }
}

/// The folders that pruning may remove above `path`: its ancestors, nearest
/// first, up to the root or the stop, neither of which is ever removed.
pub open spec fn prunable(path: Seq<char>, stop: Option<Seq<char>>) -> Seq<Seq<char>> {
    before_stop(ancestors(path), stop, ancestors(path).len() as int)
}

/// The folders above a path, nearest first, the root left out.
pub fn ancestors_of(path: &str) -> (r: Vec<String>)
    ensures
        views(r@) == ancestors(path@),
{
    let mut out: Vec<String> = Vec::new();
    let mut current: String = path.to_string();
    let ghost mut done: Seq<Seq<char>> = Seq::empty();
    assert(views(out@) =~= done);
    loop
        invariant
            views(out@) == done,
            ancestors(path@) == done + ancestors(current@),
        decreases current@.len(),
    {
        let parent = parent_of(current.as_str());
        let shorter: bool = parent.as_str().unicode_len() < current.as_str().unicode_len();
        if parent.as_str().unicode_len() == 0 || !shorter {
            assert(ancestors(current@) =~= Seq::<Seq<char>>::empty());
            assert(done + ancestors(current@) =~= done);
            return out;
        }
        proof {
            assert(ancestors(current@) == seq![parent@] + ancestors(parent@));
            assert(done + ancestors(current@) =~= done.push(parent@) + ancestors(parent@));
            done = done.push(parent@);
        }
        let ghost before = views(out@);
        out.push(parent.clone());
        assert(views(out@) =~= before.push(parent@));
        current = parent;
    }
}

/// A pruning in progress: the folders to look at, and how far it has come.
#[derive(Debug)]
pub struct Pruning {
    chain: Vec<String>,
    position: usize,
    finished: bool,
}

impl Pruning {
    /// The folders still to look at, nearest first; none once pruning has
    /// stopped.
    pub closed spec fn remaining(&self) -> Seq<Seq<char>> {
        if self.finished {
            Seq::<Seq<char>>::empty()
        } else {
            views(self.chain@).skip(self.position as int)
        }
    }

    #[verifier::type_invariant]
    spec fn in_bounds(&self) -> bool {
        self.position <= self.chain.len()
    }

    /// The folder to look at next, or `None` when pruning is over.
    pub fn current(&self) -> (r: Option<&str>)
        ensures
            match r {
                Some(folder) => self.remaining().len() > 0 && folder@ == self.remaining()[0],
                None => self.remaining().len() == 0,
            },
    {
        proof {
            use_type_invariant(self);
        }
        if self.finished || self.position >= self.chain.len() {
            None
        } else {
            assert(views(self.chain@).skip(self.position as int)[0]
                == self.chain@[self.position as int]@);
            Some(self.chain[self.position].as_str())
        }
    }

    /// Takes what was found at the current folder. An empty folder is to be
    /// removed, and pruning goes on above it: the answer is `true`. At a
    /// folder that is missing or holds something pruning stops, and nothing
    /// is removed: the answer is `false`.
    pub fn decide(&mut self, found: Found) -> (remove: bool)
        ensures
            remove == (found == Found::Empty && old(self).remaining().len() > 0),
            remove ==> final(self).remaining() == old(self).remaining().drop_first(),
            !remove ==> final(self).remaining().len() == 0,
    {
        proof {
            use_type_invariant(&*self);
        }
        let empty: bool = match found {
            Found::Empty => true,
            _ => false,
        };
        if !self.finished && self.position < self.chain.len() && empty {
            assert(views(self.chain@).skip(self.position + 1) =~= views(self.chain@).skip(
                self.position as int,
            ).drop_first());
            self.position = self.position + 1;
            true
        } else {
            self.finished = true;
            false
        }
    }
}

/// Starts pruning above `path`. The folders are looked at from the nearest
/// upward; the root is never one of them, nor is `stop` or anything above
/// it.
pub fn clean_empty_parent_folders(path: &str, stop: Option<&str>) -> (r: Pruning)
    ensures
        r.remaining() == prunable(
            path@,
            match stop {
                Some(s) => Some(s@),
                None => None,
            },
        ),
{
    let all = ancestors_of(path);
    let ghost limit: Option<Seq<char>> = match stop {
        Some(s) => Some(s@),
        None => None,
    };
    let ghost full = views(all@);
    let mut chain: Vec<String> = Vec::new();
    let mut k: usize = 0;
    let mut stopped: bool = false;
    assert(views(chain@) =~= before_stop(full, limit, 0));
    while k < all.len()
        invariant
            k <= all.len(),
            full == views(all@),
            limit == (match stop {
                Some(s) => Some(s@),
                None => None,
            }),
            views(chain@) == before_stop(full, limit, k as int),
            stopped == (chain.len() < k),
            chain.len() <= k,
        decreases all.len() - k,
    {
        assert(full[k as int] == all@[k as int]@);
        let at_stop: bool = match stop {
            Some(s) => str_eq(s, all[k].as_str()),
            None => false,
        };
        if at_stop {
            assert(limit == Some(full[k as int]));
        } else {
            assert(limit != Some(full[k as int]));
        }
        if !stopped && !at_stop {
            let ghost before = views(chain@);
            chain.push(all[k].clone());
            assert(views(chain@) =~= before.push(full[k as int]));
        } else {
            stopped = true;
        }
        k += 1;
    }
    assert(views(chain@).skip(0) =~= views(chain@));
    Pruning { chain, position: 0, finished: false }
}

/// What pruning finds at a folder of a tree. The tree is given as the set
/// of the paths at which something lies, folders and all.
pub open spec fn found_in(tree: Set<Seq<char>>, folder: Seq<char>) -> Found {
    if !tree.contains(folder) {
        Found::Missing
    } else if exists|p: Seq<char>| tree.contains(p) && is_under(p, folder) {
        Found::Occupied
    } else {
        Found::Empty
    }
}

/// The tree after pruning has looked at the first `n` folders of the
/// chain, and whether it still goes on: a folder found empty is removed,
/// and at the first that is not pruning stops for good.
pub open spec fn pruned_upto(tree: Set<Seq<char>>, chain: Seq<Seq<char>>, n: int) -> (
    Set<Seq<char>>,
    bool,
)
    decreases n,
{
    if n <= 0 {
        (tree, true)
    } else {
        let (before, going) = pruned_upto(tree, chain, n - 1);
        if going && found_in(before, chain[n - 1]) == Found::Empty {
            (before.remove(chain[n - 1]), true)
        } else {
            (before, false)
        }
    }
}

/// The tree after the folders above `path` were pruned.
pub open spec fn pruned(tree: Set<Seq<char>>, path: Seq<char>, stop: Option<Seq<char>>) -> Set<
    Seq<char>,
> {
    pruned_upto(tree, prunable(path, stop), prunable(path, stop).len() as int).0
}

/// Once pruning has stopped the tree stays as it is.
pub proof fn lemma_pruning_stopped(tree: Set<Seq<char>>, chain: Seq<Seq<char>>, n: int, m: int)
    requires
        0 <= n <= m,
        !pruned_upto(tree, chain, n).1,
    ensures
        pruned_upto(tree, chain, m) == pruned_upto(tree, chain, n),
    decreases m - n,
{
    if n < m {
        lemma_pruning_stopped(tree, chain, n, m - 1);
    }
}

/// Every folder above a path has a shorter path than it, and the nearer
/// folder has the longer path.
pub proof fn lemma_ancestors_shrink(path: Seq<char>, i: int, j: int)
    requires
        0 <= i <= j < ancestors(path).len(),
    ensures
        ancestors(path)[i].len() < path.len(),
        i < j ==> ancestors(path)[j].len() < ancestors(path)[i].len(),
    decreases path.len(),
{
    let parent = parent_path(path);
    let rest = ancestors(parent);
    assert(ancestors(path) == seq![parent] + rest);
    if i > 0 {
        lemma_ancestors_shrink(parent, i - 1, j - 1);
        assert(ancestors(path)[i] == rest[i - 1]);
        assert(ancestors(path)[j] == rest[j - 1]);
    } else {
        assert(ancestors(path)[0] == parent);
        if j > 0 {
            lemma_ancestors_shrink(parent, j - 1, j - 1);
            assert(ancestors(path)[j] == rest[j - 1]);
        }
    }
}

/// What is kept before the stop is the beginning of the chain.
pub proof fn lemma_before_stop(chain: Seq<Seq<char>>, stop: Option<Seq<char>>, n: int)
    requires
        0 <= n <= chain.len(),
    ensures
        before_stop(chain, stop, n).len() <= n,
        forall|i: int|
            0 <= i < before_stop(chain, stop, n).len() ==> #[trigger] before_stop(chain, stop, n)[i]
                == chain[i],
        forall|i: int|
            0 <= i < before_stop(chain, stop, n).len() ==> stop != Some(#[trigger] chain[i]),
    decreases n,
{
    if n > 0 {
        lemma_before_stop(chain, stop, n - 1);
    }
}

/// No folder occurs twice among those that pruning may remove, and the
/// nearer of two has the longer path.
pub proof fn lemma_prunable_shrinks(path: Seq<char>, stop: Option<Seq<char>>, i: int, j: int)
    requires
        0 <= i < j < prunable(path, stop).len(),
    ensures
        prunable(path, stop)[j].len() < prunable(path, stop)[i].len(),
        prunable(path, stop)[i] != prunable(path, stop)[j],
        stop != Some(prunable(path, stop)[i]),
{
    lemma_before_stop(ancestors(path), stop, ancestors(path).len() as int);
    lemma_ancestors_shrink(path, i, j);
}

/// The first `k` folders above `path` hold nothing but the chain down to
/// `path`: each of them is there, and whatever lies below one of them is
/// one of the folders nearer to `path`.
pub open spec fn were_made_for(tree: Set<Seq<char>>, chain: Seq<Seq<char>>, k: int) -> bool {
    &&& 0 <= k <= chain.len()
    &&& forall|i: int| 0 <= i < k ==> tree.contains(#[trigger] chain[i])
    &&& forall|i: int, p: Seq<char>|
        0 <= i < k && tree.contains(p) && #[trigger] is_under(p, chain[i]) ==> exists|j: int|
            0 <= j < i && chain[j] == p
}

/// The tree without the first `n` folders of the chain.
pub open spec fn without_first(tree: Set<Seq<char>>, chain: Seq<Seq<char>>, n: int) -> Set<
    Seq<char>,
> {
    Set::new(|p: Seq<char>| tree.contains(p) && !exists|j: int| 0 <= j < n && chain[j] == p)
}

/// Pruning removes the folders that were made for the path, one after the
/// other from the nearest upward.
pub proof fn lemma_made_for_are_pruned(
    tree: Set<Seq<char>>,
    chain: Seq<Seq<char>>,
    k: int,
    n: int,
)
    requires
        were_made_for(tree, chain, k),
        0 <= n <= k,
        forall|i: int, j: int| 0 <= i < j < chain.len() ==> chain[i] != chain[j],
    ensures
        pruned_upto(tree, chain, n) == (without_first(tree, chain, n), true),
    decreases n,
{
    if n <= 0 {
        assert(without_first(tree, chain, 0) =~= tree);
    } else {
        lemma_made_for_are_pruned(tree, chain, k, n - 1);
        let before = without_first(tree, chain, n - 1);
        let folder = chain[n - 1];
        assert(tree.contains(chain[n - 1]));
        assert(before.contains(folder)) by {
            if exists|j: int| 0 <= j < n - 1 && chain[j] == folder {
                let j = choose|j: int| 0 <= j < n - 1 && chain[j] == folder;
                assert(chain[j] != chain[n - 1]);
            }
        }
        assert(found_in(before, folder) == Found::Empty) by {
            if exists|p: Seq<char>| before.contains(p) && is_under(p, folder) {
                let p = choose|p: Seq<char>| before.contains(p) && is_under(p, folder);
                assert(tree.contains(p) && is_under(p, chain[n - 1]));
                let j = choose|j: int| 0 <= j < n - 1 && chain[j] == p;
                assert(0 <= j < n - 1 && chain[j] == p);
            }
        }
        assert(before.remove(folder) =~= without_first(tree, chain, n)) by {
            assert forall|p: Seq<char>| before.remove(folder).contains(p) == without_first(
                tree,
                chain,
                n,
            ).contains(p) by {
                if exists|j: int| 0 <= j < n && chain[j] == p {
                    let j = choose|j: int| 0 <= j < n && chain[j] == p;
                    if j < n - 1 {
                        assert(0 <= j < n - 1 && chain[j] == p);
                    }
                }
                if exists|j: int| 0 <= j < n - 1 && chain[j] == p {
                    let j = choose|j: int| 0 <= j < n - 1 && chain[j] == p;
                    assert(0 <= j < n && chain[j] == p);
                }
                if p == folder {
                    assert(0 <= n - 1 < n && chain[n - 1] == p);
                }
            }
        }
    }
}

/// No folder made for one repository alone outlives it. Once the
/// repository is gone, the folders above it that held nothing but the way
/// down to it are all removed, from the nearest upward, in whichever tree
/// pruning runs. Pruning ends where it has reached the root or the stop,
/// or at the first folder that is missing or holds something else, and
/// nothing but those folders is taken from the tree.
pub proof fn law_folders_made_for_one_are_pruned(
    tree: Set<Seq<char>>,
    path: Seq<char>,
    stop: Option<Seq<char>>,
    k: int,
)
    requires
        were_made_for(tree, prunable(path, stop), k),
        k < prunable(path, stop).len() ==> found_in(
            without_first(tree, prunable(path, stop), k),
            prunable(path, stop)[k],
        ) != Found::Empty,
    ensures
        pruned(tree, path, stop) == without_first(tree, prunable(path, stop), k),
        forall|i: int| 0 <= i < k ==> !pruned(tree, path, stop).contains(
            #[trigger] prunable(path, stop)[i],
        ),
        forall|p: Seq<char>|
            #[trigger] pruned(tree, path, stop).contains(p) ==> tree.contains(p),
        forall|p: Seq<char>|
            tree.contains(p) && !prunable(path, stop).contains(p) ==> #[trigger] pruned(
                tree,
                path,
                stop,
            ).contains(p),
        stop matches Some(limit) ==> pruned(tree, path, stop).contains(limit) == tree.contains(
            limit,
        ),
{
    let chain = prunable(path, stop);
    let len = chain.len() as int;
    assert forall|i: int, j: int| 0 <= i < j < chain.len() implies chain[i] != chain[j] by {
        lemma_prunable_shrinks(path, stop, i, j);
    }
    lemma_made_for_are_pruned(tree, chain, k, k);
    let left = without_first(tree, chain, k);
    if k < len {
        assert(pruned_upto(tree, chain, k + 1) == (left, false));
        lemma_pruning_stopped(tree, chain, k + 1, len);
    }
    assert(pruned(tree, path, stop) == left);
    assert forall|i: int| 0 <= i < k implies !left.contains(#[trigger] chain[i]) by {
        assert(0 <= i < k && chain[i] == chain[i]);
    }
    assert forall|p: Seq<char>| tree.contains(p) && !chain.contains(p) implies left.contains(
        p,
    ) by {
        if exists|j: int| 0 <= j < k && chain[j] == p {
            let j = choose|j: int| 0 <= j < k && chain[j] == p;
            assert(chain.contains(p));
        }
    }
    if stop is Some {
        let limit = stop->0;
        lemma_before_stop(ancestors(path), stop, ancestors(path).len() as int);
        if exists|j: int| 0 <= j < k && chain[j] == limit {
            let j = choose|j: int| 0 <= j < k && chain[j] == limit;
            assert(stop != Some(ancestors(path)[j]));
            assert(chain[j] == ancestors(path)[j]);
        }
    }
}

/// What lies at a folder of a tree that is held as a list of paths.
pub fn look_at(paths: &Vec<String>, folder: &str) -> (r: Found)
    ensures
        r == found_in(link_set(paths@), folder@),
{
    if find_path(paths, folder).is_none() {
        return Found::Missing;
    }
    let above = chars_of(folder);
    let mut i: usize = 0;
    while i < paths.len()
        invariant
            i <= paths.len(),
            above@ == folder@,
            link_set(paths@).contains(folder@),
            forall|k: int| 0 <= k < i ==> !is_under((#[trigger] paths@[k])@, folder@),
        decreases paths.len() - i,
    {
        let here = chars_of(paths[i].as_str());
        if chars_under(&here, &above) {
            assert(has_path(paths@, paths@[i as int]@));
            assert(link_set(paths@).contains(paths@[i as int]@));
            return Found::Occupied;
        }
        i += 1;
    }
    proof {
        if exists|p: Seq<char>| link_set(paths@).contains(p) && is_under(p, folder@) {
            let p = choose|p: Seq<char>| link_set(paths@).contains(p) && is_under(p, folder@);
            let k = choose|k: int| 0 <= k < paths@.len() && (#[trigger] paths@[k])@ == p;
            assert(!is_under(paths@[k]@, folder@));
        }
    }
    Found::Empty
}

/// Prunes the folders above `path` in a tree that is held as a list of
/// paths, as pruning does on disk: it looks at one folder after the other
/// and removes each that it finds empty, until one is not.
pub fn prune_above(paths: &mut Vec<String>, path: &str, stop: Option<&str>)
    requires
        no_string_twice(old(paths)@),
    ensures
        no_string_twice(final(paths)@),
        link_set(final(paths)@) == pruned(
            link_set(old(paths)@),
            path@,
            match stop {
                Some(s) => Some(s@),
                None => None,
            },
        ),
{
    let ghost limit: Option<Seq<char>> = match stop {
        Some(s) => Some(s@),
        None => None,
    };
    let ghost start = link_set(paths@);
    let ghost chain = prunable(path@, limit);
    let ghost mut n: int = 0;
    let mut pruning = clean_empty_parent_folders(path, stop);
    assert(chain.skip(0) =~= chain);
    loop
        invariant_except_break
            pruning.remaining() == chain.skip(n),
            pruned_upto(start, chain, n) == (link_set(paths@), true),
        invariant
            0 <= n <= chain.len(),
            no_string_twice(paths@),
            chain == prunable(path@, limit),
        ensures
            no_string_twice(paths@),
            pruned_upto(start, chain, chain.len() as int).0 == link_set(paths@),
        decreases chain.len() - n,
    {
        let folder: String = match pruning.current() {
            Some(folder) => folder.to_string(),
            None => {
                assert(n == chain.len());
                break ;
            },
        };
        assert(folder@ == chain[n]);
        let found = look_at(paths, folder.as_str());
        if !pruning.decide(found) {
            proof {
                assert(pruned_upto(start, chain, n + 1) == (link_set(paths@), false));
                lemma_pruning_stopped(start, chain, n + 1, chain.len() as int);
            }
            break ;
        }
        match find_path(paths, folder.as_str()) {
            Some(i) => {
                proof {
                    lemma_link_remove(paths@, i as int);
                }
                paths.remove(i);
            },
            None => {},
        }
        proof {
            assert(chain.skip(n).drop_first() =~= chain.skip(n + 1));
            n = n + 1;
        }
    }
}

} // verus!

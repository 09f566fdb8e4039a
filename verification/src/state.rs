//! What a script means: the two trees and the staging area as plain
//! mathematics, and the effect of every step on them. Folders are not part
//! of the state: a folder is there exactly as long as something lies in it.

use crate::path::is_repo;
use crate::plan::on_disk;
use crate::prune::ancestors;
use crate::relocate::{is_link, StepView};
use crate::script::{is_silent, Action, Place, Step};
use crate::walk::{distinct_paths, Entry, EntryKind};
use vstd::prelude::*;

verus! {

/// The repositories of one operator. A physical directory holds what its
/// number stands for; 0 is a directory that holds nothing yet.
#[verifier::ext_equal]
pub struct State {
    /// The paths at which the visible tree has a link.
    pub links: Set<Seq<char>>,
    /// The directories of the physical tree, by path.
    pub physical: Map<Seq<char>, nat>,
    /// The directories of the staging area, by path.
    pub staged: Map<Seq<char>, nat>,
}

/// What `git init` leaves in an empty directory.
pub open spec fn fresh() -> nat {
    1
}

/// Nothing lies at the path, or a directory that holds nothing.
pub open spec fn is_free(dirs: Map<Seq<char>, nat>, path: Seq<char>) -> bool {
    !dirs.dom().contains(path) || dirs[path] == 0
}

/// The directory at the path, created empty where there was none.
pub open spec fn with_dir(dirs: Map<Seq<char>, nat>, path: Seq<char>) -> Map<Seq<char>, nat> {
    if dirs.dom().contains(path) {
        dirs
    } else {
        dirs.insert(path, 0)
    }
}

impl State {
    /// Every link has its repository and every repository its link, each
    /// repository holds something, and the staging area is empty.
    pub open spec fn is_healthy(self) -> bool {
        &&& self.links == self.physical.dom()
        &&& forall|p: Seq<char>| self.physical.dom().contains(p) ==> #[trigger] self.physical[p] > 0
        &&& self.staged == Map::<Seq<char>, nat>::empty()
    }

    /// The listing shows the links truly: no path twice, a link entry for
    /// every link and for nothing else, and no other entry under the name
    /// of a repository.
    pub open spec fn is_listed_by(self, es: Seq<Entry>) -> bool {
        &&& distinct_paths(es)
        &&& forall|p: Seq<char>| self.links.contains(p) == is_link(es, p)
        &&& forall|j: int|
            0 <= j < es.len() && (#[trigger] es[j]).kind != EntryKind::Symlink ==> !is_repo(
                es[j].path@,
            )
    }

    /// The folder is in the listing, unless it is named like a repository
    /// or a link lies at its path.
    pub open spec fn shows_folder(self, es: Seq<Entry>, folder: Seq<char>) -> bool {
        is_repo(folder) || self.links.contains(folder) || on_disk(es, folder)
    }

    /// The listing shows the folders above every link.
    pub open spec fn has_folders_in(self, es: Seq<Entry>) -> bool {
        forall|p: Seq<char>, b: int|
            self.links.contains(p) && 0 <= b < ancestors(p).len() ==> self.shows_folder(
                es,
                #[trigger] ancestors(p)[b],
            )
    }

    /// The state after one change, or `None` where the change fails on
    /// disk: a rename needs something to move and a free place to put it; a
    /// link needs a free path; what is removed must be there.
    pub open spec fn apply(self, action: Action<Seq<char>>) -> Option<State> {
        match action {
            Action::CreateDirAll(place, p) => match place {
                Place::Visible => Some(self),
                Place::Physical => Some(State { physical: with_dir(self.physical, p), ..self }),
                Place::Staging => Some(State { staged: with_dir(self.staged, p), ..self }),
            },
            Action::InitBare(p) => if !self.physical.dom().contains(p) {
                None
            } else if self.physical[p] == 0 {
                Some(State { physical: self.physical.insert(p, fresh()), ..self })
            } else {
                Some(self)
            },
            Action::Rename(from, p, to, q) => match (from, to) {
                (Place::Physical, Place::Physical) => if self.physical.dom().contains(p) && is_free(
                    self.physical.remove(p),
                    q,
                ) {
                    Some(
                        State {
                            physical: self.physical.remove(p).insert(q, self.physical[p]),
                            ..self
                        },
                    )
                } else {
                    None
                },
                (Place::Physical, Place::Staging) => if self.physical.dom().contains(p) && is_free(
                    self.staged,
                    q,
                ) {
                    Some(
                        State {
                            physical: self.physical.remove(p),
                            staged: self.staged.insert(q, self.physical[p]),
                            ..self
                        },
                    )
                } else {
                    None
                },
                (Place::Staging, Place::Physical) => if self.staged.dom().contains(p) && is_free(
                    self.physical,
                    q,
                ) {
                    Some(
                        State {
                            physical: self.physical.insert(q, self.staged[p]),
                            staged: self.staged.remove(p),
                            ..self
                        },
                    )
                } else {
                    None
                },
                _ => None,
            },
            Action::Link(p) => if self.links.contains(p) {
                None
            } else {
                Some(State { links: self.links.insert(p), ..self })
            },
            Action::Unlink(p) => if self.links.contains(p) {
                Some(State { links: self.links.remove(p), ..self })
            } else {
                None
            },
            Action::RemoveTree(p) => if self.physical.dom().contains(p) {
                Some(State { physical: self.physical.remove(p), ..self })
            } else {
                None
            },
            Action::Prune(_, _) => Some(self),
            Action::DropStaging => Some(State { staged: Map::<Seq<char>, nat>::empty(), ..self }),
        }
    }

    /// The state after one step. Lines that are printed change nothing.
    pub open spec fn step(self, step: StepView) -> Option<State> {
        match step {
            Step::Do(action) => self.apply(action),
            Step::Say(_) => Some(self),
            Step::Warn(_) => Some(self),
        }
    }

    /// The state after the first `n` steps, or `None` as soon as one fails.
    pub open spec fn run_upto(self, steps: Seq<StepView>, n: int) -> Option<State>
        decreases n,
    {
        if n <= 0 {
            Some(self)
        } else {
            match self.run_upto(steps, n - 1) {
                Some(s) => s.step(steps[n - 1]),
                None => None,
            }
        }
    }

    /// The state after all the steps, or `None` as soon as one fails.
    pub open spec fn run(self, steps: Seq<StepView>) -> Option<State> {
        self.run_upto(steps, steps.len() as int)
    }
}

/// The first steps of a longer script run as they do alone.
pub proof fn lemma_run_prefix(s: State, a: Seq<StepView>, b: Seq<StepView>, n: int)
    requires
        0 <= n <= a.len(),
    ensures
        s.run_upto(a + b, n) == s.run_upto(a, n),
    decreases n,
{
    if n > 0 {
        lemma_run_prefix(s, a, b, n - 1);
        assert((a + b)[n - 1] == a[n - 1]);
    }
}

/// The steps behind a script that succeeds run from where it ended.
pub proof fn lemma_run_suffix(s: State, t: State, a: Seq<StepView>, b: Seq<StepView>, n: int)
    requires
        s.run(a) == Some(t),
        0 <= n <= b.len(),
    ensures
        s.run_upto(a + b, a.len() + n) == t.run_upto(b, n),
    decreases n,
{
    if n > 0 {
        lemma_run_suffix(s, t, a, b, n - 1);
        assert((a + b)[a.len() + n - 1] == b[n - 1]);
    } else {
        lemma_run_prefix(s, a, b, a.len() as int);
    }
}

/// Two scripts in a row: where the first succeeds, the second goes on from
/// its end.
pub proof fn lemma_run_both(s: State, t: State, a: Seq<StepView>, b: Seq<StepView>)
    requires
        s.run(a) == Some(t),
    ensures
        s.run(a + b) == t.run(b),
{
    lemma_run_suffix(s, t, a, b, b.len() as int);
}

/// A script that changes nothing on disk always succeeds and leaves every
/// state as it was.
pub proof fn lemma_silent_run(s: State, steps: Seq<StepView>, n: int)
    requires
        is_silent(steps),
        0 <= n <= steps.len(),
    ensures
        s.run_upto(steps, n) == Some(s),
    decreases n,
{
    if n > 0 {
        lemma_silent_run(s, steps, n - 1);
        assert(!(steps[n - 1] is Do));
    }
}

} // verus!

//! Deleting repositories. What the patterns matched is resolved to single
//! repositories; each is then deleted on its own, after the operator has
//! said yes to it unless told not to ask.

use crate::glob::PatternSet;
use crate::path::{chars_represent_repo, is_repo};
use crate::plan::repos_below;
use crate::relocate::StepView;
use crate::script::{
    count_line, counted, is_silent, push_step, quote, quoted, step_views, Action, Place, Script,
    Step,
};
use crate::text::{chars_of, concat, views};
use crate::walk::{filter_repos, t_filter_repos, walk_of, Entry, Walk};
use vstd::prelude::*;

verus! {

/// The repositories that one matched entry stands for: itself where it is a
/// repository, else every repository below it.
pub open spec fn targets_of(source: Seq<char>, entries: Seq<Entry>) -> Seq<Seq<char>> {
    if is_repo(source) {
        seq![source]
    } else {
        repos_below(entries, source)
    }
}

/// The repositories that the first `n` matched entries stand for.
pub open spec fn targets_upto(sources: Seq<Seq<char>>, entries: Seq<Entry>, n: int) -> Seq<
    Seq<char>,
>
    decreases n,
{
    if n <= 0 {
        Seq::<Seq<char>>::empty()
    } else {
        targets_upto(sources, entries, n - 1) + targets_of(sources[n - 1], entries)
    }
}

/// The repositories that the patterns select for deletion: every matched
/// repository, and every repository below a matched folder.
pub open spec fn selected_for_deletion(filters: PatternSet, entries: Seq<Entry>) -> Seq<Seq<char>> {
    let matched = Walk { root: None, match_folders: true, filter: Some(filters) }.yielded(entries);
    targets_upto(matched, entries, matched.len() as int)
}

/// A character that is trimmed from the ends of an answer.
pub open spec fn is_white_space(c: char) -> bool {
    ||| ('\u{9}' <= c && c <= '\u{d}')
    ||| c == ' '
    ||| c == '\u{85}'
    ||| c == '\u{a0}'
    ||| c == '\u{1680}'
    ||| ('\u{2000}' <= c && c <= '\u{200a}')
    ||| c == '\u{2028}'
    ||| c == '\u{2029}'
    ||| c == '\u{202f}'
    ||| c == '\u{205f}'
    ||| c == '\u{3000}'
}

/// The answer is a yes: a single `y` or `Y`, with nothing but white space
/// around it.
pub open spec fn is_yes(answer: Seq<char>) -> bool {
    exists|i: int|
        0 <= i < answer.len() && (#[trigger] answer[i] == 'y' || answer[i] == 'Y') && forall|j: int|
            0 <= j < answer.len() && j != i ==> is_white_space(#[trigger] answer[j])
}

/// The question put to the operator before a repository is deleted.
pub open spec fn question(path: Seq<char>) -> Seq<char> {
    "Delete "@ + quoted(path) + " [y/N]: "@
}

/// The steps that delete one repository: the link goes, then the physical
/// directory, then the folders above both that are left empty.
pub open spec fn delete_steps(path: Seq<char>) -> Seq<StepView> {
    seq![
        Step::Do(Action::Unlink(path)),
        Step::Do(Action::RemoveTree(path)),
        Step::Do(Action::Prune(Place::Visible, path)),
        Step::Do(Action::Prune(Place::Physical, path)),
        Step::Say("Deleted "@ + quoted(path)),
    ]
}

/// The line that ends a deletion.
pub open spec fn deleted_line(deleted: nat) -> Seq<char> {
    if deleted == 1 {
        "Deleted 1 repository"@
    } else {
        counted("Deleted "@, deleted, " repositories"@)
    }
}

/// One line for each of the first `n` repositories of a plan.
pub open spec fn planned_upto(targets: Seq<Seq<char>>, n: int) -> Seq<StepView>
    decreases n,
{
    if n <= 0 {
        Seq::<StepView>::empty()
    } else {
        planned_upto(targets, n - 1).push(Step::Say("Delete "@ + quoted(targets[n - 1])))
    }
}

/// The script that ends a deletion before it began: nothing was matched, or
/// a dry run shows the plan.
pub open spec fn early_script(targets: Seq<Seq<char>>, dry_run: bool) -> Option<
    (Seq<StepView>, int),
> {
    if targets.len() == 0 {
        Some((seq![Step::<Seq<char>>::Warn("No matching repositories found"@)], 1))
    } else if dry_run {
        Some(
            (
                seq![
                    Step::<Seq<char>>::Say(
                        counted("Plan to delete "@, targets.len(), " repositories:"@),
                    ),
                ] + planned_upto(targets, targets.len() as int),
                0,
            ),
        )
    } else {
        None
    }
}

/// Whether the character is trimmed from the ends of an answer.
pub fn white_space(c: char) -> (r: bool)
    ensures
        r == is_white_space(c),
{
    (c >= '\u{9}' && c <= '\u{d}') || c == ' ' || c == '\u{85}' || c == '\u{a0}' || c == '\u{1680}'
        || (c >= '\u{2000}' && c <= '\u{200a}') || c == '\u{2028}' || c == '\u{2029}' || c
        == '\u{202f}' || c == '\u{205f}' || c == '\u{3000}'
}

/// Whether the operator's answer is a yes.
pub fn is_confirmation(answer: &str) -> (r: bool)
    ensures
        r == is_yes(answer@),
{
    let v = chars_of(answer);
    let n: usize = v.len();
    let mut at: usize = n;
    let mut i: usize = 0;
    while i < n
        invariant
            i <= n,
            n == v.len(),
            v@ == answer@,
            at <= n,
            at < n ==> at < i && (v@[at as int] == 'y' || v@[at as int] == 'Y'),
            forall|j: int| 0 <= j < i && j != at ==> is_white_space(#[trigger] v@[j]),
        decreases n - i,
    {
        let c: char = v[i];
        if !white_space(c) {
            if at < n || !(c == 'y' || c == 'Y') {
                assert(!is_yes(answer@)) by {
                    if is_yes(answer@) {
                        let w = choose|w: int|
                            0 <= w < answer@.len() && (#[trigger] answer@[w] == 'y' || answer@[w]
                                == 'Y') && forall|j: int|
                                0 <= j < answer@.len() && j != w ==> is_white_space(
                                    #[trigger] answer@[j],
                                );
                        if w != i {
                            assert(is_white_space(answer@[i as int]));
                        } else {
                            assert(at < n);
                            assert(is_white_space(answer@[at as int]));
                        }
                    }
                }
                return false;
            }
            at = i;
        }
        i += 1;
    }
    if at < n {
        assert(answer@[at as int] == 'y' || answer@[at as int] == 'Y');
        true
    } else {
        assert(!is_yes(answer@)) by {
            if is_yes(answer@) {
                let w = choose|w: int|
                    0 <= w < answer@.len() && (#[trigger] answer@[w] == 'y' || answer@[w] == 'Y')
                        && forall|j: int|
                        0 <= j < answer@.len() && j != w ==> is_white_space(#[trigger] answer@[j]);
                assert(is_white_space(answer@[w]));
            }
        }
        false
    }
}

/// Resolves what was matched to single repositories.
pub fn resolve_targets(sources: &Vec<String>, entries: &Vec<Entry>) -> (r: Vec<String>)
    ensures
        views(r@) == targets_upto(views(sources@), entries@, sources.len() as int),
{
    let ghost ss = views(sources@);
    let mut out: Vec<String> = Vec::new();
    let mut k: usize = 0;
    assert(views(out@) =~= targets_upto(ss, entries@, 0));
    while k < sources.len()
        invariant
            k <= sources.len(),
            ss == views(sources@),
            views(out@) == targets_upto(ss, entries@, k as int),
        decreases sources.len() - k,
    {
        let source: &str = sources[k].as_str();
        assert(ss[k as int] == source@);
        let ghost before = views(out@);
        let chars = chars_of(source);
        if chars_represent_repo(&chars) {
            out.push(source.to_string());
            assert(views(out@) =~= before + seq![source@]);
        } else {
            let mut below = t_filter_repos(entries, Some(source), false, None);
            assert(walk_of(Some(source), false, None) == Walk {
                root: Some(source@),
                match_folders: false,
                filter: None,
            });
            let ghost added = views(below@);
            out.append(&mut below);
            assert(views(out@) =~= before + added);
        }
        k += 1;
    }
    out
}

/// The repositories that the patterns select for deletion.
pub fn delete_targets(filters: &PatternSet, entries: &Vec<Entry>) -> (r: Vec<String>)
    ensures
        views(r@) == selected_for_deletion(*filters, entries@),
{
    let matched = filter_repos(entries, true, Some(filters));
    assert(walk_of(None, true, Some(filters)) == Walk {
        root: None,
        match_folders: true,
        filter: Some(*filters),
    });
    resolve_targets(&matched, entries)
}

/// What the caller is to do next in a deletion.
#[derive(Debug, Clone, PartialEq, Eq)]
pub enum Turn {
    /// Print the question without a line break, read one line, and hand it
    /// to the next call.
    Ask(String),
    /// Carry out the steps, then call again without an answer.
    Run(Vec<Step<String>>),
    /// Carry out the script and stop.
    Finished(Script),
}

/// A deletion in progress: the repositories to delete, how far it has come,
/// and how many it has deleted.
#[derive(Debug)]
pub struct Deletion {
    targets: Vec<String>,
    unasked: bool,
    position: usize,
    deleted: usize,
}

impl Deletion {
    /// The repositories to delete, in order.
    pub closed spec fn targets(&self) -> Seq<Seq<char>> {
        views(self.targets@)
    }

    /// Whether the operator said yes to all of them in advance.
    pub closed spec fn unasked(&self) -> bool {
        self.unasked
    }

    /// How many repositories were dealt with.
    pub closed spec fn position(&self) -> nat {
        self.position as nat
    }

    /// How many repositories were deleted.
    pub closed spec fn deleted(&self) -> nat {
        self.deleted as nat
    }

    #[verifier::type_invariant]
    spec fn in_bounds(&self) -> bool {
        self.deleted <= self.position <= self.targets.len()
    }

    /// Starts a deletion, unless there is nothing to delete or only a plan
    /// was asked for: then the script that says so is returned instead.
    pub fn begin(targets: Vec<String>, dry_run: bool, unasked: bool) -> (r: Result<
        Deletion,
        Script,
    >)
        ensures
            match r {
                Ok(d) => early_script(views(targets@), dry_run) is None && d.targets() == views(
                    targets@,
                ) && d.unasked() == unasked && d.position() == 0 && d.deleted() == 0,
                Err(script) => early_script(views(targets@), dry_run) == Some(script@),
            },
    {
        let mut steps: Vec<Step<String>> = Vec::new();
        if targets.len() == 0 {
            push_step(&mut steps, Step::Warn("No matching repositories found".to_string()));
            let r = Script { steps, status: 1 };
            assert(r@.0 =~= seq![Step::<Seq<char>>::Warn("No matching repositories found"@)]);
            return Err(r);
        }
        if dry_run {
            push_step(
                &mut steps,
                Step::Say(count_line("Plan to delete ", targets.len(), " repositories:")),
            );
            let ghost head = step_views(steps@);
            let mut k: usize = 0;
            assert(step_views(steps@) =~= head + planned_upto(views(targets@), 0));
            while k < targets.len()
                invariant
                    k <= targets.len(),
                    step_views(steps@) == head + planned_upto(views(targets@), k as int),
                decreases targets.len() - k,
            {
                let q = quote(targets[k].as_str());
                assert(views(targets@)[k as int] == targets@[k as int]@);
                push_step(&mut steps, Step::Say(concat("Delete ", q.as_str())));
                assert(step_views(steps@) =~= head + planned_upto(views(targets@), k + 1));
                k += 1;
            }
            let r = Script { steps, status: 0 };
            assert(r@.0 =~= early_script(views(targets@), dry_run).unwrap().0);
            return Err(r);
        }
        Ok(Deletion { targets, unasked, position: 0, deleted: 0 })
    }

    /// What to do next. `answer` is the line that the operator gave to the
    /// question of the call before, if that call asked one.
    ///
    /// Once every repository was dealt with, the count is reported. A
    /// repository that needs a yes and has no answer yet gives the question.
    /// With a yes, given now or in advance, the repository is deleted; with
    /// any other answer it is passed over.
    pub fn next(&mut self, answer: Option<&str>) -> (r: Turn)
        ensures
            final(self).targets() == old(self).targets(),
            final(self).unasked() == old(self).unasked(),
            old(self).position() <= old(self).targets().len(),
            old(self).position() == old(self).targets().len() ==> {
                &&& r matches Turn::Finished(script)
                &&& script@ == (
                    seq![Step::<Seq<char>>::Say(deleted_line(old(self).deleted()))],
                    0int,
                )
                &&& final(self).position() == old(self).position()
                &&& final(self).deleted() == old(self).deleted()
            },
            old(self).position() < old(self).targets().len() ==> {
                let path = old(self).targets()[old(self).position() as int];
                if !old(self).unasked() && answer is None {
                    &&& r matches Turn::Ask(q)
                    &&& q@ == question(path)
                    &&& final(self).position() == old(self).position()
                    &&& final(self).deleted() == old(self).deleted()
                } else if old(self).unasked() || is_yes(answer->0@) {
                    &&& r matches Turn::Run(steps)
                    &&& step_views(steps@) == delete_steps(path)
                    &&& final(self).position() == old(self).position() + 1
                    &&& final(self).deleted() == old(self).deleted() + 1
                } else {
                    &&& r matches Turn::Run(steps)
                    &&& steps@.len() == 0
                    &&& final(self).position() == old(self).position() + 1
                    &&& final(self).deleted() == old(self).deleted()
                }
            },
    {
        proof {
            use_type_invariant(&*self);
        }
        let mut steps: Vec<Step<String>> = Vec::new();
        if self.position == self.targets.len() {
            let line: String = if self.deleted == 1 {
                "Deleted 1 repository".to_string()
            } else {
                count_line("Deleted ", self.deleted, " repositories")
            };
            push_step(&mut steps, Step::Say(line));
            let script = Script { steps, status: 0 };
            assert(script@.0 =~= seq![Step::<Seq<char>>::Say(deleted_line(self.deleted as nat))]);
            return Turn::Finished(script);
        }
        let path: String = self.targets[self.position].clone();
        assert(views(self.targets@)[self.position as int] == path@);
        let yes: bool = if self.unasked {
            true
        } else {
            match answer {
                None => {
                    let q = quote(path.as_str());
                    let head = concat("Delete ", q.as_str());
                    return Turn::Ask(concat(head.as_str(), " [y/N]: "));
                },
                Some(line) => is_confirmation(line),
            }
        };
        self.position = self.position + 1;
        if yes {
            self.deleted = self.deleted + 1;
            push_step(&mut steps, Step::Do(Action::Unlink(path.clone())));
            push_step(&mut steps, Step::Do(Action::RemoveTree(path.clone())));
            push_step(&mut steps, Step::Do(Action::Prune(Place::Visible, path.clone())));
            push_step(&mut steps, Step::Do(Action::Prune(Place::Physical, path.clone())));
            let q = quote(path.as_str());
            push_step(&mut steps, Step::Say(concat("Deleted ", q.as_str())));
            assert(step_views(steps@) =~= delete_steps(path@));
        }
        Turn::Run(steps)
    }
}

/// A dry run of a deletion changes nothing on disk, and neither does a
/// deletion that matched nothing.
pub proof fn law_delete_dry_run_changes_nothing(targets: Seq<Seq<char>>, dry_run: bool)
    requires
        early_script(targets, dry_run) is Some,
    ensures
        is_silent(early_script(targets, dry_run).unwrap().0),
{
    lemma_planned_is_silent(targets, targets.len() as int);
}

/// The lines of a plan change nothing.
pub proof fn lemma_planned_is_silent(targets: Seq<Seq<char>>, n: int)
    ensures
        is_silent(planned_upto(targets, n)),
    decreases n,
{
    if n > 0 {
        lemma_planned_is_silent(targets, n - 1);
    }
}

} // verus!

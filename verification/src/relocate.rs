//! Renaming one repository and moving many. Both write a script from a
//! listing of the visible tree: the whole batch is judged first, and a
//! script holds changes only where no pair conflicts and no dry run was
//! asked for.

use crate::path::{
    base_start, can_be_repo, can_represent_repo, chars_base_start, is_repo, represents_repo,
};
use crate::plan::{
    chars_of_entries, clean_upto, conflict_views, expand_moves, expanded, index_of, needs_staging,
    on_disk, pair_views, problems_upto, vacated_upto, validate_moves, Conflict, ConflictReason,
    MovePair, MovePlan, Pair, Verdict,
};
use crate::script::{
    arrow, arrow_line, count_line, counted, is_silent, push_step, step_views, Action, Place, Script,
    Step,
};
use crate::text::{chars_eq, chars_of, concat, slice_of, str_eq, views};
use crate::validate::{enforce_git_suffix, with_git_suffix};
use crate::walk::{Entry, EntryKind};
use vstd::prelude::*;

verus! {

/// A step over paths as sequences of characters.
pub type StepView = Step<Seq<char>>;

/// The folder that a path lies in: the path without its last segment and
/// the separator before it. The empty path for a path of one segment.
pub open spec fn parent_path(path: Seq<char>) -> Seq<char> {
    if base_start(path) <= 0 {
        Seq::<char>::empty()
    } else {
        path.subrange(0, base_start(path) - 1)
    }
}

/// A link lies at the path in the visible tree.
pub open spec fn is_link(entries: Seq<Entry>, path: Seq<char>) -> bool {
    exists|j: int|
        0 <= j < entries.len() && (#[trigger] entries[j]).path@ == path && entries[j].kind
            == EntryKind::Symlink
}

/// The passes that carry out a batch of moves. Each pass runs over all
/// pairs before the next begins.
#[derive(Debug, Clone, Copy, PartialEq, Eq)]
pub enum Phase {
    /// Create every destination's physical directory.
    Prepare,
    /// Create the visible folder that every destination lies in.
    Parents,
    /// Create every source's directory in the staging area.
    StageDirs,
    /// Move every source's physical directory into the staging area.
    StageMoves,
    /// Move every directory to its destination, from the staging area where
    /// that is used, and show the move.
    Commit,
    /// Put the visible link at every destination, in place of a stale one.
    Relink,
}

/// The steps of one pass for one pair. `staged` says whether the staging
/// area is used, `linked` whether a link lies at the destination now.
pub open spec fn pair_steps(phase: Phase, p: Pair, staged: bool, linked: bool) -> Seq<StepView> {
    match phase {
        Phase::Prepare => seq![Step::Do(Action::CreateDirAll(Place::Physical, p.1))],
        Phase::Parents => seq![Step::Do(Action::CreateDirAll(Place::Visible, parent_path(p.1)))],
        Phase::StageDirs => seq![
            Step::Do(Action::CreateDirAll(Place::Staging, p.0)),
            Step::Do(Action::CreateDirAll(Place::Physical, p.0)),
        ],
        Phase::StageMoves => seq![
            Step::Do(Action::Rename(Place::Physical, p.0, Place::Staging, p.0)),
        ],
        Phase::Commit => seq![
            Step::Say(arrow(p.0, p.1)),
            Step::Do(
                Action::Rename(
                    if staged {
                        Place::Staging
                    } else {
                        Place::Physical
                    },
                    p.0,
                    Place::Physical,
                    p.1,
                ),
            ),
        ],
        Phase::Relink => if linked {
            seq![Step::Do(Action::Unlink(p.1)), Step::Do(Action::Link(p.1))]
        } else {
            seq![Step::Do(Action::Link(p.1))]
        },
    }
}

/// The steps of one pass over the first `n` pairs.
pub open spec fn phase_upto(
    phase: Phase,
    moves: Seq<Pair>,
    staged: bool,
    entries: Seq<Entry>,
    n: int,
) -> Seq<StepView>
    decreases n,
{
    if n <= 0 {
        Seq::<StepView>::empty()
    } else {
        phase_upto(phase, moves, staged, entries, n - 1) + pair_steps(
            phase,
            moves[n - 1],
            staged,
            is_link(entries, moves[n - 1].1),
        )
    }
}

/// The steps of one pass over all pairs.
pub open spec fn phase_all(
    phase: Phase,
    moves: Seq<Pair>,
    staged: bool,
    entries: Seq<Entry>,
) -> Seq<StepView> {
    phase_upto(phase, moves, staged, entries, moves.len() as int)
}

/// The removal of the visible links at the first `n` paths.
pub open spec fn unlinks_upto(paths: Seq<Seq<char>>, n: int) -> Seq<StepView>
    decreases n,
{
    if n <= 0 {
        Seq::<StepView>::empty()
    } else {
        unlinks_upto(paths, n - 1).push(Step::Do(Action::Unlink(paths[n - 1])))
    }
}

/// The pruning of the folders above the first `n` paths, in both trees.
pub open spec fn prunes_upto(paths: Seq<Seq<char>>, n: int) -> Seq<StepView>
    decreases n,
{
    if n <= 0 {
        Seq::<StepView>::empty()
    } else {
        prunes_upto(paths, n - 1).push(Step::Do(Action::Prune(Place::Visible, paths[n - 1]))).push(
            Step::Do(Action::Prune(Place::Physical, paths[n - 1])),
        )
    }
}

/// One line for each of the first `n` pairs.
pub open spec fn shown_upto(moves: Seq<Pair>, n: int) -> Seq<StepView>
    decreases n,
{
    if n <= 0 {
        Seq::<StepView>::empty()
    } else {
        shown_upto(moves, n - 1).push(Step::Say(arrow(moves[n - 1].0, moves[n - 1].1)))
    }
}

/// The words that give the reason of a conflict.
pub open spec fn reason_text(dst: Seq<char>, why: Verdict) -> Seq<char> {
    match why {
        Verdict::Occupied => "Destination occupied by unmoved repository"@,
        Verdict::TooDeep => "Destination has a nesting deeper than 4"@,
        Verdict::Overlap(earlier) => "Overlapping destination : "@ + arrow(earlier, dst),
        Verdict::Clean => Seq::<char>::empty(),
    }
}

/// The line that reports one conflict.
pub open spec fn problem_line(problem: (Pair, Verdict)) -> Seq<char> {
    let (pair, why) = problem;
    arrow(pair.0, pair.1) + " : "@ + reason_text(pair.1, why)
}

/// One line on standard error for each of the first `n` conflicts.
pub open spec fn reported_upto(problems: Seq<(Pair, Verdict)>, n: int) -> Seq<StepView>
    decreases n,
{
    if n <= 0 {
        Seq::<StepView>::empty()
    } else {
        reported_upto(problems, n - 1).push(Step::Warn(problem_line(problems[n - 1])))
    }
}

/// The heading above the conflicts.
pub open spec fn problems_heading(n: nat) -> Seq<char> {
    if n == 1 {
        "1 problem:"@
    } else {
        counted(""@, n, " problems:"@)
    }
}

/// The script that carries out a conflict-free batch: all destinations are
/// prepared; with staging every source is parked first; every directory is
/// moved to its destination; the links are put in place; the sources that
/// nothing took over lose their links and their empty folders; the staging
/// area goes; the count is reported.
pub open spec fn execution(
    moves: Seq<Pair>,
    staged: bool,
    vacated: Seq<Seq<char>>,
    entries: Seq<Entry>,
) -> Seq<StepView> {
    phase_all(Phase::Prepare, moves, staged, entries) + phase_all(
        Phase::Parents,
        moves,
        staged,
        entries,
    ) + (if staged {
        phase_all(Phase::StageDirs, moves, staged, entries) + phase_all(
            Phase::StageMoves,
            moves,
            staged,
            entries,
        )
    } else {
        Seq::<StepView>::empty()
    }) + phase_all(Phase::Commit, moves, staged, entries) + phase_all(
        Phase::Relink,
        moves,
        staged,
        entries,
    ) + unlinks_upto(vacated, vacated.len() as int) + prunes_upto(vacated, vacated.len() as int) + (
    if staged {
        seq![Step::<Seq<char>>::Do(Action::DropStaging)]
    } else {
        Seq::<StepView>::empty()
    }) + seq![Step::<Seq<char>>::Say(counted("Moved "@, moves.len(), " repositories"@))]
}

/// The script for a judged batch: with any conflict, the clean pairs and
/// every conflict are shown and nothing is changed; an empty batch has
/// nothing to do; a dry run shows the plan; else the batch is carried out.
pub open spec fn batch_script(
    moves: Seq<Pair>,
    problems: Seq<(Pair, Verdict)>,
    staged: bool,
    vacated: Seq<Seq<char>>,
    entries: Seq<Entry>,
    dry_run: bool,
) -> (Seq<StepView>, int) {
    if problems.len() > 0 {
        (
            seq![
                Step::<Seq<char>>::Say(counted("Able to move "@, moves.len(), " repositories:"@)),
            ] + shown_upto(moves, moves.len() as int) + seq![
                Step::<Seq<char>>::Warn(problems_heading(problems.len())),
            ] + reported_upto(problems, problems.len() as int),
            1,
        )
    } else if moves.len() == 0 {
        (seq![Step::<Seq<char>>::Warn("Nothing to do"@)], 0)
    } else if dry_run {
        (
            seq![
                Step::<Seq<char>>::Say(counted("Plan to move "@, moves.len(), " repositories:"@)),
            ] + shown_upto(moves, moves.len() as int),
            0,
        )
    } else {
        (execution(moves, staged, vacated, entries), 0)
    }
}

/// The script for moving the sources to `dst`: the pairs that the sources
/// stand for are judged as one batch. A destination that names a
/// repository is no exception: every source goes to it, so that of several
/// all but the first overlap.
pub open spec fn multiple_script(
    sources: Seq<Seq<char>>,
    dst: Seq<char>,
    entries: Seq<Entry>,
    dry_run: bool,
) -> (Seq<StepView>, int) {
    let pairs = expanded(sources, dst, entries);
    batch_script(
        clean_upto(pairs, entries, pairs.len() as int),
        problems_upto(pairs, entries, pairs.len() as int),
        needs_staging(pairs, entries),
        vacated_upto(pairs, entries, pairs.len() as int),
        entries,
        dry_run,
    )
}

/// The steps that rename one repository on disk.
pub open spec fn rename_steps(src: Seq<char>, dst: Seq<char>) -> Seq<StepView> {
    seq![
        Step::Do(Action::CreateDirAll(Place::Physical, dst)),
        Step::Do(Action::CreateDirAll(Place::Visible, parent_path(dst))),
        Step::Do(Action::Rename(Place::Physical, src, Place::Physical, dst)),
        Step::Do(Action::Link(dst)),
        Step::Do(Action::Unlink(src)),
        Step::Do(Action::Prune(Place::Visible, src)),
        Step::Do(Action::Prune(Place::Physical, src)),
        Step::Say("Repository renamed"@),
    ]
}

/// The script for renaming the repository `src` to the path `target`.
pub open spec fn rename_script(
    src: Seq<char>,
    target: Seq<char>,
    entries: Seq<Entry>,
    dry_run: bool,
) -> (Seq<StepView>, int) {
    if src == target {
        (seq![Step::<Seq<char>>::Say("Nothing to do"@)], 0)
    } else if on_disk(entries, target) {
        (
            seq![
                Step::<Seq<char>>::Warn(
                    "Cannot rename "@ + arrow(src, target) + " : Destination occupied"@,
                ),
            ],
            1,
        )
    } else if dry_run {
        (seq![Step::<Seq<char>>::Say(arrow(src, target))], 0)
    } else {
        (seq![Step::<Seq<char>>::Say(arrow(src, target))] + rename_steps(src, target), 0)
    }
}

/// The script for renaming the repository `src` to `dst`, which gets the
/// suffix where it lacks it. A destination that cannot get it is refused
/// with the reason, and nothing is changed.
pub open spec fn single_script(
    src: Seq<char>,
    dst: Seq<char>,
    entries: Seq<Entry>,
    dry_run: bool,
) -> (Seq<StepView>, int) {
    match with_git_suffix(dst) {
        Ok(target) => rename_script(src, target, entries, dry_run),
        Err(e) => (seq![Step::<Seq<char>>::Warn(e.text())], 1),
    }
}

/// A single rename is meant where exactly one source was found, it stands
/// for a repository, and the destination can name one repository.
pub open spec fn is_rename_only(sources: Seq<Seq<char>>, dst: Seq<char>) -> bool {
    sources.len() == 1 && is_repo(sources[0]) && can_be_repo(dst)
}

/// The script for moving the sources that were found to `dst`.
pub open spec fn move_script(
    sources: Seq<Seq<char>>,
    dst: Seq<char>,
    entries: Seq<Entry>,
    dry_run: bool,
) -> (Seq<StepView>, int) {
    if sources.len() == 0 {
        (seq![Step::<Seq<char>>::Warn("No matching repositories found"@)], 1)
    } else if is_rename_only(sources, dst) {
        single_script(sources[0], dst, entries, dry_run)
    } else {
        multiple_script(sources, dst, entries, dry_run)
    }
}

/// The folder that a path lies in.
pub fn parent_of(path: &str) -> (r: String)
    ensures
        r@ == parent_path(path@),
{
    let v = chars_of(path);
    let start: usize = chars_base_start(&v);
    if start == 0 {
        String::new()
    } else {
        slice_of(path, 0, start - 1)
    }
}

/// Whether a link lies at the path in the visible tree.
fn listing_has_link(entries: &Vec<Entry>, listed: &Vec<Vec<char>>, path: &Vec<char>) -> (r: bool)
    requires
        listed.len() == entries.len(),
        forall|i: int| 0 <= i < listed.len() ==> (#[trigger] listed@[i])@ == entries@[i].path@,
    ensures
        r == is_link(entries@, path@),
{
    let mut j: usize = 0;
    while j < entries.len()
        invariant
            j <= entries.len(),
            listed.len() == entries.len(),
            forall|i: int| 0 <= i < listed.len() ==> (#[trigger] listed@[i])@ == entries@[i].path@,
            forall|i: int|
                0 <= i < j ==> !((#[trigger] entries@[i]).path@ == path@ && entries@[i].kind
                    == EntryKind::Symlink),
        decreases entries.len() - j,
    {
        let link: bool = match entries[j].kind {
            EntryKind::Symlink => true,
            _ => false,
        };
        assert(listed@[j as int]@ == entries@[j as int].path@);
        if link && chars_eq(&listed[j], path) {
            return true;
        }
        j += 1;
    }
    false
}

/// Adds the steps of one pass for one pair.
fn add_pair_steps(
    steps: &mut Vec<Step<String>>,
    phase: Phase,
    pair: &MovePair,
    staged: bool,
    linked: bool,
)
    ensures
        step_views(final(steps)@) == step_views(old(steps)@) + pair_steps(
            phase,
            pair@,
            staged,
            linked,
        ),
{
    let ghost before = step_views(steps@);
    match phase {
        Phase::Prepare => {
            push_step(steps, Step::Do(Action::CreateDirAll(Place::Physical, pair.dst.clone())));
        },
        Phase::Parents => {
            let folder = parent_of(pair.dst.as_str());
            push_step(steps, Step::Do(Action::CreateDirAll(Place::Visible, folder)));
        },
        Phase::StageDirs => {
            push_step(steps, Step::Do(Action::CreateDirAll(Place::Staging, pair.src.clone())));
            push_step(steps, Step::Do(Action::CreateDirAll(Place::Physical, pair.src.clone())));
        },
        Phase::StageMoves => {
            push_step(
                steps,
                Step::Do(
                    Action::Rename(
                        Place::Physical,
                        pair.src.clone(),
                        Place::Staging,
                        pair.src.clone(),
                    ),
                ),
            );
        },
        Phase::Commit => {
            push_step(steps, Step::Say(arrow_line(pair.src.as_str(), pair.dst.as_str())));
            let from: Place = if staged {
                Place::Staging
            } else {
                Place::Physical
            };
            push_step(
                steps,
                Step::Do(
                    Action::Rename(from, pair.src.clone(), Place::Physical, pair.dst.clone()),
                ),
            );
        },
        Phase::Relink => {
            if linked {
                push_step(steps, Step::Do(Action::Unlink(pair.dst.clone())));
            }
            push_step(steps, Step::Do(Action::Link(pair.dst.clone())));
        },
    }
    assert(step_views(steps@) =~= before + pair_steps(phase, pair@, staged, linked));
}

/// Adds the steps of one pass over all pairs.
fn add_phase(
    steps: &mut Vec<Step<String>>,
    phase: Phase,
    moves: &Vec<MovePair>,
    staged: bool,
    entries: &Vec<Entry>,
    listed: &Vec<Vec<char>>,
)
    requires
        listed.len() == entries.len(),
        forall|i: int| 0 <= i < listed.len() ==> (#[trigger] listed@[i])@ == entries@[i].path@,
    ensures
        step_views(final(steps)@) == step_views(old(steps)@) + phase_all(
            phase,
            pair_views(moves@),
            staged,
            entries@,
        ),
{
    let ghost before = step_views(steps@);
    let ghost ps = pair_views(moves@);
    let mut k: usize = 0;
    assert(step_views(steps@) =~= before + phase_upto(phase, ps, staged, entries@, 0));
    while k < moves.len()
        invariant
            k <= moves.len(),
            ps == pair_views(moves@),
            listed.len() == entries.len(),
            forall|i: int| 0 <= i < listed.len() ==> (#[trigger] listed@[i])@ == entries@[i].path@,
            step_views(steps@) == before + phase_upto(phase, ps, staged, entries@, k as int),
        decreases moves.len() - k,
    {
        let linked: bool = match phase {
            Phase::Relink => {
                let dst = chars_of(moves[k].dst.as_str());
                listing_has_link(entries, listed, &dst)
            },
            _ => false,
        };
        let ghost so_far = step_views(steps@);
        add_pair_steps(steps, phase, &moves[k], staged, linked);
        assert(pair_steps(phase, ps[k as int], staged, linked) == pair_steps(
            phase,
            ps[k as int],
            staged,
            is_link(entries@, ps[k as int].1),
        ));
        assert(step_views(steps@) =~= before + phase_upto(phase, ps, staged, entries@, k + 1));
        k += 1;
    }
}

/// Adds the removal of the visible link at every path.
fn add_unlinks(steps: &mut Vec<Step<String>>, paths: &Vec<String>)
    ensures
        step_views(final(steps)@) == step_views(old(steps)@) + unlinks_upto(
            views(paths@),
            paths.len() as int,
        ),
{
    let ghost before = step_views(steps@);
    let mut k: usize = 0;
    assert(step_views(steps@) =~= before + unlinks_upto(views(paths@), 0));
    while k < paths.len()
        invariant
            k <= paths.len(),
            step_views(steps@) == before + unlinks_upto(views(paths@), k as int),
        decreases paths.len() - k,
    {
        push_step(steps, Step::Do(Action::Unlink(paths[k].clone())));
        assert(step_views(steps@) =~= before + unlinks_upto(views(paths@), k + 1));
        k += 1;
    }
}

/// Adds the pruning of the folders above every path, in both trees.
fn add_prunes(steps: &mut Vec<Step<String>>, paths: &Vec<String>)
    ensures
        step_views(final(steps)@) == step_views(old(steps)@) + prunes_upto(
            views(paths@),
            paths.len() as int,
        ),
{
    let ghost before = step_views(steps@);
    let mut k: usize = 0;
    assert(step_views(steps@) =~= before + prunes_upto(views(paths@), 0));
    while k < paths.len()
        invariant
            k <= paths.len(),
            step_views(steps@) == before + prunes_upto(views(paths@), k as int),
        decreases paths.len() - k,
    {
        push_step(steps, Step::Do(Action::Prune(Place::Visible, paths[k].clone())));
        push_step(steps, Step::Do(Action::Prune(Place::Physical, paths[k].clone())));
        assert(step_views(steps@) =~= before + prunes_upto(views(paths@), k + 1));
        k += 1;
    }
}

/// Adds one line for every pair.
fn add_shown(steps: &mut Vec<Step<String>>, moves: &Vec<MovePair>)
    ensures
        step_views(final(steps)@) == step_views(old(steps)@) + shown_upto(
            pair_views(moves@),
            moves.len() as int,
        ),
{
    let ghost before = step_views(steps@);
    let mut k: usize = 0;
    assert(step_views(steps@) =~= before + shown_upto(pair_views(moves@), 0));
    while k < moves.len()
        invariant
            k <= moves.len(),
            step_views(steps@) == before + shown_upto(pair_views(moves@), k as int),
        decreases moves.len() - k,
    {
        push_step(steps, Step::Say(arrow_line(moves[k].src.as_str(), moves[k].dst.as_str())));
        assert(step_views(steps@) =~= before + shown_upto(pair_views(moves@), k + 1));
        k += 1;
    }
}

/// The line that reports one conflict.
pub fn problem_text(problem: &Conflict) -> (r: String)
    ensures
        r@ == problem_line(problem@),
{
    let pair = arrow_line(problem.src.as_str(), problem.dst.as_str());
    let head = concat(pair.as_str(), " : ");
    match &problem.reason {
        ConflictReason::Occupied => concat(
            head.as_str(),
            "Destination occupied by unmoved repository",
        ),
        ConflictReason::TooDeep => concat(head.as_str(), "Destination has a nesting deeper than 4"),
        ConflictReason::Overlap(earlier) => {
            let other = arrow_line(earlier.as_str(), problem.dst.as_str());
            let why = concat("Overlapping destination : ", other.as_str());
            concat(head.as_str(), why.as_str())
        },
    }
}

/// Adds one line on standard error for every conflict.
fn add_reported(steps: &mut Vec<Step<String>>, problems: &Vec<Conflict>)
    ensures
        step_views(final(steps)@) == step_views(old(steps)@) + reported_upto(
            conflict_views(problems@),
            problems.len() as int,
        ),
{
    let ghost before = step_views(steps@);
    let mut k: usize = 0;
    assert(step_views(steps@) =~= before + reported_upto(conflict_views(problems@), 0));
    while k < problems.len()
        invariant
            k <= problems.len(),
            step_views(steps@) == before + reported_upto(conflict_views(problems@), k as int),
        decreases problems.len() - k,
    {
        push_step(steps, Step::Warn(problem_text(&problems[k])));
        assert(step_views(steps@) =~= before + reported_upto(conflict_views(problems@), k + 1));
        k += 1;
    }
}

/// Writes the script that carries out a conflict-free batch.
pub fn execute_moves(plan: &MovePlan, entries: &Vec<Entry>) -> (r: Vec<Step<String>>)
    ensures
        step_views(r@) == execution(
            pair_views(plan.moves@),
            plan.staging_required,
            views(plan.not_replaced@),
            entries@,
        ),
{
    let listed = chars_of_entries(entries);
    let staged: bool = plan.staging_required;
    let ghost ps = pair_views(plan.moves@);
    let ghost es = entries@;
    let ghost vs = views(plan.not_replaced@);
    let mut steps: Vec<Step<String>> = Vec::new();
    let ghost empty = step_views(steps@);
    add_phase(&mut steps, Phase::Prepare, &plan.moves, staged, entries, &listed);
    add_phase(&mut steps, Phase::Parents, &plan.moves, staged, entries, &listed);
    let ghost s2 = step_views(steps@);
    if staged {
        add_phase(&mut steps, Phase::StageDirs, &plan.moves, staged, entries, &listed);
        add_phase(&mut steps, Phase::StageMoves, &plan.moves, staged, entries, &listed);
    }
    let ghost s3 = step_views(steps@);
    add_phase(&mut steps, Phase::Commit, &plan.moves, staged, entries, &listed);
    add_phase(&mut steps, Phase::Relink, &plan.moves, staged, entries, &listed);
    add_unlinks(&mut steps, &plan.not_replaced);
    add_prunes(&mut steps, &plan.not_replaced);
    let ghost s7 = step_views(steps@);
    if staged {
        push_step(&mut steps, Step::Do(Action::DropStaging));
    }
    let ghost s8 = step_views(steps@);
    push_step(&mut steps, Step::Say(count_line("Moved ", plan.moves.len(), " repositories")));
    proof {
        let staging = if staged {
            phase_all(Phase::StageDirs, ps, staged, es) + phase_all(
                Phase::StageMoves,
                ps,
                staged,
                es,
            )
        } else {
            Seq::<StepView>::empty()
        };
        let dropping = if staged {
            seq![Step::<Seq<char>>::Do(Action::DropStaging)]
        } else {
            Seq::<StepView>::empty()
        };
        assert(s2 =~= phase_all(Phase::Prepare, ps, staged, es) + phase_all(
            Phase::Parents,
            ps,
            staged,
            es,
        ));
        assert(s3 =~= s2 + staging);
        assert(s8 =~= s7 + dropping);
        assert(step_views(steps@) =~= execution(ps, staged, vs, es));
    }
    steps
}

/// Writes the script for a judged batch.
pub fn batch_steps(plan: &MovePlan, entries: &Vec<Entry>, dry_run: bool) -> (r: Script)
    ensures
        r@ == batch_script(
            pair_views(plan.moves@),
            conflict_views(plan.problems@),
            plan.staging_required,
            views(plan.not_replaced@),
            entries@,
            dry_run,
        ),
{
    let mut steps: Vec<Step<String>> = Vec::new();
    if plan.problems.len() > 0 {
        push_step(
            &mut steps,
            Step::Say(count_line("Able to move ", plan.moves.len(), " repositories:")),
        );
        add_shown(&mut steps, &plan.moves);
        let heading: String = if plan.problems.len() == 1 {
            "1 problem:".to_string()
        } else {
            count_line("", plan.problems.len(), " problems:")
        };
        push_step(&mut steps, Step::Warn(heading));
        add_reported(&mut steps, &plan.problems);
        let r = Script { steps, status: 1 };
        assert(r@.0 =~= batch_script(
            pair_views(plan.moves@),
            conflict_views(plan.problems@),
            plan.staging_required,
            views(plan.not_replaced@),
            entries@,
            dry_run,
        ).0);
        r
    } else if plan.moves.len() == 0 {
        push_step(&mut steps, Step::Warn("Nothing to do".to_string()));
        let r = Script { steps, status: 0 };
        assert(r@.0 =~= seq![Step::<Seq<char>>::Warn("Nothing to do"@)]);
        r
    } else if dry_run {
        push_step(
            &mut steps,
            Step::Say(count_line("Plan to move ", plan.moves.len(), " repositories:")),
        );
        add_shown(&mut steps, &plan.moves);
        let r = Script { steps, status: 0 };
        assert(r@.0 =~= batch_script(
            pair_views(plan.moves@),
            conflict_views(plan.problems@),
            plan.staging_required,
            views(plan.not_replaced@),
            entries@,
            dry_run,
        ).0);
        r
    } else {
        Script { steps: execute_moves(plan, entries), status: 0 }
    }
}

/// Moves the sources to `dst`. Into a folder every source that stands for
/// a repository goes under its own name, and every other source with all
/// the repositories below it, each at its path within the source. To a
/// destination that names a repository every source goes as it is.
pub fn move_multiple(sources: &Vec<String>, dst: &str, entries: &Vec<Entry>, dry_run: bool) -> (r:
    Script)
    ensures
        r@ == multiple_script(views(sources@), dst@, entries@, dry_run),
{
    let pairs = expand_moves(sources, dst, entries);
    let plan = validate_moves(&pairs, entries);
    batch_steps(&plan, entries, dry_run)
}

/// Renames the repository `src` to `dst`, which gets the suffix where it
/// lacks it. Nothing may lie at the new path, and the new path may not be
/// longer than 256 characters.
pub fn move_single(src: &str, dst: &str, entries: &Vec<Entry>, dry_run: bool) -> (r: Script)
    requires
        can_be_repo(dst@),
    ensures
        r@ == single_script(src@, dst@, entries@, dry_run),
{
    let mut steps: Vec<Step<String>> = Vec::new();
    let target: String = match enforce_git_suffix(dst.to_string()) {
        Ok(t) => t,
        Err(e) => {
            push_step(&mut steps, Step::Warn(e.message()));
            let r = Script { steps, status: 1 };
            assert(r@.0 =~= seq![Step::<Seq<char>>::Warn(e.text())]);
            return r;
        },
    };
    if str_eq(src, target.as_str()) {
        push_step(&mut steps, Step::Say("Nothing to do".to_string()));
        let r = Script { steps, status: 0 };
        assert(r@.0 =~= seq![Step::<Seq<char>>::Say("Nothing to do"@)]);
        return r;
    }
    let listed = chars_of_entries(entries);
    let target_chars = chars_of(target.as_str());
    let at: usize = index_of(&listed, &target_chars, listed.len());
    proof {
        if at < listed.len() {
            assert(entries@[at as int].path@ == target@);
        } else {
            assert forall|j: int| 0 <= j < entries@.len() implies (#[trigger] entries@[j]).path@
                != target@ by {
                assert(listed@[j]@ == entries@[j].path@);
            }
        }
    }
    if at < listed.len() {
        let pair = arrow_line(src, target.as_str());
        let head = concat("Cannot rename ", pair.as_str());
        push_step(&mut steps, Step::Warn(concat(head.as_str(), " : Destination occupied")));
        let r = Script { steps, status: 1 };
        assert(r@.0 =~= seq![
            Step::<Seq<char>>::Warn(
                "Cannot rename "@ + arrow(src@, target@) + " : Destination occupied"@,
            ),
        ]);
        return r;
    }
    push_step(&mut steps, Step::Say(arrow_line(src, target.as_str())));
    if dry_run {
        let r = Script { steps, status: 0 };
        assert(r@.0 =~= seq![Step::<Seq<char>>::Say(arrow(src@, target@))]);
        return r;
    }
    push_step(&mut steps, Step::Do(Action::CreateDirAll(Place::Physical, target.clone())));
    push_step(
        &mut steps,
        Step::Do(Action::CreateDirAll(Place::Visible, parent_of(target.as_str()))),
    );
    push_step(
        &mut steps,
        Step::Do(Action::Rename(Place::Physical, src.to_string(), Place::Physical, target.clone())),
    );
    push_step(&mut steps, Step::Do(Action::Link(target.clone())));
    push_step(&mut steps, Step::Do(Action::Unlink(src.to_string())));
    push_step(&mut steps, Step::Do(Action::Prune(Place::Visible, src.to_string())));
    push_step(&mut steps, Step::Do(Action::Prune(Place::Physical, src.to_string())));
    push_step(&mut steps, Step::Say("Repository renamed".to_string()));
    let r = Script { steps, status: 0 };
    assert(r@.0 =~= seq![Step::<Seq<char>>::Say(arrow(src@, target@))] + rename_steps(
        src@,
        target@,
    ));
    r
}

/// Moves the sources that the enumerator found to `dst`: one repository to
/// a path that can name one is renamed; anything else is moved into `dst`
/// as a folder.
pub fn plan_move(sources: &Vec<String>, dst: &str, entries: &Vec<Entry>, dry_run: bool) -> (r:
    Script)
    ensures
        r@ == move_script(views(sources@), dst@, entries@, dry_run),
{
    if sources.len() == 0 {
        let mut steps: Vec<Step<String>> = Vec::new();
        push_step(&mut steps, Step::Warn("No matching repositories found".to_string()));
        let r = Script { steps, status: 1 };
        assert(r@.0 =~= seq![Step::<Seq<char>>::Warn("No matching repositories found"@)]);
        return r;
    }
    assert(views(sources@)[0] == sources@[0]@);
    let rename_only: bool = sources.len() == 1 && represents_repo(sources[0].as_str())
        && can_represent_repo(dst);
    if rename_only {
        move_single(sources[0].as_str(), dst, entries, dry_run)
    } else {
        move_multiple(sources, dst, entries, dry_run)
    }
}

/// Lines that show pairs change nothing.
pub proof fn lemma_shown_is_silent(moves: Seq<Pair>, n: int)
    ensures
        is_silent(shown_upto(moves, n)),
    decreases n,
{
    if n > 0 {
        lemma_shown_is_silent(moves, n - 1);
    }
}

/// Lines that report conflicts change nothing.
pub proof fn lemma_reported_is_silent(problems: Seq<(Pair, Verdict)>, n: int)
    ensures
        is_silent(reported_upto(problems, n)),
    decreases n,
{
    if n > 0 {
        lemma_reported_is_silent(problems, n - 1);
    }
}

/// A batch is moved whole or not at all: as soon as one pair conflicts,
/// the script changes nothing, not even for the clean pairs, and ends in
/// failure.
pub proof fn law_conflict_changes_nothing(
    moves: Seq<Pair>,
    problems: Seq<(Pair, Verdict)>,
    staged: bool,
    vacated: Seq<Seq<char>>,
    entries: Seq<Entry>,
    dry_run: bool,
)
    requires
        problems.len() > 0,
    ensures
        is_silent(batch_script(moves, problems, staged, vacated, entries, dry_run).0),
        batch_script(moves, problems, staged, vacated, entries, dry_run).1 == 1,
{
    lemma_shown_is_silent(moves, moves.len() as int);
    lemma_reported_is_silent(problems, problems.len() as int);
}

/// A dry run never changes anything on disk, whether the plan is valid or
/// in conflict, for one repository or for many.
pub proof fn law_dry_run_changes_nothing(
    sources: Seq<Seq<char>>,
    dst: Seq<char>,
    entries: Seq<Entry>,
)
    ensures
        is_silent(move_script(sources, dst, entries, true).0),
        is_silent(single_script(sources[0], dst, entries, true).0),
        is_silent(multiple_script(sources, dst, entries, true).0),
{
    let pairs = expanded(sources, dst, entries);
    let moves = clean_upto(pairs, entries, pairs.len() as int);
    let problems = problems_upto(pairs, entries, pairs.len() as int);
    lemma_shown_is_silent(moves, moves.len() as int);
    lemma_reported_is_silent(problems, problems.len() as int);
}

} // verus!

//! The move command as a whole, on trees that are in order: whatever the
//! patterns and the destination, the script that it writes can be carried
//! out to the end, and it either leaves the trees as they were or moves
//! exactly the planned repositories, each with what it held.

use crate::delete::{delete_steps, selected_for_deletion, targets_of, targets_upto};
use crate::effects::{
    distinct_sources, is_dest, is_sound_batch, law_clean_batch_is_moved, lemma_run_one, moved,
};
use crate::glob::PatternSet;
use crate::lifecycle::{is_repo_path, is_tidy, lemma_delete_one, without_repo};
use crate::path::{
    base_name, base_start, can_be_repo, git_suffix, is_repo, is_under, join_path, lemma_base_start,
};
use crate::plan::{
    clean_upto, expanded, expanded_upto, folder_moves_upto, is_first_to, is_source, lemma_first_to,
    nested_target, on_disk, problems_upto, repos_below, source_moves, unless_same, verdict, Pair,
};
use crate::relocate::{
    is_link, is_rename_only, lemma_reported_is_silent, lemma_shown_is_silent, move_script,
    multiple_script, rename_steps, single_script, StepView,
};
use crate::script::{arrow, is_silent, Step};
use crate::state::{lemma_run_both, lemma_silent_run, State};
use crate::validate::with_git_suffix;
use crate::walk::{
    distinct_paths, lemma_yielded_comes_from, lemma_yielded_once, Entry, EntryKind, Walk,
};
use vstd::prelude::*;

verus! {

/// The walk that finds what the patterns of a move select: repositories,
/// and folders as single units.
pub open spec fn selecting(filters: PatternSet) -> Walk {
    Walk { root: None, match_folders: true, filter: Some(filters) }
}

/// The walk that finds the repositories below a folder.
pub open spec fn below(folder: Seq<char>) -> Walk {
    Walk { root: Some(folder), match_folders: false, filter: None }
}

/// Without conflicts every pair is clean, and the clean pairs are all the
/// pairs.
pub proof fn lemma_no_problems(ps: Seq<Pair>, es: Seq<Entry>, n: int)
    requires
        0 <= n <= ps.len(),
        problems_upto(ps, es, n).len() == 0,
    ensures
        forall|k: int| 0 <= k < n ==> (#[trigger] verdict(ps, es, k)) is Clean,
        clean_upto(ps, es, n) == ps.take(n),
    decreases n,
{
    if n > 0 {
        lemma_no_problems(ps, es, n - 1);
        assert(ps.take(n) =~= ps.take(n - 1).push(ps[n - 1]));
    } else {
        assert(ps.take(0) =~= Seq::<Pair>::empty());
    }
}

/// A path that ends in the suffix still does so behind any folder.
pub proof fn lemma_join_keeps_suffix(folder: Seq<char>, rest: Seq<char>)
    requires
        is_repo(rest),
    ensures
        is_repo(join_path(folder, rest)),
{
    let joined = join_path(folder, rest);
    let n = joined.len() as int;
    assert(joined.subrange(n - 4, n) =~= rest.subrange(rest.len() - 4, rest.len() as int));
}

/// The name of a repository carries the suffix.
pub proof fn lemma_base_name_is_repo(path: Seq<char>)
    requires
        is_repo(path),
    ensures
        is_repo(base_name(path)),
{
    lemma_base_start(path);
    let b = base_start(path);
    let n = path.len() as int;
    let tail = path.subrange(n - 4, n);
    assert(tail == git_suffix());
    if b > n - 4 {
        assert(path[b - 1] == '/');
        assert(tail[b - 1 - (n - 4)] == path[b - 1]);
    }
    let name = base_name(path);
    assert(name.subrange(name.len() - 4, name.len() as int) =~= tail);
}

/// What is left of a repository's path below a folder, without the folder
/// and the separator behind it, carries the suffix.
pub proof fn lemma_nested_name_is_repo(folder: Seq<char>, repo: Seq<char>)
    requires
        is_repo(repo),
        is_under(repo, folder),
    ensures
        is_repo(repo.subrange(folder.len() as int + 1, repo.len() as int)),
{
    let n = repo.len() as int;
    let long = folder.push('/');
    assert(repo.subrange(0, long.len() as int) == long);
    assert(repo.subrange(0, long.len() as int)[folder.len() as int] == repo[folder.len() as int]);
    assert(repo[folder.len() as int] == '/');
    let tail = repo.subrange(n - 4, n);
    assert(tail == git_suffix());
    if folder.len() >= n - 4 {
        assert(tail[folder.len() - (n - 4)] == repo[folder.len() as int]);
    }
    let name = repo.subrange(folder.len() as int + 1, n);
    assert(name.subrange(name.len() - 4, name.len() as int) =~= tail);
}

/// Two different folders that the same path lies below are nested.
pub proof fn lemma_folders_nest(path: Seq<char>, a: Seq<char>, b: Seq<char>)
    requires
        is_under(path, a),
        is_under(path, b),
        a != b,
    ensures
        is_under(a, b) || is_under(b, a),
{
    let la = a.push('/');
    let lb = b.push('/');
    assert(path.subrange(0, la.len() as int) == la);
    assert(path.subrange(0, lb.len() as int) == lb);
    assert forall|i: int| 0 <= i <= a.len() implies path[i] == la[i] by {
        assert(path.subrange(0, la.len() as int)[i] == path[i]);
    }
    assert forall|i: int| 0 <= i <= b.len() implies path[i] == lb[i] by {
        assert(path.subrange(0, lb.len() as int)[i] == path[i]);
    }
    if a.len() == b.len() {
        assert(a =~= b) by {
            assert forall|i: int| 0 <= i < a.len() implies a[i] == b[i] by {
                assert(la[i] == a[i]);
                assert(lb[i] == b[i]);
            }
        }
    } else if a.len() < b.len() {
        assert(b.subrange(0, la.len() as int) =~= la) by {
            assert forall|i: int| 0 <= i < la.len() implies b.subrange(0, la.len() as int)[i]
                == la[i] by {
                assert(lb[i] == b[i]);
            }
        }
    } else {
        assert(a.subrange(0, lb.len() as int) =~= lb) by {
            assert forall|i: int| 0 <= i < lb.len() implies a.subrange(0, lb.len() as int)[i]
                == lb[i] by {
                assert(la[i] == a[i]);
            }
        }
    }
}

/// In a listing of a tidy state, a repository path is on disk exactly where
/// a link lies.
pub proof fn lemma_on_disk_is_linked(s: State, es: Seq<Entry>, path: Seq<char>)
    requires
        s.is_listed_by(es),
        is_repo(path),
    ensures
        on_disk(es, path) == s.links.contains(path),
        is_link(es, path) == s.links.contains(path),
{
    if on_disk(es, path) {
        let j = choose|j: int| 0 <= j < es.len() && (#[trigger] es[j]).path@ == path;
        assert(es[j].kind == EntryKind::Symlink);
        assert(is_link(es, path));
    }
    if is_link(es, path) {
        let j = choose|j: int|
            0 <= j < es.len() && (#[trigger] es[j]).path@ == path && es[j].kind
                == EntryKind::Symlink;
        assert(on_disk(es, path));
    }
}

/// What a walk yields in a listing of a tidy state and takes for a
/// repository, or finds as a link, is a repository of the state.
pub proof fn lemma_candidate_is_linked(s: State, es: Seq<Entry>, i: int)
    requires
        s.is_listed_by(es),
        0 <= i < es.len(),
        is_repo(es[i].path@) || es[i].kind == EntryKind::Symlink,
    ensures
        s.links.contains(es[i].path@),
{
    assert(es[i].kind == EntryKind::Symlink);
    assert(is_link(es, es[i].path@));
}

/// The repositories below a folder are repositories of the state, and lie
/// below the folder, each once.
pub proof fn lemma_repos_below(s: State, es: Seq<Entry>, folder: Seq<char>)
    requires
        s.is_listed_by(es),
    ensures
        repos_below(es, folder).no_duplicates(),
        forall|j: int|
            0 <= j < repos_below(es, folder).len() ==> s.links.contains(
                #[trigger] repos_below(es, folder)[j],
            ) && is_under(repos_below(es, folder)[j], folder),
{
    let walk = below(folder);
    let repos = repos_below(es, folder);
    lemma_yielded_once(walk, es, es.len() as int);
    assert forall|j: int| 0 <= j < repos.len() implies s.links.contains(#[trigger] repos[j])
        && is_under(repos[j], folder) by {
        let i = lemma_yielded_comes_from(walk, es, es.len() as int, j);
        assert(walk.is_candidate(es[i]));
        lemma_candidate_is_linked(s, es, i);
    }
}

/// A pair comes from a source: it is the source itself, a repository, or
/// it lies below the source, a folder.
pub open spec fn comes_from(src: Seq<char>, source: Seq<char>) -> bool {
    (is_repo(source) && src == source) || (!is_repo(source) && is_under(src, source))
}

/// What holds of every pair that a move plans: its source is a repository
/// of the state, its destination carries the suffix, it moves something,
/// and it comes from one of the first `n` selected sources.
pub open spec fn is_planned(s: State, sources: Seq<Seq<char>>, n: int, p: Pair) -> bool {
    &&& s.links.contains(p.0)
    &&& is_repo(p.1)
    &&& p.0 != p.1
    &&& exists|i: int| 0 <= i < n && i < sources.len() && comes_from(p.0, #[trigger] sources[i])
}

/// The pairs of a moved folder: one for each repository below it, in
/// order, each planned.
pub proof fn lemma_folder_moves(
    s: State,
    folder: Seq<char>,
    repos: Seq<Seq<char>>,
    dst: Seq<char>,
    m: int,
)
    requires
        is_tidy(s),
        !is_repo(folder),
        0 <= m <= repos.len(),
        repos.no_duplicates(),
        forall|j: int|
            0 <= j < repos.len() ==> s.links.contains(#[trigger] repos[j]) && is_under(
                repos[j],
                folder,
            ),
    ensures
        distinct_sources(folder_moves_upto(folder, repos, dst, m)),
        forall|k: int|
            0 <= k < folder_moves_upto(folder, repos, dst, m).len() ==> {
                let p = #[trigger] folder_moves_upto(folder, repos, dst, m)[k];
                &&& s.links.contains(p.0)
                &&& is_repo(p.1)
                &&& p.0 != p.1
                &&& is_under(p.0, folder)
                &&& exists|j: int| 0 <= j < m && repos[j] == p.0
            },
    decreases m,
{
    if m > 0 {
        lemma_folder_moves(s, folder, repos, dst, m - 1);
        let before = folder_moves_upto(folder, repos, dst, m - 1);
        let repo = repos[m - 1];
        let target = nested_target(folder, repo, dst);
        let all = folder_moves_upto(folder, repos, dst, m);
        assert(s.links.contains(repos[m - 1]));
        assert(is_repo_path(repo));
        if !is_repo(dst) {
            lemma_nested_name_is_repo(folder, repo);
            lemma_join_keeps_suffix(
                dst,
                repo.subrange(folder.len() as int + 1, repo.len() as int),
            );
        }
        assert forall|k: int| 0 <= k < all.len() implies {
            let p = #[trigger] all[k];
            &&& s.links.contains(p.0)
            &&& is_repo(p.1)
            &&& p.0 != p.1
            &&& is_under(p.0, folder)
            &&& exists|j: int| 0 <= j < m && repos[j] == p.0
        } by {
            if k < before.len() {
                let p = before[k];
                assert(all[k] == p);
                let j = choose|j: int| 0 <= j < m - 1 && repos[j] == p.0;
                assert(0 <= j < m && repos[j] == p.0);
            } else {
                assert(all[k] == (repo, target));
                assert(repos[m - 1] == repo);
            }
        }
        assert forall|a: int, b: int| 0 <= a < b < all.len() implies (#[trigger] all[a]).0 != (
        #[trigger] all[b]).0 by {
            if b < before.len() {
                assert(before[a].0 != before[b].0);
            } else {
                let p = before[a];
                let j = choose|j: int| 0 <= j < m - 1 && repos[j] == p.0;
                assert(repos[j] != repos[m - 1]);
            }
        }
    }
}

/// With folders taken as units, whatever the walk yields closes the
/// subtree below it.
pub proof fn lemma_selected_closes(filters: PatternSet, es: Seq<Entry>, i: int)
    requires
        selecting(filters).yields(es, i),
    ensures
        selecting(filters).closes(es[i]),
        selecting(filters).in_scope(es[i].path@),
{
    let walk = selecting(filters);
    assert(walk.is_candidate(es[i]));
    assert(walk.selects(es[i].path@));
}

/// No path comes from two different selected sources: of two sources of
/// which one lies below the other, the walk yields only the upper one.
pub proof fn lemma_one_origin(
    filters: PatternSet,
    es: Seq<Entry>,
    i: int,
    j: int,
    path: Seq<char>,
)
    requires
        0 <= i < selecting(filters).yielded(es).len(),
        0 <= j < selecting(filters).yielded(es).len(),
        i != j,
        distinct_paths(es),
        comes_from(path, selecting(filters).yielded(es)[i]),
    ensures
        !comes_from(path, selecting(filters).yielded(es)[j]),
{
    let walk = selecting(filters);
    let sources = walk.yielded(es);
    let a = sources[i];
    let b = sources[j];
    lemma_yielded_once(walk, es, es.len() as int);
    assert(a != b);
    let ia = lemma_yielded_comes_from(walk, es, es.len() as int, i);
    let ib = lemma_yielded_comes_from(walk, es, es.len() as int, j);
    lemma_selected_closes(filters, es, ia);
    lemma_selected_closes(filters, es, ib);
    if comes_from(path, b) {
        if is_repo(a) {
            assert(path == a);
            assert(is_under(a, b));
            assert(walk.hides(es, ib, a));
        } else if is_repo(b) {
            assert(path == b);
            assert(walk.hides(es, ia, b));
        } else {
            lemma_folders_nest(path, a, b);
            if is_under(a, b) {
                assert(walk.hides(es, ib, a));
            } else {
                assert(walk.hides(es, ia, b));
            }
        }
    }
}

/// The pairs that one selected source stands for are planned, and no two
/// of them come from the same repository.
pub proof fn lemma_source_moves(
    s: State,
    es: Seq<Entry>,
    filters: PatternSet,
    dst: Seq<char>,
    n: int,
)
    requires
        is_tidy(s),
        s.is_listed_by(es),
        0 <= n < selecting(filters).yielded(es).len(),
    ensures
        distinct_sources(source_moves(selecting(filters).yielded(es)[n], dst, es)),
        forall|k: int|
            0 <= k < source_moves(selecting(filters).yielded(es)[n], dst, es).len() ==> {
                let p = #[trigger] source_moves(selecting(filters).yielded(es)[n], dst, es)[k];
                &&& s.links.contains(p.0)
                &&& is_repo(p.1)
                &&& p.0 != p.1
                &&& comes_from(p.0, selecting(filters).yielded(es)[n])
            },
{
    let walk = selecting(filters);
    let source = walk.yielded(es)[n];
    let new = source_moves(source, dst, es);
    let i = lemma_yielded_comes_from(walk, es, es.len() as int, n);
    if is_repo(source) {
        lemma_candidate_is_linked(s, es, i);
        if !is_repo(dst) {
            lemma_base_name_is_repo(source);
            lemma_join_keeps_suffix(dst, base_name(source));
        }
    } else {
        let repos = repos_below(es, source);
        lemma_repos_below(s, es, source);
        lemma_folder_moves(s, source, repos, dst, repos.len() as int);
    }
}

/// All the pairs that a move plans from what the patterns selected are
/// planned pairs, and no repository is moved twice.
pub proof fn lemma_expanded(
    s: State,
    es: Seq<Entry>,
    filters: PatternSet,
    dst: Seq<char>,
    n: int,
)
    requires
        is_tidy(s),
        s.is_listed_by(es),
        0 <= n <= selecting(filters).yielded(es).len(),
    ensures
        distinct_sources(expanded_upto(selecting(filters).yielded(es), dst, es, n)),
        forall|k: int|
            0 <= k < expanded_upto(selecting(filters).yielded(es), dst, es, n).len()
                ==> is_planned(
                s,
                selecting(filters).yielded(es),
                n,
                #[trigger] expanded_upto(selecting(filters).yielded(es), dst, es, n)[k],
            ),
    decreases n,
{
    let sources = selecting(filters).yielded(es);
    if n > 0 {
        lemma_expanded(s, es, filters, dst, n - 1);
        lemma_source_moves(s, es, filters, dst, n - 1);
        let before = expanded_upto(sources, dst, es, n - 1);
        let new = source_moves(sources[n - 1], dst, es);
        let all = expanded_upto(sources, dst, es, n);
        assert(all == before + new);
        assert forall|k: int| 0 <= k < all.len() implies is_planned(
            s,
            sources,
            n,
            #[trigger] all[k],
        ) by {
            if k < before.len() {
                assert(all[k] == before[k]);
                assert(is_planned(s, sources, n - 1, before[k]));
                let i = choose|i: int|
                    0 <= i < n - 1 && i < sources.len() && comes_from(
                        before[k].0,
                        #[trigger] sources[i],
                    );
                assert(0 <= i < n && comes_from(all[k].0, sources[i]));
            } else {
                assert(all[k] == new[k - before.len()]);
                assert(comes_from(all[k].0, sources[n - 1]));
            }
        }
        assert forall|a: int, b: int| 0 <= a < b < all.len() implies (#[trigger] all[a]).0 != (
        #[trigger] all[b]).0 by {
            if b < before.len() {
                assert(before[a].0 != before[b].0);
            } else if a >= before.len() {
                assert(new[a - before.len()].0 != new[b - before.len()].0);
            } else {
                assert(all[a] == before[a]);
                assert(all[b] == new[b - before.len()]);
                assert(is_planned(s, sources, n - 1, before[a]));
                let i = choose|i: int|
                    0 <= i < n - 1 && i < sources.len() && comes_from(
                        before[a].0,
                        #[trigger] sources[i],
                    );
                lemma_one_origin(filters, es, i, n - 1, before[a].0);
            }
        }
    }
}

/// A move that meets no conflict plans a batch that can be carried out.
pub proof fn lemma_planned_batch_is_sound(
    s: State,
    es: Seq<Entry>,
    filters: PatternSet,
    dst: Seq<char>,
)
    requires
        s.is_healthy(),
        is_tidy(s),
        s.is_listed_by(es),
        problems_upto(
            expanded(selecting(filters).yielded(es), dst, es),
            es,
            expanded(selecting(filters).yielded(es), dst, es).len() as int,
        ).len() == 0,
    ensures
        is_sound_batch(s, expanded(selecting(filters).yielded(es), dst, es), es),
        clean_upto(
            expanded(selecting(filters).yielded(es), dst, es),
            es,
            expanded(selecting(filters).yielded(es), dst, es).len() as int,
        ) == expanded(selecting(filters).yielded(es), dst, es),
{
    let sources = selecting(filters).yielded(es);
    let ps = expanded(sources, dst, es);
    lemma_expanded(s, es, filters, dst, sources.len() as int);
    lemma_no_problems(ps, es, ps.len() as int);
    assert(ps.take(ps.len() as int) =~= ps);
    assert forall|k: int| 0 <= k < ps.len() implies s.links.contains((#[trigger] ps[k]).0)
        && on_disk(es, ps[k].1) == s.links.contains(ps[k].1) && is_link(es, ps[k].1)
        == s.links.contains(ps[k].1) by {
        assert(is_planned(s, sources, sources.len() as int, ps[k]));
        lemma_on_disk_is_linked(s, es, ps[k].1);
    }
}

/// Moving nothing leaves the state as it is.
pub proof fn lemma_moved_nothing(s: State)
    requires
        s.is_healthy(),
    ensures
        moved(s, Seq::<Pair>::empty()) == s,
{
    let t = moved(s, Seq::<Pair>::empty());
    assert(t.links =~= s.links);
    assert(t.physical =~= s.physical);
}

/// One step alone that prints a line.
pub proof fn lemma_line_only(s: State, step: StepView)
    requires
        !(step is Do),
    ensures
        s.run(seq![step]) == Some(s),
        is_silent(seq![step]),
{
    lemma_run_one(s, step);
}

/// Renaming a repository to a free path moves it, link and directory, with
/// what it holds.
pub proof fn lemma_rename(s: State, src: Seq<char>, target: Seq<char>)
    requires
        s.is_healthy(),
        s.links.contains(src),
        !s.links.contains(target),
    ensures
        s.run(seq![Step::<Seq<char>>::Say(arrow(src, target))] + rename_steps(
            src,
            target,
        )) == Some(moved(s, seq![(src, target)])),
        moved(s, seq![(src, target)]).is_healthy(),
{
    let steps = seq![Step::<Seq<char>>::Say(arrow(src, target))] + rename_steps(
        src,
        target,
    );
    let ps = seq![(src, target)];
    let c = s.physical[src];
    let s2 = State { physical: s.physical.insert(target, 0), ..s };
    let s4 = State { physical: s2.physical.remove(src).insert(target, c), ..s };
    let s5 = State { links: s.links.insert(target), ..s4 };
    let s6 = State { links: s5.links.remove(src), ..s4 };
    assert(steps.len() == 9);
    assert(s.run_upto(steps, 0) == Some(s));
    assert(s.run_upto(steps, 1) == Some(s));
    assert(s.run_upto(steps, 2) == Some(s2));
    assert(s.run_upto(steps, 3) == Some(s2));
    assert(s2.physical.dom().contains(src));
    assert(s2.physical[src] == c);
    assert(s.run_upto(steps, 4) == Some(s4));
    assert(s.run_upto(steps, 5) == Some(s5));
    assert(s.run_upto(steps, 6) == Some(s6));
    assert(s.run_upto(steps, 7) == Some(s6));
    assert(s.run_upto(steps, 8) == Some(s6));
    assert(s.run_upto(steps, 9) == Some(s6));
    assert(is_first_to(ps, target, 0));
    lemma_first_to(ps, target, 0);
    assert forall|p: Seq<char>|
        is_source(ps, p) == (p == src) && is_dest(ps, p) == (p
            == target) by {
        if p == src {
            assert(ps[0].0 == p);
        }
        if p == target {
            assert(ps[0].1 == p);
        }
    }
    assert(s6.links =~= moved(s, ps).links);
    assert(s6.physical =~= moved(s, ps).physical);
    assert(moved(s, ps).links =~= moved(s, ps).physical.dom());
}

/// The pairs that a move plans: the one pair of a rename, or the pairs
/// that the sources stand for; pairs that would move nothing left out.
pub open spec fn planned(sources: Seq<Seq<char>>, dst: Seq<char>, es: Seq<Entry>) -> Seq<Pair> {
    if is_rename_only(sources, dst) {
        match with_git_suffix(dst) {
            Ok(target) => unless_same(sources[0], target),
            Err(_) => Seq::<Pair>::empty(),
        }
    } else {
        expanded(sources, dst, es)
    }
}

/// Moving many on trees that are in order: the script runs to its end; it
/// leaves the trees as they were unless it ends in success and is no dry
/// run, and then it moves the planned pairs.
pub proof fn lemma_multiple_is_safe(
    s: State,
    es: Seq<Entry>,
    filters: PatternSet,
    dst: Seq<char>,
    dry_run: bool,
)
    requires
        s.is_healthy(),
        is_tidy(s),
        s.is_listed_by(es),
    ensures
        (dry_run || multiple_script(selecting(filters).yielded(es), dst, es, dry_run).1 != 0)
            ==> s.run(multiple_script(selecting(filters).yielded(es), dst, es, dry_run).0)
            == Some(s),
        (!dry_run && multiple_script(selecting(filters).yielded(es), dst, es, dry_run).1 == 0)
            ==> s.run(multiple_script(selecting(filters).yielded(es), dst, es, dry_run).0)
            == Some(moved(s, expanded(selecting(filters).yielded(es), dst, es))) && moved(
            s,
            expanded(selecting(filters).yielded(es), dst, es),
        ).is_healthy(),
{
    let sources = selecting(filters).yielded(es);
    let script = multiple_script(sources, dst, es, dry_run);
    let ps = expanded(sources, dst, es);
    let moves = clean_upto(ps, es, ps.len() as int);
    let problems = problems_upto(ps, es, ps.len() as int);
    lemma_shown_is_silent(moves, moves.len() as int);
    lemma_reported_is_silent(problems, problems.len() as int);
    if problems.len() > 0 {
        lemma_silent_run(s, script.0, script.0.len() as int);
    } else {
        lemma_planned_batch_is_sound(s, es, filters, dst);
        if moves.len() == 0 {
            lemma_line_only(s, script.0[0]);
            assert(script.0 =~= seq![script.0[0]]);
            lemma_moved_nothing(s);
            assert(ps =~= Seq::<Pair>::empty());
        } else if dry_run {
            lemma_silent_run(s, script.0, script.0.len() as int);
        } else {
            law_clean_batch_is_moved(s, ps, es);
        }
    }
}

/// Renaming one on trees that are in order: the script runs to its end; it
/// leaves the trees as they were unless it ends in success and is no dry
/// run, and then it moves the one pair, if source and destination differ.
pub proof fn lemma_single_is_safe(
    s: State,
    es: Seq<Entry>,
    src: Seq<char>,
    dst: Seq<char>,
    dry_run: bool,
)
    requires
        s.is_healthy(),
        s.is_listed_by(es),
        s.links.contains(src),
        can_be_repo(dst),
    ensures
        (dry_run || single_script(src, dst, es, dry_run).1 != 0) ==> s.run(
            single_script(src, dst, es, dry_run).0,
        ) == Some(s),
        (!dry_run && single_script(src, dst, es, dry_run).1 == 0) ==> with_git_suffix(dst) is Ok
            && s.run(single_script(src, dst, es, dry_run).0) == Some(
            moved(s, unless_same(src, with_git_suffix(dst)->Ok_0)),
        ) && moved(s, unless_same(src, with_git_suffix(dst)->Ok_0)).is_healthy(),
{
    let script = single_script(src, dst, es, dry_run);
    if with_git_suffix(dst) is Err {
        lemma_line_only(s, script.0[0]);
        assert(script.0 =~= seq![script.0[0]]);
    } else {
        let target = with_git_suffix(dst)->Ok_0;
        assert(is_repo(target)) by {
            if !is_repo(dst) {
                let t = dst + git_suffix();
                assert(t.subrange(t.len() - 4, t.len() as int) =~= git_suffix());
            }
        }
        lemma_on_disk_is_linked(s, es, target);
        if src == target {
            lemma_line_only(s, script.0[0]);
            assert(script.0 =~= seq![script.0[0]]);
            lemma_moved_nothing(s);
        } else if on_disk(es, target) {
            lemma_line_only(s, script.0[0]);
            assert(script.0 =~= seq![script.0[0]]);
        } else if dry_run {
            lemma_line_only(s, script.0[0]);
            assert(script.0 =~= seq![script.0[0]]);
        } else {
            lemma_rename(s, src, target);
        }
    }
}

/// On trees that are in order, the move command never fails half-way: the
/// script that it writes from a true listing runs to its end, whatever the
/// patterns, the destination and the mode. A dry run, a conflict or any
/// other refusal leaves the trees exactly as they were. A move that goes
/// ahead moves exactly the planned repositories, each with what it held,
/// and leaves the trees in order and the staging area empty.
pub proof fn law_move_is_safe(
    s: State,
    es: Seq<Entry>,
    filters: PatternSet,
    dst: Seq<char>,
    dry_run: bool,
)
    requires
        s.is_healthy(),
        is_tidy(s),
        s.is_listed_by(es),
    ensures
        s.run(move_script(selecting(filters).yielded(es), dst, es, dry_run).0) is Some,
        (dry_run || move_script(selecting(filters).yielded(es), dst, es, dry_run).1 != 0)
            ==> s.run(move_script(selecting(filters).yielded(es), dst, es, dry_run).0) == Some(s),
        (!dry_run && move_script(selecting(filters).yielded(es), dst, es, dry_run).1 == 0)
            ==> s.run(move_script(selecting(filters).yielded(es), dst, es, dry_run).0) == Some(
            moved(s, planned(selecting(filters).yielded(es), dst, es)),
        ) && moved(s, planned(selecting(filters).yielded(es), dst, es)).is_healthy(),
{
    let walk = selecting(filters);
    let sources = walk.yielded(es);
    let script = move_script(sources, dst, es, dry_run);
    if sources.len() == 0 {
        lemma_line_only(s, script.0[0]);
        assert(script.0 =~= seq![script.0[0]]);
    } else if is_rename_only(sources, dst) {
        let i = lemma_yielded_comes_from(walk, es, es.len() as int, 0);
        lemma_candidate_is_linked(s, es, i);
        lemma_single_is_safe(s, es, sources[0], dst, dry_run);
    } else {
        lemma_multiple_is_safe(s, es, filters, dst, dry_run);
    }
}

/// The steps that delete the first `n` repositories of a list, one after
/// the other, as a deletion hands them out when it does not ask.
pub open spec fn deletion_upto(targets: Seq<Seq<char>>, n: int) -> Seq<StepView>
    decreases n,
{
    if n <= 0 {
        Seq::<StepView>::empty()
    } else {
        deletion_upto(targets, n - 1) + delete_steps(targets[n - 1])
    }
}

/// The state without the first `n` repositories of a list.
pub open spec fn without_repos(s: State, targets: Seq<Seq<char>>, n: int) -> State
    decreases n,
{
    if n <= 0 {
        s
    } else {
        without_repo(without_repos(s, targets, n - 1), targets[n - 1])
    }
}

/// Deleting repositories that are there, each once, succeeds and takes
/// away exactly those.
pub proof fn lemma_deletion(s: State, targets: Seq<Seq<char>>, n: int)
    requires
        s.is_healthy(),
        0 <= n <= targets.len(),
        targets.no_duplicates(),
        forall|i: int| 0 <= i < targets.len() ==> s.links.contains(#[trigger] targets[i]),
    ensures
        s.run(deletion_upto(targets, n)) == Some(without_repos(s, targets, n)),
        without_repos(s, targets, n).is_healthy(),
        forall|p: Seq<char>|
            #[trigger] without_repos(s, targets, n).links.contains(p) == (s.links.contains(p)
                && !exists|i: int| 0 <= i < n && targets[i] == p),
        forall|p: Seq<char>|
            without_repos(s, targets, n).links.contains(p) ==> #[trigger] without_repos(
                s,
                targets,
                n,
            ).physical[p] == s.physical[p],
    decreases n,
{
    if n <= 0 {
        assert(s.run_upto(Seq::<StepView>::empty(), 0) == Some(s));
    } else {
        lemma_deletion(s, targets, n - 1);
        let before = without_repos(s, targets, n - 1);
        let path = targets[n - 1];
        assert(before.links.contains(path)) by {
            assert(s.links.contains(targets[n - 1]));
            if exists|i: int| 0 <= i < n - 1 && targets[i] == path {
                let i = choose|i: int| 0 <= i < n - 1 && targets[i] == path;
                assert(targets[i] != targets[n - 1]);
            }
        }
        lemma_delete_one(before, path);
        lemma_run_both(s, before, deletion_upto(targets, n - 1), delete_steps(path));
        let after = without_repos(s, targets, n);
        assert forall|p: Seq<char>|
            #[trigger] after.links.contains(p) == (s.links.contains(p) && !exists|i: int|
                0 <= i < n && targets[i] == p) by {
            if exists|i: int| 0 <= i < n && targets[i] == p {
                let i = choose|i: int| 0 <= i < n && targets[i] == p;
                if i < n - 1 {
                    assert(0 <= i < n - 1 && targets[i] == p);
                }
            }
            if exists|i: int| 0 <= i < n - 1 && targets[i] == p {
                let i = choose|i: int| 0 <= i < n - 1 && targets[i] == p;
                assert(0 <= i < n && targets[i] == p);
            }
            if p == path {
                assert(0 <= n - 1 < n && targets[n - 1] == p);
            }
        }
    }
}

/// What the patterns of a deletion select are repositories of the state,
/// each once.
pub proof fn lemma_targets(s: State, es: Seq<Entry>, filters: PatternSet, n: int)
    requires
        is_tidy(s),
        s.is_listed_by(es),
        0 <= n <= selecting(filters).yielded(es).len(),
    ensures
        targets_upto(selecting(filters).yielded(es), es, n).no_duplicates(),
        forall|k: int|
            0 <= k < targets_upto(selecting(filters).yielded(es), es, n).len() ==> {
                let t = #[trigger] targets_upto(selecting(filters).yielded(es), es, n)[k];
                &&& s.links.contains(t)
                &&& exists|i: int|
                    0 <= i < n && comes_from(t, #[trigger] selecting(filters).yielded(es)[i])
            },
    decreases n,
{
    let walk = selecting(filters);
    let sources = walk.yielded(es);
    if n > 0 {
        lemma_targets(s, es, filters, n - 1);
        let before = targets_upto(sources, es, n - 1);
        let source = sources[n - 1];
        let new = targets_of(source, es);
        let all = targets_upto(sources, es, n);
        assert(all == before + new);
        let i = lemma_yielded_comes_from(walk, es, es.len() as int, n - 1);
        if is_repo(source) {
            lemma_candidate_is_linked(s, es, i);
        } else {
            lemma_repos_below(s, es, source);
        }
        assert forall|k: int| 0 <= k < new.len() implies s.links.contains(#[trigger] new[k])
            && comes_from(new[k], source) by {}
        assert forall|k: int| 0 <= k < all.len() implies {
            let t = #[trigger] all[k];
            &&& s.links.contains(t)
            &&& exists|i: int| 0 <= i < n && comes_from(t, #[trigger] sources[i])
        } by {
            if k < before.len() {
                assert(all[k] == before[k]);
                let t = before[k];
                let i = choose|i: int| 0 <= i < n - 1 && comes_from(t, #[trigger] sources[i]);
                assert(0 <= i < n && comes_from(t, sources[i]));
            } else {
                assert(all[k] == new[k - before.len()]);
                assert(comes_from(all[k], sources[n - 1]));
            }
        }
        assert forall|a: int, b: int| 0 <= a < b < all.len() implies all[a] != all[b] by {
            if b < before.len() {
                assert(before[a] != before[b]);
            } else if a >= before.len() {
                assert(new[a - before.len()] != new[b - before.len()]);
            } else {
                let t = before[a];
                assert(all[a] == t);
                assert(all[b] == new[b - before.len()]);
                let i = choose|i: int| 0 <= i < n - 1 && comes_from(t, #[trigger] sources[i]);
                lemma_one_origin(filters, es, i, n - 1, t);
            }
        }
    }
}

/// On trees that are in order, a deletion that does not ask never fails
/// half-way: every repository that the patterns select is there to be
/// deleted, once; afterwards all of them are gone from both trees, and
/// every other repository is where it was, with what it held.
pub proof fn law_delete_is_safe(s: State, es: Seq<Entry>, filters: PatternSet)
    requires
        s.is_healthy(),
        is_tidy(s),
        s.is_listed_by(es),
    ensures
        s.run(
            deletion_upto(
                selected_for_deletion(filters, es),
                selected_for_deletion(filters, es).len() as int,
            ),
        ) == Some(
            without_repos(
                s,
                selected_for_deletion(filters, es),
                selected_for_deletion(filters, es).len() as int,
            ),
        ),
        without_repos(
            s,
            selected_for_deletion(filters, es),
            selected_for_deletion(filters, es).len() as int,
        ).is_healthy(),
        forall|p: Seq<char>|
            #[trigger] without_repos(
                s,
                selected_for_deletion(filters, es),
                selected_for_deletion(filters, es).len() as int,
            ).links.contains(p) == (s.links.contains(p) && !selected_for_deletion(
                filters,
                es,
            ).contains(p)),
{
    let sources = selecting(filters).yielded(es);
    let targets = selected_for_deletion(filters, es);
    assert(targets == targets_upto(sources, es, sources.len() as int));
    lemma_targets(s, es, filters, sources.len() as int);
    lemma_deletion(s, targets, targets.len() as int);
    let after = without_repos(s, targets, targets.len() as int);
    assert forall|p: Seq<char>|
        #[trigger] after.links.contains(p) == (s.links.contains(p) && !targets.contains(p)) by {
        if targets.contains(p) {
            let i = choose|i: int| 0 <= i < targets.len() && targets[i] == p;
            assert(0 <= i < targets.len() && targets[i] == p);
        }
        if exists|i: int| 0 <= i < targets.len() && targets[i] == p {
            let i = choose|i: int| 0 <= i < targets.len() && targets[i] == p;
            assert(targets.contains(p));
        }
    }
}

} // verus!

//! A repository's life, from creation to deletion, as the trees see it:
//! once created it is listed, exactly once; once deleted it is gone, and
//! the trees are as they were before it came.

use crate::create::{
    create_script, create_steps, creation_upto, distinct_upto, is_taken, requested, taken_upto,
};
use crate::delete::delete_steps;
use crate::effects::lemma_run_one;
use crate::list::every_repository;
use crate::path::{git_suffix, is_repo, is_under, top_level_is};
use crate::plan::on_disk;
use crate::relocate::{is_link, StepView};
use crate::state::{fresh, lemma_run_both, State};
use crate::text::starts_with;
use crate::validate::{commands_prefix, is_name_char, is_path_syntax, path_stem};
use crate::walk::{
    commands_folder, is_reserved, lemma_yielded_comes_from, lemma_yielded_holds, lemma_yielded_once,
    ssh_folder, Entry, EntryKind,
};
use vstd::prelude::*;

verus! {

/// A path in the form that parsing gives to a repository path: names
/// separated by single separators, the suffix on the last, and not in the
/// folder that holds the commands.
pub open spec fn is_repo_path(p: Seq<char>) -> bool {
    is_repo(p) && is_path_syntax(p) && !starts_with(p, commands_prefix())
}

/// Every link of the state lies at a repository path.
pub open spec fn is_tidy(s: State) -> bool {
    forall|p: Seq<char>| s.links.contains(p) ==> is_repo_path(p)
}

/// No repository path lies below another: the suffix ends a path.
pub proof fn lemma_repo_paths_do_not_nest(p: Seq<char>, q: Seq<char>)
    requires
        is_repo_path(p),
        is_repo(q),
    ensures
        !is_under(p, q),
{
    if is_under(p, q) {
        let long = q.push('/');
        assert(p.subrange(0, long.len() as int) == long);
        let dot = q.len() - 4;
        assert(q.subrange(q.len() - 4, q.len() as int)[0] == '.');
        assert(q[dot] == '.');
        assert(long[dot] == q[dot]);
        assert(p.subrange(0, long.len() as int)[dot] == p[dot]);
        assert(p[dot] == '.');
        let stem = path_stem(p);
        assert(stem == p.subrange(0, p.len() - 4));
        assert(dot < stem.len());
        assert(stem[dot] == p[dot]);
        assert(is_name_char(stem[dot]) || stem[dot] == '/');
    }
}

/// A repository path is not one of the two reserved entries and lies in
/// neither.
pub proof fn lemma_repo_path_is_not_reserved(p: Seq<char>)
    requires
        is_repo_path(p),
    ensures
        !is_reserved(p),
        p.len() > 0,
{
    reveal_strlit(".ssh");
    reveal_strlit("git-shell-commands");
    reveal_strlit("git-shell-commands/");
    let stem = path_stem(p);
    assert(stem == p.subrange(0, p.len() - 4));
    assert(stem[0] == p[0]);
    assert(is_name_char(stem[0]) || stem[0] == '/');
    if top_level_is(p, ssh_folder()) {
        assert(p.subrange(0, 4)[0] == '.');
    }
    if top_level_is(p, commands_folder()) {
        let name = commands_folder();
        assert(p.subrange(0, 18) == name);
        if p.len() == 18 {
            assert(p.subrange(p.len() - 4, p.len() as int) == git_suffix());
            assert(p.subrange(p.len() - 4, p.len() as int)[0] == p[14]);
            assert(p.subrange(0, 18)[14] == p[14]);
        } else {
            assert(p.subrange(0, 19) =~= name.push('/')) by {
                assert forall|i: int| 0 <= i < 19 implies p.subrange(0, 19)[i] == name.push(
                    '/',
                )[i] by {
                    if i < 18 {
                        assert(p.subrange(0, 18)[i] == p[i]);
                    }
                }
            }
            assert(name.push('/') =~= commands_prefix());
        }
    }
}

/// In a listing of a tidy state, the walk over every repository yields
/// exactly the links: each of them, and nothing else.
pub proof fn lemma_walk_yields_links(s: State, es: Seq<Entry>)
    requires
        is_tidy(s),
        s.is_listed_by(es),
    ensures
        forall|p: Seq<char>|
            #[trigger] every_repository().yielded(es).contains(p) == s.links.contains(p),
        every_repository().yielded(es).no_duplicates(),
{
    let walk = every_repository();
    let out = walk.yielded(es);
    lemma_yielded_once(walk, es, es.len() as int);
    assert forall|p: Seq<char>| #[trigger] out.contains(p) == s.links.contains(p) by {
        if out.contains(p) {
            let k = choose|k: int| 0 <= k < out.len() && out[k] == p;
            let i = lemma_yielded_comes_from(walk, es, es.len() as int, k);
            assert(walk.is_candidate(es[i]));
            assert(es[i].kind == EntryKind::Symlink);
            assert(is_link(es, p));
        }
        if s.links.contains(p) {
            assert(is_link(es, p));
            let i = choose|i: int|
                0 <= i < es.len() && (#[trigger] es[i]).path@ == p && es[i].kind
                    == EntryKind::Symlink;
            lemma_repo_path_is_not_reserved(p);
            assert(!walk.is_hidden(es, p)) by {
                if walk.is_hidden(es, p) {
                    let j = choose|j: int| walk.hides(es, j, p);
                    let q = es[j].path@;
                    assert(is_repo(q)) by {
                        if es[j].kind == EntryKind::Symlink {
                            assert(is_link(es, q));
                            assert(s.links.contains(q) == is_link(es, q));
                            assert(is_repo_path(q));
                        } else {
                            assert(walk.closes(es[j]));
                        }
                    }
                    lemma_repo_paths_do_not_nest(p, q);
                }
            }
            assert(walk.yields(es, i));
            let k = lemma_yielded_holds(walk, es, es.len() as int, i);
        }
    }
}

/// The state with one more repository, freshly made.
pub open spec fn with_repo(s: State, path: Seq<char>) -> State {
    State { links: s.links.insert(path), physical: s.physical.insert(path, fresh()), ..s }
}

/// Creating one repository at a free path succeeds and adds exactly that
/// repository, link and directory.
pub proof fn lemma_create_one(s: State, path: Seq<char>)
    requires
        s.is_healthy(),
        !s.links.contains(path),
    ensures
        s.run(create_steps(path)) == Some(with_repo(s, path)),
        with_repo(s, path).is_healthy(),
{
    let steps = create_steps(path);
    let s1 = State { physical: s.physical.insert(path, 0), ..s };
    let s3 = State { physical: s1.physical.insert(path, fresh()), ..s };
    assert(s.run_upto(steps, 0) == Some(s));
    assert(s.run_upto(steps, 1) == Some(s1));
    assert(s.run_upto(steps, 2) == Some(s3));
    assert(s.run_upto(steps, 3) == Some(s3));
    assert(s3.physical =~= s.physical.insert(path, fresh()));
    assert(s.run_upto(steps, 4) == Some(with_repo(s, path)));
    assert(s.run_upto(steps, 5) == Some(with_repo(s, path)));
    assert(with_repo(s, path).links =~= with_repo(s, path).physical.dom());
}

/// The state without the repository at the path.
pub open spec fn without_repo(s: State, path: Seq<char>) -> State {
    State { links: s.links.remove(path), physical: s.physical.remove(path), ..s }
}

/// Deleting a repository that is there succeeds and takes away exactly
/// that repository, link and directory.
pub proof fn lemma_delete_one(s: State, path: Seq<char>)
    requires
        s.is_healthy(),
        s.links.contains(path),
    ensures
        s.run(delete_steps(path)) == Some(without_repo(s, path)),
        without_repo(s, path).is_healthy(),
{
    let steps = delete_steps(path);
    let s1 = State { links: s.links.remove(path), ..s };
    let s2 = State { physical: s.physical.remove(path), ..s1 };
    assert(s.run_upto(steps, 0) == Some(s));
    assert(s.run_upto(steps, 1) == Some(s1));
    assert(s.run_upto(steps, 2) == Some(s2));
    assert(s.run_upto(steps, 3) == Some(s2));
    assert(s.run_upto(steps, 4) == Some(s2));
    assert(s.run_upto(steps, 5) == Some(s2));
    assert(s2.links =~= s2.physical.dom());
}

/// The script that creates one repository at a path where nothing lies is
/// the steps that create it, and ends in success.
pub proof fn lemma_create_script_of_one(path: Seq<char>, visible: Seq<Entry>, physical: Seq<Entry>)
    requires
        !is_taken(visible, physical, path),
    ensures
        create_script(seq![path], visible, physical) == (create_steps(path), 0int),
{
    let paths = seq![path];
    assert(distinct_upto(paths, 0) =~= Seq::<Seq<char>>::empty());
    assert(distinct_upto(paths, 1) =~= seq![path]);
    let wanted = requested(paths);
    assert(wanted =~= seq![path]);
    assert(taken_upto(wanted, visible, physical, 0) =~= Seq::<Seq<char>>::empty());
    assert(taken_upto(wanted, visible, physical, 1) =~= Seq::<Seq<char>>::empty());
    assert(creation_upto(wanted, 0) =~= Seq::<StepView>::empty());
    assert(creation_upto(wanted, 1) =~= create_steps(path));
    assert(create_script(paths, visible, physical).0 =~= create_steps(path));
}

/// For any repository path at which nothing lies: creating it succeeds,
/// and every listing of the trees afterwards shows it exactly once.
/// Deleting it then succeeds too; no listing shows it any more, and the
/// trees are what they were before it was created, so that no folder made
/// for it alone is left behind.
pub proof fn law_create_list_delete(
    s: State,
    path: Seq<char>,
    visible: Seq<Entry>,
    physical: Seq<Entry>,
    after: Seq<Entry>,
    last: Seq<Entry>,
)
    requires
        s.is_healthy(),
        is_tidy(s),
        is_repo_path(path),
        s.is_listed_by(visible),
        !is_taken(visible, physical, path),
        with_repo(s, path).is_listed_by(after),
        s.is_listed_by(last),
    ensures
        create_script(seq![path], visible, physical).1 == 0,
        s.run(create_script(seq![path], visible, physical).0) == Some(with_repo(s, path)),
        every_repository().yielded(after).contains(path),
        every_repository().yielded(after).no_duplicates(),
        with_repo(s, path).run(delete_steps(path)) == Some(s),
        !every_repository().yielded(last).contains(path),
{
    assert(!s.links.contains(path)) by {
        if s.links.contains(path) {
            assert(is_link(visible, path));
            assert(on_disk(visible, path));
        }
    }
    lemma_create_script_of_one(path, visible, physical);
    lemma_create_one(s, path);
    let t = with_repo(s, path);
    assert(is_tidy(t));
    lemma_walk_yields_links(t, after);
    assert(t.links.contains(path));
    assert(every_repository().yielded(after).contains(path) == t.links.contains(path));
    lemma_delete_one(t, path);
    assert(t.links.remove(path) =~= s.links);
    assert(t.physical.remove(path) =~= s.physical);
    lemma_walk_yields_links(s, last);
    assert(every_repository().yielded(last).contains(path) == s.links.contains(path));
}

/// The state with the first `n` paths of the list added as fresh
/// repositories.
pub open spec fn with_repos(s: State, paths: Seq<Seq<char>>, n: int) -> State
    decreases n,
{
    if n <= 0 {
        s
    } else {
        with_repo(with_repos(s, paths, n - 1), paths[n - 1])
    }
}

/// Creating repositories at free paths, each named once, succeeds and adds
/// them one after the other.
pub proof fn lemma_creation(s: State, paths: Seq<Seq<char>>, n: int)
    requires
        s.is_healthy(),
        0 <= n <= paths.len(),
        paths.no_duplicates(),
        forall|i: int| 0 <= i < paths.len() ==> !s.links.contains(#[trigger] paths[i]),
    ensures
        s.run(creation_upto(paths, n)) == Some(with_repos(s, paths, n)),
        with_repos(s, paths, n).is_healthy(),
        forall|p: Seq<char>|
            #[trigger] with_repos(s, paths, n).links.contains(p) == (s.links.contains(p)
                || exists|i: int| 0 <= i < n && paths[i] == p),
    decreases n,
{
    if n <= 0 {
        assert(s.run_upto(Seq::<StepView>::empty(), 0) == Some(s));
    } else {
        lemma_creation(s, paths, n - 1);
        let before = with_repos(s, paths, n - 1);
        let path = paths[n - 1];
        assert(!before.links.contains(path)) by {
            if before.links.contains(path) {
                let i = choose|i: int| 0 <= i < n - 1 && paths[i] == path;
                assert(paths[i] != paths[n - 1]);
            }
        }
        lemma_create_one(before, path);
        lemma_run_both(s, before, creation_upto(paths, n - 1), create_steps(path));
        assert forall|p: Seq<char>|
            #[trigger] with_repos(s, paths, n).links.contains(p) == (s.links.contains(p)
                || exists|i: int| 0 <= i < n && paths[i] == p) by {
            if before.links.contains(p) && !s.links.contains(p) {
                let i = choose|i: int| 0 <= i < n - 1 && paths[i] == p;
                assert(0 <= i < n && paths[i] == p);
            }
            if p == path {
                assert(0 <= n - 1 < n && paths[n - 1] == p);
            }
            if exists|i: int| 0 <= i < n && paths[i] == p {
                let i = choose|i: int| 0 <= i < n && paths[i] == p;
                if i < n - 1 {
                    assert(0 <= i < n - 1 && paths[i] == p);
                }
            }
        }
    }
}

/// The paths that a creation asks for, each once.
pub proof fn lemma_requested_once(paths: Seq<Seq<char>>, n: int)
    requires
        0 <= n <= paths.len(),
    ensures
        distinct_upto(paths, n).no_duplicates(),
        forall|p: Seq<char>|
            #[trigger] distinct_upto(paths, n).contains(p) == exists|i: int|
                0 <= i < n && paths[i] == p,
    decreases n,
{
    let now = distinct_upto(paths, n);
    if n > 0 {
        lemma_requested_once(paths, n - 1);
        let before = distinct_upto(paths, n - 1);
        let last = paths[n - 1];
        let seen = exists|i: int| 0 <= i < n - 1 && (#[trigger] paths[i]) == paths[n - 1];
        assert(before.contains(last) == seen) by {
            if seen {
                let i = choose|i: int| 0 <= i < n - 1 && (#[trigger] paths[i]) == paths[n - 1];
                assert(0 <= i < n - 1 && paths[i] == last);
            }
            if before.contains(last) {
                let i = choose|i: int| 0 <= i < n - 1 && paths[i] == last;
                assert(paths[i] == paths[n - 1]);
            }
        }
        assert forall|p: Seq<char>| #[trigger] now.contains(p) == exists|i: int|
            0 <= i < n && paths[i] == p by {
            if now.contains(p) {
                let k = choose|k: int| 0 <= k < now.len() && now[k] == p;
                if k < before.len() {
                    assert(before[k] == p);
                    assert(before.contains(p));
                    let i = choose|i: int| 0 <= i < n - 1 && paths[i] == p;
                    assert(0 <= i < n && paths[i] == p);
                } else {
                    assert(p == last);
                    assert(0 <= n - 1 < n && paths[n - 1] == p);
                }
            }
            if exists|i: int| 0 <= i < n && paths[i] == p {
                let i = choose|i: int| 0 <= i < n && paths[i] == p;
                if i < n - 1 {
                    assert(before.contains(p));
                    let k = choose|k: int| 0 <= k < before.len() && before[k] == p;
                    assert(now[k] == p);
                } else if seen {
                    let k = choose|k: int| 0 <= k < before.len() && before[k] == p;
                    assert(now[k] == p);
                } else {
                    assert(now[now.len() - 1] == p);
                }
            }
        }
    }
}

/// Nothing taken means that no path is taken.
pub proof fn lemma_none_taken(
    paths: Seq<Seq<char>>,
    visible: Seq<Entry>,
    physical: Seq<Entry>,
    n: int,
)
    requires
        0 <= n <= paths.len(),
        taken_upto(paths, visible, physical, n).len() == 0,
    ensures
        forall|i: int| 0 <= i < n ==> !is_taken(visible, physical, #[trigger] paths[i]),
    decreases n,
{
    if n > 0 {
        lemma_none_taken(paths, visible, physical, n - 1);
    }
}

/// Creation is all or nothing. Where any requested path exists already,
/// in either tree, the script changes nothing and ends in failure. Else it
/// runs to its end and leaves every requested repository in place, each
/// once however often it was asked for, and nothing else changed.
pub proof fn law_create_is_all_or_nothing(
    s: State,
    paths: Seq<Seq<char>>,
    visible: Seq<Entry>,
    physical: Seq<Entry>,
)
    requires
        s.is_healthy(),
        s.is_listed_by(visible),
    ensures
        s.run(create_script(paths, visible, physical).0) is Some,
        create_script(paths, visible, physical).1 != 0 ==> s.run(
            create_script(paths, visible, physical).0,
        ) == Some(s),
        create_script(paths, visible, physical).1 == 0 ==> {
            let t = s.run(create_script(paths, visible, physical).0).unwrap();
            &&& t.is_healthy()
            &&& forall|p: Seq<char>|
                #[trigger] t.links.contains(p) == (s.links.contains(p) || exists|i: int|
                    0 <= i < paths.len() && paths[i] == p)
        },
{
    let wanted = requested(paths);
    let taken = taken_upto(wanted, visible, physical, wanted.len() as int);
    let script = create_script(paths, visible, physical);
    if taken.len() > 0 {
        assert(script.0 =~= seq![script.0[0]]);
        lemma_run_one(s, script.0[0]);
    } else {
        lemma_requested_once(paths, paths.len() as int);
        lemma_none_taken(wanted, visible, physical, wanted.len() as int);
        assert forall|i: int| 0 <= i < wanted.len() implies !s.links.contains(
            #[trigger] wanted[i],
        ) by {
            if s.links.contains(wanted[i]) {
                assert(is_link(visible, wanted[i]));
                assert(on_disk(visible, wanted[i]));
            }
        }
        lemma_creation(s, wanted, wanted.len() as int);
        let made = creation_upto(wanted, wanted.len() as int);
        let t = with_repos(s, wanted, wanted.len() as int);
        if wanted.len() > 1 {
            let count = script.0[script.0.len() - 1];
            assert(script.0 =~= made + seq![count]);
            lemma_run_one(t, count);
            lemma_run_both(s, t, made, seq![count]);
        } else {
            assert(script.0 =~= made);
        }
        assert forall|p: Seq<char>|
            #[trigger] t.links.contains(p) == (s.links.contains(p) || exists|i: int|
                0 <= i < paths.len() && paths[i] == p) by {
            assert(wanted.contains(p) == exists|i: int| 0 <= i < paths.len() && paths[i] == p);
            if wanted.contains(p) {
                let k = choose|k: int| 0 <= k < wanted.len() && wanted[k] == p;
                assert(0 <= k < wanted.len() && wanted[k] == p);
            }
            if exists|i: int| 0 <= i < wanted.len() && wanted[i] == p {
                let k = choose|i: int| 0 <= i < wanted.len() && wanted[i] == p;
                assert(wanted.contains(p));
            }
        }
    }
}

/// Creating and deleting keep the trees in order: with one repository
/// more at a repository path, or one less, every link still has its
/// repository and still lies at a repository path.
pub proof fn law_trees_stay_in_order(s: State, path: Seq<char>)
    requires
        s.is_healthy(),
        is_tidy(s),
        is_repo_path(path),
    ensures
        !s.links.contains(path) ==> with_repo(s, path).is_healthy() && is_tidy(with_repo(s, path)),
        s.links.contains(path) ==> without_repo(s, path).is_healthy() && is_tidy(
            without_repo(s, path),
        ),
{
    if s.links.contains(path) {
        lemma_delete_one(s, path);
    } else {
        lemma_create_one(s, path);
    }
}

} // verus!

//! Listing repositories: every repository of the visible tree is counted,
//! and those that the filters select are shown.

use crate::glob::PatternSet;
use crate::relocate::StepView;
use crate::script::{
    count_line, counted, decimal, decimal_text, is_silent, push_step, step_views, Script, Step,
};
use crate::text::{concat, views};
use crate::walk::{
    distinct_paths, filter_repos, lemma_yielded_holds, lemma_yielded_once, walk_of, Entry, Walk,
};
use vstd::prelude::*;

verus! {

/// The walk that finds every repository of the visible tree.
pub open spec fn every_repository() -> Walk {
    Walk { root: None, match_folders: false, filter: None }
}

/// Whether a repository is shown: without filters every repository
/// matches; `invert` turns the match around.
pub open spec fn is_shown(filters: PatternSet, invert: bool, path: Seq<char>) -> bool {
    invert != (filters.patterns().len() == 0 || filters.admits(path))
}

/// Those of the first `n` repositories that are shown.
pub open spec fn shown_upto(
    found: Seq<Seq<char>>,
    filters: PatternSet,
    invert: bool,
    n: int,
) -> Seq<Seq<char>>
    decreases n,
{
    if n <= 0 {
        Seq::<Seq<char>>::empty()
    } else if is_shown(filters, invert, found[n - 1]) {
        shown_upto(found, filters, invert, n - 1).push(found[n - 1])
    } else {
        shown_upto(found, filters, invert, n - 1)
    }
}

/// The repositories of the listing that are shown, in order.
pub open spec fn shown(entries: Seq<Entry>, filters: PatternSet, invert: bool) -> Seq<Seq<char>> {
    let found = every_repository().yielded(entries);
    shown_upto(found, filters, invert, found.len() as int)
}

/// One line for each of the first `n` paths.
pub open spec fn lines_upto(paths: Seq<Seq<char>>, n: int) -> Seq<StepView>
    decreases n,
{
    if n <= 0 {
        Seq::<StepView>::empty()
    } else {
        lines_upto(paths, n - 1).push(Step::Say(paths[n - 1]))
    }
}

/// The line that sums up a listing: `count` of `total` repositories were
/// shown.
pub open spec fn summary(count: nat, total: nat) -> Seq<char> {
    if total == 0 {
        "You have no repositories"@
    } else if count == 0 {
        counted("Matched no repositories ("@, total, " total)"@)
    } else {
        "Matched "@ + decimal_text(count) + "/"@ + decimal_text(total) + " repositories"@
    }
}

/// The script of a listing: with `count_only` nothing but the number of
/// repositories shown; else each of them on a line of its own, and the
/// summary.
pub open spec fn list_script(
    entries: Seq<Entry>,
    filters: PatternSet,
    invert: bool,
    count_only: bool,
) -> (Seq<StepView>, int) {
    let all = every_repository().yielded(entries);
    let some = shown(entries, filters, invert);
    if count_only {
        (seq![Step::<Seq<char>>::Say(decimal_text(some.len()))], 0)
    } else {
        (
            lines_upto(some, some.len() as int) + seq![
                Step::<Seq<char>>::Say(summary(some.len(), all.len())),
            ],
            0,
        )
    }
}

/// The line that sums up a listing.
pub fn summary_line(count: usize, total: usize) -> (r: String)
    ensures
        r@ == summary(count as nat, total as nat),
{
    if total == 0 {
        "You have no repositories".to_string()
    } else if count == 0 {
        count_line("Matched no repositories (", total, " total)")
    } else {
        let a = concat("Matched ", decimal(count).as_str());
        let b = concat(a.as_str(), "/");
        let c = concat(b.as_str(), decimal(total).as_str());
        concat(c.as_str(), " repositories")
    }
}

/// The repositories of the listing that the filters select.
pub fn select(entries: &Vec<Entry>, filters: &PatternSet, invert: bool) -> (r: (Vec<String>, usize))
    ensures
        views(r.0@) == shown(entries@, *filters, invert),
        r.1 == every_repository().yielded(entries@).len(),
{
    let found = filter_repos(entries, false, None);
    assert(walk_of(None, false, None) == every_repository());
    let ghost all = views(found@);
    let mut out: Vec<String> = Vec::new();
    let mut k: usize = 0;
    assert(views(out@) =~= shown_upto(all, *filters, invert, 0));
    while k < found.len()
        invariant
            k <= found.len(),
            all == views(found@),
            views(out@) == shown_upto(all, *filters, invert, k as int),
        decreases found.len() - k,
    {
        let path: &str = found[k].as_str();
        assert(all[k as int] == path@);
        let matched: bool = filters.is_empty() || filters.is_match(path);
        let ghost before = views(out@);
        if invert != matched {
            out.push(path.to_string());
            assert(views(out@) =~= before.push(path@));
        }
        k += 1;
    }
    (out, found.len())
}

/// Lists the repositories of the visible tree.
pub fn list(entries: &Vec<Entry>, filters: &PatternSet, invert: bool, count_only: bool) -> (r:
    Script)
    ensures
        r@ == list_script(entries@, *filters, invert, count_only),
{
    let (some, total) = select(entries, filters, invert);
    let mut steps: Vec<Step<String>> = Vec::new();
    if count_only {
        push_step(&mut steps, Step::Say(decimal(some.len())));
        let r = Script { steps, status: 0 };
        assert(r@.0 =~= seq![Step::<Seq<char>>::Say(decimal_text(some.len() as nat))]);
        return r;
    }
    let mut k: usize = 0;
    assert(step_views(steps@) =~= lines_upto(views(some@), 0));
    while k < some.len()
        invariant
            k <= some.len(),
            step_views(steps@) == lines_upto(views(some@), k as int),
        decreases some.len() - k,
    {
        assert(views(some@)[k as int] == some@[k as int]@);
        push_step(&mut steps, Step::Say(some[k].clone()));
        k += 1;
    }
    push_step(&mut steps, Step::Say(summary_line(some.len(), total)));
    Script { steps, status: 0 }
}

/// Without filters every repository is shown, and with `invert` none.
pub proof fn lemma_no_filters(found: Seq<Seq<char>>, filters: PatternSet, n: int)
    requires
        filters.patterns().len() == 0,
        0 <= n <= found.len(),
    ensures
        shown_upto(found, filters, false, n) == found.take(n),
        shown_upto(found, filters, true, n).len() == 0,
    decreases n,
{
    if n > 0 {
        lemma_no_filters(found, filters, n - 1);
        assert(found.take(n) =~= found.take(n - 1).push(found[n - 1]));
    } else {
        assert(found.take(0) =~= Seq::<Seq<char>>::empty());
    }
}

/// A listing without filters shows what the walk over every repository
/// yields, all of it and in its order; with `invert` and no filters it
/// shows nothing.
pub proof fn law_list_without_filters(entries: Seq<Entry>, filters: PatternSet)
    requires
        filters.patterns().len() == 0,
    ensures
        shown(entries, filters, false) == every_repository().yielded(entries),
        shown(entries, filters, true).len() == 0,
{
    let found = every_repository().yielded(entries);
    lemma_no_filters(found, filters, found.len() as int);
    assert(found.take(found.len() as int) =~= found);
}

/// Of a tree in which no path occurs twice, a listing without filters shows
/// every repository that the walk reaches exactly once.
pub proof fn law_list_shows_each_once(entries: Seq<Entry>, filters: PatternSet, i: int)
    requires
        filters.patterns().len() == 0,
        distinct_paths(entries),
        every_repository().yields(entries, i),
    ensures
        shown(entries, filters, false).no_duplicates(),
        shown(entries, filters, false).contains(entries[i].path@),
{
    law_list_without_filters(entries, filters);
    lemma_yielded_once(every_repository(), entries, entries.len() as int);
    let k = lemma_yielded_holds(every_repository(), entries, entries.len() as int, i);
}

/// A listing changes nothing on disk.
pub proof fn law_list_changes_nothing(
    entries: Seq<Entry>,
    filters: PatternSet,
    invert: bool,
    count_only: bool,
)
    ensures
        is_silent(list_script(entries, filters, invert, count_only).0),
{
    let some = shown(entries, filters, invert);
    lemma_lines_are_silent(some, some.len() as int);
}

/// Lines change nothing.
pub proof fn lemma_lines_are_silent(paths: Seq<Seq<char>>, n: int)
    ensures
        is_silent(lines_upto(paths, n)),
    decreases n,
{
    if n > 0 {
        lemma_lines_are_silent(paths, n - 1);
    }
}

} // verus!

//! The move planner. Sources that the enumerator found are mapped to their
//! destinations, and the whole list of pairs is judged before anything is
//! touched: which pairs are clean, which conflict and why, whether moving
//! needs a staging area, and which old paths nothing will take over.

use crate::path::{
    base_name, chars_base_start, chars_component_count, chars_represent_repo, component_count,
    is_repo, is_under, join_path, represents_repo,
};
use crate::text::{chars_eq, chars_of, concat, slice_of, views};
use crate::walk::{lemma_yielded_comes_from, t_filter_repos, walk_of, Entry, Walk};
use vstd::prelude::*;

verus! {

/// One planned move: the repository at `src` is to lie at `dst`.
#[derive(Debug, Clone, PartialEq, Eq)]
pub struct MovePair {
    pub src: String,
    pub dst: String,
}

/// A pair of paths: source, then destination.
pub type Pair = (Seq<char>, Seq<char>);

impl View for MovePair {
    type V = Pair;

    open spec fn view(&self) -> Pair {
        (self.src@, self.dst@)
    }
}

/// The views of a list of pairs, in order.
pub open spec fn pair_views(v: Seq<MovePair>) -> Seq<Pair> {
    v.map_values(|p: MovePair| p@)
}

/// Where a repository goes that is moved as one: to the destination
/// itself where that names a repository, else into the destination folder
/// under its own name.
pub open spec fn repo_target(source: Seq<char>, dst: Seq<char>) -> Seq<char> {
    if is_repo(dst) {
        dst
    } else {
        join_path(dst, base_name(source))
    }
}

/// Where a repository goes that lies in a moved folder: to the destination
/// itself where that names a repository, else into the destination folder
/// at its path relative to the moved folder.
pub open spec fn nested_target(folder: Seq<char>, repo: Seq<char>, dst: Seq<char>) -> Seq<char> {
    if is_repo(dst) {
        dst
    } else {
        join_path(dst, repo.subrange(folder.len() as int + 1, repo.len() as int))
    }
}

/// The pair alone, or nothing where source and destination are the same.
pub open spec fn unless_same(src: Seq<char>, dst: Seq<char>) -> Seq<Pair> {
    if src == dst {
        Seq::<Pair>::empty()
    } else {
        seq![(src, dst)]
    }
}

/// The moves of the first `n` repositories that lie in a moved folder.
pub open spec fn folder_moves_upto(
    folder: Seq<char>,
    repos: Seq<Seq<char>>,
    dst: Seq<char>,
    n: int,
) -> Seq<Pair>
    decreases n,
{
    if n <= 0 {
        Seq::<Pair>::empty()
    } else {
        folder_moves_upto(folder, repos, dst, n - 1) + unless_same(
            repos[n - 1],
            nested_target(folder, repos[n - 1], dst),
        )
    }
}

/// The repositories that lie in a folder of the listing, at any depth.
pub open spec fn repos_below(entries: Seq<Entry>, folder: Seq<char>) -> Seq<Seq<char>> {
    Walk { root: Some(folder), match_folders: false, filter: None }.yielded(entries)
}

/// The moves that one source stands for: itself where it is a repository,
/// else every repository below it, the shape of the subtree kept.
pub open spec fn source_moves(source: Seq<char>, dst: Seq<char>, entries: Seq<Entry>) -> Seq<Pair> {
    if is_repo(source) {
        unless_same(source, repo_target(source, dst))
    } else {
        let repos = repos_below(entries, source);
        folder_moves_upto(source, repos, dst, repos.len() as int)
    }
}

/// The moves that the first `n` sources stand for.
pub open spec fn expanded_upto(
    sources: Seq<Seq<char>>,
    dst: Seq<char>,
    entries: Seq<Entry>,
    n: int,
) -> Seq<Pair>
    decreases n,
{
    if n <= 0 {
        Seq::<Pair>::empty()
    } else {
        expanded_upto(sources, dst, entries, n - 1) + source_moves(sources[n - 1], dst, entries)
    }
}

/// All the moves that the sources stand for, pairs that would move nothing
/// left out.
pub open spec fn expanded(sources: Seq<Seq<char>>, dst: Seq<char>, entries: Seq<Entry>) -> Seq<
    Pair,
> {
    expanded_upto(sources, dst, entries, sources.len() as int)
}

/// `rest` placed inside `folder`.
pub fn join(folder: &str, rest: &str) -> (r: String)
    ensures
        r@ == join_path(folder@, rest@),
{
    let f = chars_of(folder);
    if f.len() == 0 {
        rest.to_string()
    } else if f[f.len() - 1] == '/' {
        concat(folder, rest)
    } else {
        proof {
            reveal_strlit("/");
            assert("/"@ =~= seq!['/']);
        }
        let with_separator = concat(folder, "/");
        concat(with_separator.as_str(), rest)
    }
}

/// Adds the pair to the list unless it would move nothing.
fn push_unless_same(moves: &mut Vec<MovePair>, src: String, dst: String)
    ensures
        pair_views(final(moves)@) == pair_views(old(moves)@) + unless_same(src@, dst@),
{
    let a = chars_of(src.as_str());
    let b = chars_of(dst.as_str());
    if !chars_eq(&a, &b) {
        let ghost before = pair_views(moves@);
        moves.push(MovePair { src, dst });
        assert(pair_views(moves@) =~= before + seq![(src@, dst@)]);
    } else {
        assert(pair_views(moves@) =~= pair_views(moves@) + Seq::<Pair>::empty());
    }
}

/// Maps every source to its destination: inside `dst` where that is a
/// folder, `dst` itself where it names a repository.
pub fn expand_moves(sources: &Vec<String>, dst: &str, entries: &Vec<Entry>) -> (r: Vec<MovePair>)
    ensures
        pair_views(r@) == expanded(views(sources@), dst@, entries@),
{
    let mut moves: Vec<MovePair> = Vec::new();
    let to_repo: bool = represents_repo(dst);
    let mut n: usize = 0;
    assert(pair_views(moves@) =~= Seq::<Pair>::empty());
    while n < sources.len()
        invariant
            n <= sources.len(),
            to_repo == is_repo(dst@),
            pair_views(moves@) == expanded_upto(views(sources@), dst@, entries@, n as int),
        decreases sources.len() - n,
    {
        let source: &str = sources[n].as_str();
        assert(views(sources@)[n as int] == source@);
        let ghost before = pair_views(moves@);
        let chars = chars_of(source);
        let start: usize = chars_base_start(&chars);
        if chars_represent_repo(&chars) {
            let target: String = if to_repo {
                dst.to_string()
            } else {
                let name = slice_of(source, start, chars.len());
                join(dst, name.as_str())
            };
            push_unless_same(&mut moves, source.to_string(), target);
        } else {
            let repos = t_filter_repos(entries, Some(source), false, None);
            let ghost walk = walk_of(Some(source), false, None);
            assert(walk == Walk { root: Some(source@), match_folders: false, filter: None });
            assert(views(repos@) == repos_below(entries@, source@));
            let mut m: usize = 0;
            assert(pair_views(moves@) =~= before + folder_moves_upto(
                source@,
                views(repos@),
                dst@,
                0,
            ));
            while m < repos.len()
                invariant
                    m <= repos.len(),
                    to_repo == is_repo(dst@),
                    chars@ == source@,
                    views(repos@) == repos_below(entries@, source@),
                    walk == (Walk { root: Some(source@), match_folders: false, filter: None }),
                    pair_views(moves@) == before + folder_moves_upto(
                        source@,
                        views(repos@),
                        dst@,
                        m as int,
                    ),
                decreases repos.len() - m,
            {
                let repo: &str = repos[m].as_str();
                assert(views(repos@)[m as int] == repo@);
                proof {
                    let i = lemma_yielded_comes_from(
                        walk,
                        entries@,
                        entries@.len() as int,
                        m as int,
                    );
                    assert(is_under(repo@, source@));
                }
                let target: String = if to_repo {
                    dst.to_string()
                } else {
                    let repo_chars = chars_of(repo);
                    proof {
                        let long = source@.push('/');
                        assert(repo@.subrange(0, long.len() as int) == long);
                        assert(long.len() == source@.len() + 1);
                        assert(chars.len() + 1 <= repo_chars.len());
                    }
                    let inner = slice_of(repo, chars.len() + 1, repo_chars.len());
                    join(dst, inner.as_str())
                };
                let ghost so_far = pair_views(moves@);
                push_unless_same(&mut moves, repo.to_string(), target);
                assert(pair_views(moves@) =~= before + folder_moves_upto(
                    source@,
                    views(repos@),
                    dst@,
                    m + 1,
                ));
                m += 1;
            }
        }
        n += 1;
    }
    moves
}

/// Why a pair cannot be carried out.
#[derive(Debug, Clone, PartialEq, Eq)]
pub enum ConflictReason {
    /// Something that is not moved lies at the destination.
    Occupied,
    /// The destination has more than 4 components.
    TooDeep,
    /// An earlier pair goes to the same destination; this is its source.
    Overlap(String),
}

/// A pair that cannot be carried out, and why.
#[derive(Debug, Clone, PartialEq, Eq)]
pub struct Conflict {
    pub src: String,
    pub dst: String,
    pub reason: ConflictReason,
}

/// How one pair of a batch is judged.
pub enum Verdict {
    Clean,
    Occupied,
    TooDeep,
    /// Holds the source of the earlier pair with the same destination.
    Overlap(Seq<char>),
}

impl View for ConflictReason {
    type V = Verdict;

    open spec fn view(&self) -> Verdict {
        match self {
            ConflictReason::Occupied => Verdict::Occupied,
            ConflictReason::TooDeep => Verdict::TooDeep,
            ConflictReason::Overlap(earlier) => Verdict::Overlap(earlier@),
        }
    }
}

impl View for Conflict {
    type V = (Pair, Verdict);

    open spec fn view(&self) -> (Pair, Verdict) {
        ((self.src@, self.dst@), self.reason@)
    }
}

/// The views of a list of conflicts, in order.
pub open spec fn conflict_views(v: Seq<Conflict>) -> Seq<(Pair, Verdict)> {
    v.map_values(|c: Conflict| c@)
}

/// Something lies at the path in the visible tree.
pub open spec fn on_disk(entries: Seq<Entry>, path: Seq<char>) -> bool {
    exists|j: int| 0 <= j < entries.len() && (#[trigger] entries[j]).path@ == path
}

/// The path is the source of some pair of the batch.
pub open spec fn is_source(pairs: Seq<Pair>, path: Seq<char>) -> bool {
    exists|k: int| 0 <= k < pairs.len() && (#[trigger] pairs[k]).0 == path
}

/// Pair `j` is the first pair of the batch that goes to `dst`.
pub open spec fn is_first_to(pairs: Seq<Pair>, dst: Seq<char>, j: int) -> bool {
    &&& 0 <= j < pairs.len()
    &&& pairs[j].1 == dst
    &&& forall|i: int| 0 <= i < j ==> (#[trigger] pairs[i]).1 != dst
}

/// The first pair of the batch that goes to `dst`.
pub open spec fn first_to(pairs: Seq<Pair>, dst: Seq<char>) -> int {
    choose|j: int| is_first_to(pairs, dst, j)
}

/// The verdict on pair `k`: occupied where something lies at its
/// destination that the batch does not move away; else too deep where the
/// destination has more than 4 components; else overlapping where an
/// earlier pair goes to the same destination; else clean.
pub open spec fn verdict(pairs: Seq<Pair>, entries: Seq<Entry>, k: int) -> Verdict {
    let dst = pairs[k].1;
    if on_disk(entries, dst) && !is_source(pairs, dst) {
        Verdict::Occupied
    } else if component_count(dst) > 4 {
        Verdict::TooDeep
    } else if first_to(pairs, dst) != k {
        Verdict::Overlap(pairs[first_to(pairs, dst)].0)
    } else {
        Verdict::Clean
    }
}

/// The clean pairs among the first `n`, in order.
pub open spec fn clean_upto(pairs: Seq<Pair>, entries: Seq<Entry>, n: int) -> Seq<Pair>
    decreases n,
{
    if n <= 0 {
        Seq::<Pair>::empty()
    } else if verdict(pairs, entries, n - 1) is Clean {
        clean_upto(pairs, entries, n - 1).push(pairs[n - 1])
    } else {
        clean_upto(pairs, entries, n - 1)
    }
}

/// The conflicts among the first `n` pairs, in order.
pub open spec fn problems_upto(pairs: Seq<Pair>, entries: Seq<Entry>, n: int) -> Seq<
    (Pair, Verdict),
>
    decreases n,
{
    if n <= 0 {
        Seq::<(Pair, Verdict)>::empty()
    } else if verdict(pairs, entries, n - 1) is Clean {
        problems_upto(pairs, entries, n - 1)
    } else {
        problems_upto(pairs, entries, n - 1).push((pairs[n - 1], verdict(pairs, entries, n - 1)))
    }
}

/// Pair `k` goes to where another source of the batch lies now.
pub open spec fn takes_a_source(pairs: Seq<Pair>, entries: Seq<Entry>, k: int) -> bool {
    0 <= k < pairs.len() && on_disk(entries, pairs[k].1) && is_source(pairs, pairs[k].1)
}

/// Moving needs a staging area: some destination is where another source
/// of the batch lies now.
pub open spec fn needs_staging(pairs: Seq<Pair>, entries: Seq<Entry>) -> bool {
    exists|k: int| takes_a_source(pairs, entries, k)
}

/// A clean pair of the batch goes to `path`.
pub open spec fn is_replaced(pairs: Seq<Pair>, entries: Seq<Entry>, path: Seq<char>) -> bool {
    exists|k: int|
        0 <= k < pairs.len() && (#[trigger] verdict(pairs, entries, k)) is Clean && pairs[k].1
            == path
}

/// Pair `k` is the first with its source, and no clean pair goes there.
pub open spec fn leaves_for_good(pairs: Seq<Pair>, entries: Seq<Entry>, k: int) -> bool {
    &&& 0 <= k < pairs.len()
    &&& forall|i: int| 0 <= i < k ==> (#[trigger] pairs[i]).0 != pairs[k].0
    &&& !is_replaced(pairs, entries, pairs[k].0)
}

/// The sources among the first `n` pairs that nothing takes over, each once.
pub open spec fn vacated_upto(pairs: Seq<Pair>, entries: Seq<Entry>, n: int) -> Seq<Seq<char>>
    decreases n,
{
    if n <= 0 {
        Seq::<Seq<char>>::empty()
    } else if leaves_for_good(pairs, entries, n - 1) {
        vacated_upto(pairs, entries, n - 1).push(pairs[n - 1].0)
    } else {
        vacated_upto(pairs, entries, n - 1)
    }
}

/// The judged batch.
#[derive(Debug, Clone, PartialEq, Eq)]
pub struct MovePlan {
    /// The clean pairs, in order.
    pub moves: Vec<MovePair>,
    /// The pairs that conflict, in order, each with its reason.
    pub problems: Vec<Conflict>,
    /// Whether some destination is where another source lies now.
    pub staging_required: bool,
    /// The sources that no clean pair takes over, each once.
    pub not_replaced: Vec<String>,
}

impl MovePlan {
    /// The plan is the judgement of `pairs` against the listing.
    pub open spec fn judges(self, pairs: Seq<Pair>, entries: Seq<Entry>) -> bool {
        &&& pair_views(self.moves@) == clean_upto(pairs, entries, pairs.len() as int)
        &&& conflict_views(self.problems@) == problems_upto(pairs, entries, pairs.len() as int)
        &&& self.staging_required == needs_staging(pairs, entries)
        &&& views(self.not_replaced@) == vacated_upto(pairs, entries, pairs.len() as int)
    }
}

/// The characters of every path of a list.
pub fn chars_of_all(paths: &Vec<String>) -> (r: Vec<Vec<char>>)
    ensures
        r.len() == paths.len(),
        forall|i: int| 0 <= i < r.len() ==> (#[trigger] r@[i])@ == paths@[i]@,
{
    let mut r: Vec<Vec<char>> = Vec::new();
    let mut i: usize = 0;
    while i < paths.len()
        invariant
            i <= paths.len(),
            r.len() == i,
            forall|k: int| 0 <= k < i ==> (#[trigger] r@[k])@ == paths@[k]@,
        decreases paths.len() - i,
    {
        r.push(chars_of(paths[i].as_str()));
        i += 1;
    }
    r
}

/// The characters of every path of a listing.
pub fn chars_of_entries(entries: &Vec<Entry>) -> (r: Vec<Vec<char>>)
    ensures
        r.len() == entries.len(),
        forall|i: int| 0 <= i < r.len() ==> (#[trigger] r@[i])@ == entries@[i].path@,
{
    let mut r: Vec<Vec<char>> = Vec::new();
    let mut i: usize = 0;
    while i < entries.len()
        invariant
            i <= entries.len(),
            r.len() == i,
            forall|k: int| 0 <= k < i ==> (#[trigger] r@[k])@ == entries@[k].path@,
        decreases entries.len() - i,
    {
        r.push(chars_of(entries[i].path.as_str()));
        i += 1;
    }
    r
}

/// The first position before `limit` at which the list holds `item`, or
/// `limit` where it holds it nowhere before.
pub fn index_of(list: &Vec<Vec<char>>, item: &Vec<char>, limit: usize) -> (r: usize)
    requires
        limit <= list.len(),
    ensures
        r <= limit,
        r < limit ==> list@[r as int]@ == item@,
        forall|i: int| 0 <= i < r ==> (#[trigger] list@[i])@ != item@,
{
    let mut i: usize = 0;
    while i < limit
        invariant
            i <= limit <= list.len(),
            forall|k: int| 0 <= k < i ==> (#[trigger] list@[k])@ != item@,
        decreases limit - i,
    {
        if chars_eq(&list[i], item) {
            return i;
        }
        i += 1;
    }
    limit
}

/// Only one pair is the first that goes to `dst`.
pub proof fn lemma_first_to(pairs: Seq<Pair>, dst: Seq<char>, j: int)
    requires
        is_first_to(pairs, dst, j),
    ensures
        first_to(pairs, dst) == j,
{
    let f = first_to(pairs, dst);
    assert(is_first_to(pairs, dst, f));
    if f < j {
        assert(pairs[f].1 != dst);
    } else if j < f {
        assert(pairs[j].1 != dst);
    }
}

/// The two halves of a batch, as characters.
struct Sides {
    srcs: Vec<Vec<char>>,
    dsts: Vec<Vec<char>>,
}

/// Splits a batch into the characters of its sources and destinations.
fn sides_of(pairs: &Vec<MovePair>) -> (r: Sides)
    ensures
        r.srcs.len() == pairs.len(),
        r.dsts.len() == pairs.len(),
        forall|i: int| 0 <= i < pairs.len() ==> (#[trigger] r.srcs@[i])@ == pairs@[i].src@,
        forall|i: int| 0 <= i < pairs.len() ==> (#[trigger] r.dsts@[i])@ == pairs@[i].dst@,
{
    let mut srcs: Vec<Vec<char>> = Vec::new();
    let mut dsts: Vec<Vec<char>> = Vec::new();
    let mut i: usize = 0;
    while i < pairs.len()
        invariant
            i <= pairs.len(),
            srcs.len() == i,
            dsts.len() == i,
            forall|k: int| 0 <= k < i ==> (#[trigger] srcs@[k])@ == pairs@[k].src@,
            forall|k: int| 0 <= k < i ==> (#[trigger] dsts@[k])@ == pairs@[k].dst@,
        decreases pairs.len() - i,
    {
        srcs.push(chars_of(pairs[i].src.as_str()));
        dsts.push(chars_of(pairs[i].dst.as_str()));
        i += 1;
    }
    Sides { srcs, dsts }
}

/// Judges a batch of pairs against the listing of the visible tree. Nothing
/// is touched; the plan says what could be done and what stands in the way.
pub fn validate_moves(pairs: &Vec<MovePair>, entries: &Vec<Entry>) -> (plan: MovePlan)
    ensures
        plan.judges(pair_views(pairs@), entries@),
{
    let ghost ps = pair_views(pairs@);
    let ghost es = entries@;
    let n: usize = pairs.len();
    let sides = sides_of(pairs);
    let listed = chars_of_entries(entries);
    let mut moves: Vec<MovePair> = Vec::new();
    let mut problems: Vec<Conflict> = Vec::new();
    let mut clean: Vec<bool> = Vec::new();
    let mut staging: bool = false;
    let mut k: usize = 0;
    assert(pair_views(moves@) =~= clean_upto(ps, es, 0));
    assert(conflict_views(problems@) =~= problems_upto(ps, es, 0));
    while k < n
        invariant
            k <= n,
            n == pairs.len(),
            ps == pair_views(pairs@),
            es == entries@,
            sides.srcs.len() == n,
            sides.dsts.len() == n,
            listed.len() == entries.len(),
            forall|i: int| 0 <= i < n ==> (#[trigger] sides.srcs@[i])@ == pairs@[i].src@,
            forall|i: int| 0 <= i < n ==> (#[trigger] sides.dsts@[i])@ == pairs@[i].dst@,
            forall|i: int| 0 <= i < listed.len() ==> (#[trigger] listed@[i])@ == entries@[i].path@,
            clean.len() == k,
            forall|i: int| 0 <= i < k ==> (#[trigger] clean@[i]) == (verdict(ps, es, i) is Clean),
            pair_views(moves@) == clean_upto(ps, es, k as int),
            conflict_views(problems@) == problems_upto(ps, es, k as int),
            staging == (exists|i: int| 0 <= i < k && takes_a_source(ps, es, i)),
        decreases n - k,
    {
        let dst: &Vec<char> = &sides.dsts[k];
        let ghost d = ps[k as int].1;
        assert(d == dst@);
        let at: usize = index_of(&listed, dst, listed.len());
        let exists: bool = at < listed.len();
        let from: usize = index_of(&sides.srcs, dst, n);
        let moved_away: bool = from < n;
        let first: usize = index_of(&sides.dsts, dst, k + 1);
        proof {
            if exists {
                assert(es[at as int].path@ == d);
            } else {
                assert forall|j: int| 0 <= j < es.len() implies (#[trigger] es[j]).path@ != d by {
                    assert(listed@[j]@ == es[j].path@);
                }
            }
            if moved_away {
                assert(ps[from as int].0 == d);
            } else {
                assert forall|j: int| 0 <= j < ps.len() implies (#[trigger] ps[j]).0 != d by {
                    assert(sides.srcs@[j]@ == ps[j].0);
                }
            }
            assert(first <= k);
            assert(is_first_to(ps, d, first as int)) by {
                assert forall|i: int| 0 <= i < first implies (#[trigger] ps[i]).1 != d by {
                    assert(sides.dsts@[i]@ == ps[i].1);
                }
                assert(sides.dsts@[first as int]@ == ps[first as int].1);
            }
            lemma_first_to(ps, d, first as int);
            assert(exists == on_disk(es, d));
            assert(moved_away == is_source(ps, d));
        }
        let ghost staged_before = staging;
        if exists && moved_away {
            staging = true;
        }
        assert(staging == (exists|i: int| 0 <= i < k + 1 && takes_a_source(ps, es, i))) by {
            if exists && moved_away {
                assert(takes_a_source(ps, es, k as int));
            } else if staged_before {
                let i = choose|i: int| 0 <= i < k && takes_a_source(ps, es, i);
                assert(0 <= i < k + 1 && takes_a_source(ps, es, i));
            } else {
                assert forall|i: int| 0 <= i < k + 1 implies !takes_a_source(ps, es, i) by {
                    if i < k {
                    }
                }
            }
        }
        let ghost moves_before = pair_views(moves@);
        let ghost problems_before = conflict_views(problems@);
        let reason: Option<ConflictReason> = if exists && !moved_away {
            Some(ConflictReason::Occupied)
        } else if chars_component_count(dst) > 4 {
            Some(ConflictReason::TooDeep)
        } else if first < k {
            Some(ConflictReason::Overlap(pairs[first].src.clone()))
        } else {
            None
        };
        match reason {
            Some(why) => {
                assert(why@ == verdict(ps, es, k as int));
                problems.push(
                    Conflict { src: pairs[k].src.clone(), dst: pairs[k].dst.clone(), reason: why },
                );
                clean.push(false);
                assert(conflict_views(problems@) =~= problems_before.push(
                    (ps[k as int], verdict(ps, es, k as int)),
                ));
            },
            None => {
                assert(verdict(ps, es, k as int) is Clean);
                moves.push(MovePair { src: pairs[k].src.clone(), dst: pairs[k].dst.clone() });
                clean.push(true);
                assert(pair_views(moves@) =~= moves_before.push(ps[k as int]));
            },
        }
        k += 1;
    }
    let mut not_replaced: Vec<String> = Vec::new();
    let mut k: usize = 0;
    assert(views(not_replaced@) =~= vacated_upto(ps, es, 0));
    while k < n
        invariant
            k <= n,
            n == pairs.len(),
            ps == pair_views(pairs@),
            es == entries@,
            sides.srcs.len() == n,
            sides.dsts.len() == n,
            clean.len() == n,
            forall|i: int| 0 <= i < n ==> (#[trigger] sides.srcs@[i])@ == pairs@[i].src@,
            forall|i: int| 0 <= i < n ==> (#[trigger] sides.dsts@[i])@ == pairs@[i].dst@,
            forall|i: int| 0 <= i < n ==> (#[trigger] clean@[i]) == (verdict(ps, es, i) is Clean),
            views(not_replaced@) == vacated_upto(ps, es, k as int),
        decreases n - k,
    {
        let src: &Vec<char> = &sides.srcs[k];
        let ghost s = ps[k as int].0;
        assert(s == src@);
        let first: usize = index_of(&sides.srcs, src, k);
        let mut replaced: bool = false;
        let mut j: usize = 0;
        while j < n && !replaced
            invariant
                j <= n,
                n == pairs.len(),
                ps == pair_views(pairs@),
                sides.dsts.len() == n,
                clean.len() == n,
                s == src@,
                forall|i: int| 0 <= i < n ==> (#[trigger] sides.dsts@[i])@ == pairs@[i].dst@,
                forall|i: int|
                    0 <= i < n ==> (#[trigger] clean@[i]) == (verdict(ps, es, i) is Clean),
                replaced ==> is_replaced(ps, es, s),
                !replaced ==> forall|i: int|
                    0 <= i < j ==> !((#[trigger] verdict(ps, es, i)) is Clean && ps[i].1 == s),
            decreases n - j, if replaced { 0int } else { 1int },
        {
            if clean[j] && chars_eq(&sides.dsts[j], src) {
                assert(verdict(ps, es, j as int) is Clean && ps[j as int].1 == s);
                replaced = true;
            } else {
                assert(clean@[j as int] == (verdict(ps, es, j as int) is Clean));
                assert(sides.dsts@[j as int]@ == ps[j as int].1);
                j += 1;
            }
        }
        let ghost before = views(not_replaced@);
        proof {
            assert((first == k) == (forall|i: int| 0 <= i < k ==> (#[trigger] ps[i]).0 != s)) by {
                if first == k {
                    assert forall|i: int| 0 <= i < k implies (#[trigger] ps[i]).0 != s by {
                        assert(sides.srcs@[i]@ == ps[i].0);
                    }
                } else {
                    assert(sides.srcs@[first as int]@ == ps[first as int].0);
                }
            }
        }
        if first == k && !replaced {
            assert(leaves_for_good(ps, es, k as int));
            not_replaced.push(pairs[k].src.clone());
            assert(views(not_replaced@) =~= before.push(s));
        } else {
            assert(!leaves_for_good(ps, es, k as int));
        }
        k += 1;
    }
    proof {
        assert(staging == needs_staging(ps, es)) by {
            if needs_staging(ps, es) {
                let i = choose|i: int| takes_a_source(ps, es, i);
                assert(0 <= i < n && takes_a_source(ps, es, i));
            }
        }
    }
    MovePlan { moves, problems, staging_required: staging, not_replaced }
}

/// Two sources that go to the same free destination make the later pair an
/// overlap conflict that names the earlier one.
pub proof fn law_same_destination_overlaps(pairs: Seq<Pair>, entries: Seq<Entry>, i: int, k: int)
    requires
        0 <= i < k < pairs.len(),
        pairs[i].1 == pairs[k].1,
        verdict_is_free(pairs, entries, k),
    ensures
        verdict(pairs, entries, k) is Overlap,
        exists|j: int|
            0 <= j < k && pairs[j].1 == pairs[k].1 && verdict(pairs, entries, k)
                == Verdict::Overlap(pairs[j].0),
{
    let dst = pairs[k].1;
    let f = first_to(pairs, dst);
    lemma_some_pair_is_first(pairs, dst, k);
    assert(is_first_to(pairs, dst, f));
    if f >= k {
        assert(pairs[i].1 != dst);
    }
    assert(0 <= f < k && pairs[f].1 == pairs[k].1);
}

/// Nothing unmoved lies at the destination of pair `k`, and it is not too
/// deep.
pub open spec fn verdict_is_free(pairs: Seq<Pair>, entries: Seq<Entry>, k: int) -> bool {
    !(on_disk(entries, pairs[k].1) && !is_source(pairs, pairs[k].1))
        && component_count(pairs[k].1) <= 4
}

/// Where some pair before or at `k` goes to `dst`, one pair is the first
/// that does.
pub proof fn lemma_some_pair_is_first(pairs: Seq<Pair>, dst: Seq<char>, k: int)
    requires
        0 <= k < pairs.len(),
        pairs[k].1 == dst,
    ensures
        is_first_to(pairs, dst, first_to(pairs, dst)),
    decreases k,
{
    if forall|i: int| 0 <= i < k ==> (#[trigger] pairs[i]).1 != dst {
        assert(is_first_to(pairs, dst, k));
    } else {
        let i = choose|i: int| 0 <= i < k && (#[trigger] pairs[i]).1 == dst;
        lemma_some_pair_is_first(pairs, dst, i);
    }
}

/// To a destination that names a repository every pair of a moved folder
/// goes.
pub proof fn lemma_folder_moves_to_repo(
    folder: Seq<char>,
    repos: Seq<Seq<char>>,
    dst: Seq<char>,
    n: int,
)
    requires
        is_repo(dst),
    ensures
        forall|k: int|
            0 <= k < folder_moves_upto(folder, repos, dst, n).len() ==> (
            #[trigger] folder_moves_upto(folder, repos, dst, n)[k]).1 == dst,
    decreases n,
{
    if n > 0 {
        lemma_folder_moves_to_repo(folder, repos, dst, n - 1);
        let before = folder_moves_upto(folder, repos, dst, n - 1);
        let all = folder_moves_upto(folder, repos, dst, n);
        let new = unless_same(repos[n - 1], nested_target(folder, repos[n - 1], dst));
        assert(all == before + new);
        assert forall|k: int| 0 <= k < all.len() implies (#[trigger] all[k]).1 == dst by {
            if k < before.len() {
                assert(all[k] == before[k]);
            } else {
                assert(all[k] == new[k - before.len()]);
            }
        }
    }
}

/// To a destination that names a repository every pair of a batch goes.
pub proof fn lemma_expanded_to_repo(
    sources: Seq<Seq<char>>,
    dst: Seq<char>,
    entries: Seq<Entry>,
    n: int,
)
    requires
        is_repo(dst),
    ensures
        forall|k: int|
            0 <= k < expanded_upto(sources, dst, entries, n).len() ==> (
            #[trigger] expanded_upto(sources, dst, entries, n)[k]).1 == dst,
    decreases n,
{
    if n > 0 {
        lemma_expanded_to_repo(sources, dst, entries, n - 1);
        let source = sources[n - 1];
        let repos = repos_below(entries, source);
        lemma_folder_moves_to_repo(source, repos, dst, repos.len() as int);
        let before = expanded_upto(sources, dst, entries, n - 1);
        let all = expanded_upto(sources, dst, entries, n);
        let new = source_moves(source, dst, entries);
        assert(all == before + new);
        assert forall|k: int| 0 <= k < all.len() implies (#[trigger] all[k]).1 == dst by {
            if k < before.len() {
                assert(all[k] == before[k]);
            } else {
                assert(all[k] == new[k - before.len()]);
            }
        }
    }
}

/// Several repositories moved to one destination that names a repository
/// all map to it: with the destination free, the first pair is clean, and
/// every later pair is an overlap conflict that names the first mapping.
pub proof fn law_repository_destination_overlaps(
    sources: Seq<Seq<char>>,
    dst: Seq<char>,
    entries: Seq<Entry>,
    k: int,
)
    requires
        is_repo(dst),
        0 <= k < expanded(sources, dst, entries).len(),
        verdict_is_free(expanded(sources, dst, entries), entries, k),
    ensures
        expanded(sources, dst, entries)[k].1 == dst,
        k == 0 ==> verdict(expanded(sources, dst, entries), entries, k) is Clean,
        k > 0 ==> verdict(expanded(sources, dst, entries), entries, k) == Verdict::Overlap(
            expanded(sources, dst, entries)[0].0,
        ),
{
    let ps = expanded(sources, dst, entries);
    lemma_expanded_to_repo(sources, dst, entries, sources.len() as int);
    assert(ps[0].1 == dst);
    assert(ps[k].1 == dst);
    assert(is_first_to(ps, dst, 0));
    lemma_first_to(ps, dst, 0);
}

} // verus!

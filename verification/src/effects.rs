//! What moving does to the trees. A batch that was judged clean is carried
//! out to the end: every rename finds its repository and a free place,
//! every repository arrives with what it held, the sources that nothing
//! took over are gone, and the staging area is empty again.

use crate::plan::{
    first_to, is_first_to, is_replaced, is_source, leaves_for_good, lemma_first_to,
    lemma_some_pair_is_first, needs_staging, on_disk, takes_a_source, vacated_upto, verdict, Pair,
};
use crate::relocate::{
    execution, is_link, pair_steps, phase_all, phase_upto, prunes_upto, unlinks_upto, Phase,
    StepView,
};
use crate::script::{counted, Action, Place, Step};
use crate::state::{is_free, lemma_run_both, with_dir, State};
use crate::walk::Entry;
use vstd::prelude::*;

verus! {

/// Some pair of the batch goes to the path.
pub open spec fn is_dest(ps: Seq<Pair>, path: Seq<char>) -> bool {
    exists|k: int| 0 <= k < ps.len() && (#[trigger] ps[k]).1 == path
}

/// One of the first `n` pairs goes to the path.
pub open spec fn is_dest_before(ps: Seq<Pair>, n: int, path: Seq<char>) -> bool {
    exists|k: int| 0 <= k < n && k < ps.len() && (#[trigger] ps[k]).1 == path
}

/// One of the first `n` pairs comes from the path.
pub open spec fn is_source_before(ps: Seq<Pair>, n: int, path: Seq<char>) -> bool {
    exists|k: int| 0 <= k < n && k < ps.len() && (#[trigger] ps[k]).0 == path
}

/// The source of the pair that goes to the path.
pub open spec fn source_for(ps: Seq<Pair>, path: Seq<char>) -> Seq<char> {
    ps[first_to(ps, path)].0
}

/// A batch that can be carried out in a state: every pair is clean, no
/// repository is moved twice, every source is a repository of the visible
/// tree, and the listing says truly what lies at every destination.
pub open spec fn is_sound_batch(s: State, ps: Seq<Pair>, es: Seq<Entry>) -> bool {
    &&& forall|k: int| 0 <= k < ps.len() ==> (#[trigger] verdict(ps, es, k)) is Clean
    &&& forall|i: int, j: int|
        0 <= i < j < ps.len() ==> (#[trigger] ps[i]).0 != (#[trigger] ps[j]).0
    &&& forall|k: int| 0 <= k < ps.len() ==> s.links.contains((#[trigger] ps[k]).0)
    &&& forall|k: int|
        0 <= k < ps.len() ==> on_disk(es, (#[trigger] ps[k]).1) == s.links.contains(ps[k].1)
    &&& forall|k: int|
        0 <= k < ps.len() ==> is_link(es, (#[trigger] ps[k]).1) == s.links.contains(ps[k].1)
}

/// The state after a batch was moved: every destination holds what its
/// source held, the sources that are no destination are gone from both
/// trees, everything else is as it was, and the staging area is empty.
pub open spec fn moved(s: State, ps: Seq<Pair>) -> State {
    State {
        links: Set::new(
            |p: Seq<char>| (s.links.contains(p) && !is_source(ps, p)) || is_dest(ps, p),
        ),
        physical: Map::new(
            |p: Seq<char>| (s.physical.dom().contains(p) && !is_source(ps, p)) || is_dest(ps, p),
            |p: Seq<char>|
                if is_dest(ps, p) {
                    s.physical[source_for(ps, p)]
                } else {
                    s.physical[p]
                },
        ),
        staged: Map::<Seq<char>, nat>::empty(),
    }
}

/// In a clean batch no two pairs go to the same destination.
pub proof fn lemma_clean_is_injective(ps: Seq<Pair>, es: Seq<Entry>, i: int, j: int)
    requires
        0 <= i < j < ps.len(),
        verdict(ps, es, j) is Clean,
    ensures
        ps[i].1 != ps[j].1,
{
    lemma_some_pair_is_first(ps, ps[j].1, j);
    let f = first_to(ps, ps[j].1);
    assert(is_first_to(ps, ps[j].1, f));
    assert(f == j);
}

/// One step alone.
pub proof fn lemma_run_one(s: State, x: StepView)
    ensures
        s.run(seq![x]) == s.step(x),
{
    let steps = seq![x];
    assert(s.run_upto(steps, 0) == Some(s));
    assert(steps[0] == x);
}

/// Two steps in a row.
pub proof fn lemma_run_two(s: State, x: StepView, y: StepView)
    ensures
        s.run(seq![x, y]) == (match s.step(x) {
            Some(t) => t.step(y),
            None => None,
        }),
{
    let steps = seq![x, y];
    assert(s.run_upto(steps, 0) == Some(s));
    assert(steps[0] == x);
    assert(steps[1] == y);
    assert(s.run_upto(steps, 1) == s.step(x));
}

/// The physical tree once the first `n` destinations were prepared.
pub open spec fn prepared(s: State, ps: Seq<Pair>, n: int) -> Map<Seq<char>, nat> {
    Map::new(
        |p: Seq<char>| s.physical.dom().contains(p) || is_dest_before(ps, n, p),
        |p: Seq<char>|
            if s.physical.dom().contains(p) {
                s.physical[p]
            } else {
                0nat
            },
    )
}

/// Preparing creates an empty directory at every destination that has
/// none, and nothing else.
pub proof fn lemma_prepare(s: State, ps: Seq<Pair>, staged: bool, es: Seq<Entry>, n: int)
    requires
        0 <= n <= ps.len(),
    ensures
        s.run(phase_upto(Phase::Prepare, ps, staged, es, n)) == Some(
            State { physical: prepared(s, ps, n), ..s },
        ),
    decreases n,
{
    if n <= 0 {
        assert(prepared(s, ps, 0) =~= s.physical);
        assert(s.run_upto(Seq::<StepView>::empty(), 0) == Some(s));
    } else {
        lemma_prepare(s, ps, staged, es, n - 1);
        let before = State { physical: prepared(s, ps, n - 1), ..s };
        let d = ps[n - 1].1;
        let one = pair_steps(Phase::Prepare, ps[n - 1], staged, is_link(es, d));
        lemma_run_both(s, before, phase_upto(Phase::Prepare, ps, staged, es, n - 1), one);
        lemma_run_one(before, one[0]);
        assert(one =~= seq![one[0]]);
        assert(with_dir(prepared(s, ps, n - 1), d) =~= prepared(s, ps, n)) by {
            assert forall|p: Seq<char>| is_dest_before(ps, n, p) == (is_dest_before(ps, n - 1, p)
                || p == d) by {
                if is_dest_before(ps, n, p) {
                    let k = choose|k: int| 0 <= k < n && k < ps.len() && (#[trigger] ps[k]).1 == p;
                    if k < n - 1 {
                        assert(is_dest_before(ps, n - 1, p));
                    }
                }
                if is_dest_before(ps, n - 1, p) {
                    let k = choose|k: int|
                        0 <= k < n - 1 && k < ps.len() && (#[trigger] ps[k]).1 == p;
                    assert(0 <= k < n && ps[k].1 == p);
                }
                if p == d {
                    assert(ps[n - 1].1 == p);
                }
            }
        }
    }
}

/// Creating the visible folders changes nothing that the state holds.
pub proof fn lemma_parents(s: State, ps: Seq<Pair>, staged: bool, es: Seq<Entry>, n: int)
    requires
        0 <= n <= ps.len(),
    ensures
        s.run(phase_upto(Phase::Parents, ps, staged, es, n)) == Some(s),
    decreases n,
{
    if n <= 0 {
        assert(s.run_upto(Seq::<StepView>::empty(), 0) == Some(s));
    } else {
        lemma_parents(s, ps, staged, es, n - 1);
        let one = pair_steps(Phase::Parents, ps[n - 1], staged, is_link(es, ps[n - 1].1));
        lemma_run_both(s, s, phase_upto(Phase::Parents, ps, staged, es, n - 1), one);
        lemma_run_one(s, one[0]);
        assert(one =~= seq![one[0]]);
    }
}

/// One more pair: a path is a destination among the first `n` pairs if it
/// was one among the first `n - 1`, or is that of pair `n - 1`.
pub proof fn lemma_dest_step(ps: Seq<Pair>, n: int, p: Seq<char>)
    requires
        0 < n <= ps.len(),
    ensures
        is_dest_before(ps, n, p) == (is_dest_before(ps, n - 1, p) || p == ps[n - 1].1),
{
    if is_dest_before(ps, n, p) {
        let k = choose|k: int| 0 <= k < n && k < ps.len() && (#[trigger] ps[k]).1 == p;
        if k < n - 1 {
            assert(is_dest_before(ps, n - 1, p));
        }
    }
    if is_dest_before(ps, n - 1, p) {
        let k = choose|k: int| 0 <= k < n - 1 && k < ps.len() && (#[trigger] ps[k]).1 == p;
        assert(0 <= k < n && ps[k].1 == p);
    }
    if p == ps[n - 1].1 {
        assert(ps[n - 1].1 == p);
    }
}

/// One more pair, for sources.
pub proof fn lemma_source_step(ps: Seq<Pair>, n: int, p: Seq<char>)
    requires
        0 < n <= ps.len(),
    ensures
        is_source_before(ps, n, p) == (is_source_before(ps, n - 1, p) || p == ps[n - 1].0),
{
    if is_source_before(ps, n, p) {
        let k = choose|k: int| 0 <= k < n && k < ps.len() && (#[trigger] ps[k]).0 == p;
        if k < n - 1 {
            assert(is_source_before(ps, n - 1, p));
        }
    }
    if is_source_before(ps, n - 1, p) {
        let k = choose|k: int| 0 <= k < n - 1 && k < ps.len() && (#[trigger] ps[k]).0 == p;
        assert(0 <= k < n && ps[k].0 == p);
    }
    if p == ps[n - 1].0 {
        assert(ps[n - 1].0 == p);
    }
}

/// All pairs are the first `len` pairs.
pub proof fn lemma_before_all(ps: Seq<Pair>, p: Seq<char>)
    ensures
        is_dest_before(ps, ps.len() as int, p) == is_dest(ps, p),
        is_source_before(ps, ps.len() as int, p) == is_source(ps, p),
        !is_dest_before(ps, 0, p),
        !is_source_before(ps, 0, p),
{
    if is_dest(ps, p) {
        let k = choose|k: int| 0 <= k < ps.len() && (#[trigger] ps[k]).1 == p;
        assert(0 <= k < ps.len() && k < ps.len() && ps[k].1 == p);
    }
    if is_source(ps, p) {
        let k = choose|k: int| 0 <= k < ps.len() && (#[trigger] ps[k]).0 == p;
        assert(0 <= k < ps.len() && k < ps.len() && ps[k].0 == p);
    }
}

/// No two pairs of the batch come from the same source.
pub open spec fn distinct_sources(ps: Seq<Pair>) -> bool {
    forall|i: int, j: int| 0 <= i < j < ps.len() ==> (#[trigger] ps[i]).0 != (#[trigger] ps[j]).0
}

/// No two pairs of the batch go to the same destination.
pub open spec fn distinct_dests(ps: Seq<Pair>) -> bool {
    forall|i: int, j: int| 0 <= i < j < ps.len() ==> (#[trigger] ps[i]).1 != (#[trigger] ps[j]).1
}

/// Every source of the batch is in the map.
pub open spec fn holds_sources(dirs: Map<Seq<char>, nat>, ps: Seq<Pair>) -> bool {
    forall|k: int| 0 <= k < ps.len() ==> dirs.dom().contains((#[trigger] ps[k]).0)
}

/// Every destination that is no source of the batch is free in the map.
pub open spec fn frees_dests(dirs: Map<Seq<char>, nat>, ps: Seq<Pair>) -> bool {
    forall|k: int|
        0 <= k < ps.len() && !is_source(ps, (#[trigger] ps[k]).1) ==> is_free(dirs, ps[k].1)
}

/// With distinct sources, pair `k` is not among the sources before it.
pub proof fn lemma_not_source_before(ps: Seq<Pair>, k: int)
    requires
        0 <= k < ps.len(),
        distinct_sources(ps),
    ensures
        !is_source_before(ps, k, ps[k].0),
{
    if is_source_before(ps, k, ps[k].0) {
        let i = choose|i: int| 0 <= i < k && i < ps.len() && (#[trigger] ps[i]).0 == ps[k].0;
        assert(ps[i].0 != ps[k].0);
    }
}

/// With distinct destinations, pair `k` is not among the destinations
/// before it, and it is the first pair that goes to its destination.
pub proof fn lemma_not_dest_before(ps: Seq<Pair>, k: int)
    requires
        0 <= k < ps.len(),
        distinct_dests(ps),
    ensures
        !is_dest_before(ps, k, ps[k].1),
        source_for(ps, ps[k].1) == ps[k].0,
{
    if is_dest_before(ps, k, ps[k].1) {
        let i = choose|i: int| 0 <= i < k && i < ps.len() && (#[trigger] ps[i]).1 == ps[k].1;
        assert(ps[i].1 != ps[k].1);
    }
    assert(is_first_to(ps, ps[k].1, k)) by {
        assert forall|i: int| 0 <= i < k implies (#[trigger] ps[i]).1 != ps[k].1 by {
            assert(ps[i].1 != ps[k].1);
        }
    }
    lemma_first_to(ps, ps[k].1, k);
}

/// The staging area with an empty directory for each of the first `n`
/// sources.
pub open spec fn parked_empty(ps: Seq<Pair>, n: int) -> Map<Seq<char>, nat> {
    Map::new(|p: Seq<char>| is_source_before(ps, n, p), |p: Seq<char>| 0nat)
}

/// Making room in the staging area creates an empty directory there for
/// every source, and changes nothing else.
pub proof fn lemma_stage_dirs(t: State, ps: Seq<Pair>, staged: bool, es: Seq<Entry>, n: int)
    requires
        0 <= n <= ps.len(),
        t.staged == Map::<Seq<char>, nat>::empty(),
        holds_sources(t.physical, ps),
    ensures
        t.run(phase_upto(Phase::StageDirs, ps, staged, es, n)) == Some(
            State { staged: parked_empty(ps, n), ..t },
        ),
    decreases n,
{
    if n <= 0 {
        assert(parked_empty(ps, 0) =~= t.staged) by {
            assert forall|p: Seq<char>| !is_source_before(ps, 0, p) by {
                lemma_before_all(ps, p);
            }
        }
        assert(t.run_upto(Seq::<StepView>::empty(), 0) == Some(t));
    } else {
        lemma_stage_dirs(t, ps, staged, es, n - 1);
        let before = State { staged: parked_empty(ps, n - 1), ..t };
        let src = ps[n - 1].0;
        let two = pair_steps(Phase::StageDirs, ps[n - 1], staged, is_link(es, ps[n - 1].1));
        lemma_run_both(t, before, phase_upto(Phase::StageDirs, ps, staged, es, n - 1), two);
        lemma_run_two(before, two[0], two[1]);
        assert(two =~= seq![two[0], two[1]]);
        assert(t.physical.dom().contains(ps[n - 1].0));
        assert(with_dir(parked_empty(ps, n - 1), src) =~= parked_empty(ps, n)) by {
            assert forall|p: Seq<char>| is_source_before(ps, n, p) == (is_source_before(
                ps,
                n - 1,
                p,
            ) || p == src) by {
                lemma_source_step(ps, n, p);
            }
        }
    }
}

/// The physical tree without the first `n` sources.
pub open spec fn lifted(base: Map<Seq<char>, nat>, ps: Seq<Pair>, n: int) -> Map<Seq<char>, nat> {
    Map::new(
        |p: Seq<char>| base.dom().contains(p) && !is_source_before(ps, n, p),
        |p: Seq<char>| base[p],
    )
}

/// The staging area once the first `n` sources were parked in it.
pub open spec fn parked(base: Map<Seq<char>, nat>, ps: Seq<Pair>, n: int) -> Map<Seq<char>, nat> {
    Map::new(
        |p: Seq<char>| is_source(ps, p),
        |p: Seq<char>|
            if is_source_before(ps, n, p) {
                base[p]
            } else {
                0nat
            },
    )
}

/// Parking moves every source into the staging area with what it holds.
pub proof fn lemma_stage_moves(t: State, ps: Seq<Pair>, staged: bool, es: Seq<Entry>, n: int)
    requires
        0 <= n <= ps.len(),
        t.staged == parked_empty(ps, ps.len() as int),
        holds_sources(t.physical, ps),
        distinct_sources(ps),
    ensures
        t.run(phase_upto(Phase::StageMoves, ps, staged, es, n)) == Some(
            State {
                physical: lifted(t.physical, ps, n),
                staged: parked(t.physical, ps, n),
                ..t
            },
        ),
    decreases n,
{
    if n <= 0 {
        assert forall|p: Seq<char>| !is_source_before(ps, 0, p) && is_source_before(
            ps,
            ps.len() as int,
            p,
        ) == is_source(ps, p) by {
            lemma_before_all(ps, p);
        }
        assert(lifted(t.physical, ps, 0) =~= t.physical);
        assert(parked(t.physical, ps, 0) =~= t.staged);
        assert(t.run_upto(Seq::<StepView>::empty(), 0) == Some(t));
    } else {
        lemma_stage_moves(t, ps, staged, es, n - 1);
        let before = State {
            physical: lifted(t.physical, ps, n - 1),
            staged: parked(t.physical, ps, n - 1),
            ..t
        };
        let src = ps[n - 1].0;
        let one = pair_steps(Phase::StageMoves, ps[n - 1], staged, is_link(es, ps[n - 1].1));
        lemma_run_both(t, before, phase_upto(Phase::StageMoves, ps, staged, es, n - 1), one);
        lemma_run_one(before, one[0]);
        assert(one =~= seq![one[0]]);
        lemma_not_source_before(ps, n - 1);
        assert(t.physical.dom().contains(ps[n - 1].0));
        assert(is_source(ps, src));
        assert forall|p: Seq<char>| is_source_before(ps, n, p) == (is_source_before(ps, n - 1, p)
            || p == src) by {
            lemma_source_step(ps, n, p);
        }
        assert(before.physical.dom().contains(src));
        assert(is_free(before.staged, src));
        assert(before.physical.remove(src) =~= lifted(t.physical, ps, n));
        assert(before.staged.insert(src, before.physical[src]) =~= parked(t.physical, ps, n));
    }
}

/// The physical tree once the first `n` pairs have arrived, the sources
/// parked in the staging area before.
pub open spec fn landed_from_staging(base: Map<Seq<char>, nat>, ps: Seq<Pair>, n: int) -> Map<
    Seq<char>,
    nat,
> {
    Map::new(
        |p: Seq<char>| (base.dom().contains(p) && !is_source(ps, p)) || is_dest_before(ps, n, p),
        |p: Seq<char>|
            if is_dest_before(ps, n, p) {
                base[source_for(ps, p)]
            } else {
                base[p]
            },
    )
}

/// The staging area once the first `n` pairs have left it.
pub open spec fn still_parked(base: Map<Seq<char>, nat>, ps: Seq<Pair>, n: int) -> Map<
    Seq<char>,
    nat,
> {
    Map::new(
        |p: Seq<char>| is_source(ps, p) && !is_source_before(ps, n, p),
        |p: Seq<char>| base[p],
    )
}

/// One pair leaves the staging area: it is there, its destination is free,
/// and the maps afterwards are those of one pair more.
pub proof fn lemma_commit_staged_step(base: Map<Seq<char>, nat>, ps: Seq<Pair>, n: int)
    requires
        0 < n <= ps.len(),
        holds_sources(base, ps),
        frees_dests(base, ps),
        distinct_sources(ps),
        distinct_dests(ps),
    ensures
        still_parked(base, ps, n - 1).dom().contains(ps[n - 1].0),
        is_free(landed_from_staging(base, ps, n - 1), ps[n - 1].1),
        landed_from_staging(base, ps, n - 1).insert(
            ps[n - 1].1,
            still_parked(base, ps, n - 1)[ps[n - 1].0],
        ) == landed_from_staging(base, ps, n),
        still_parked(base, ps, n - 1).remove(ps[n - 1].0) == still_parked(base, ps, n),
{
    let src = ps[n - 1].0;
    let dst = ps[n - 1].1;
    lemma_not_source_before(ps, n - 1);
    lemma_not_dest_before(ps, n - 1);
    assert(is_source(ps, src));
    assert(base.dom().contains(ps[n - 1].0));
    assert forall|p: Seq<char>| is_source_before(ps, n, p) == (is_source_before(ps, n - 1, p) || p
        == src) by {
        lemma_source_step(ps, n, p);
    }
    assert forall|p: Seq<char>| is_dest_before(ps, n, p) == (is_dest_before(ps, n - 1, p) || p
        == dst) by {
        lemma_dest_step(ps, n, p);
    }
    assert(is_free(landed_from_staging(base, ps, n - 1), dst)) by {
        if landed_from_staging(base, ps, n - 1).dom().contains(dst) {
            assert(!is_source(ps, ps[n - 1].1));
            assert(is_free(base, ps[n - 1].1));
        }
    }
    assert(landed_from_staging(base, ps, n - 1).insert(dst, still_parked(base, ps, n - 1)[src])
        =~= landed_from_staging(base, ps, n));
    assert(still_parked(base, ps, n - 1).remove(src) =~= still_parked(base, ps, n));
}

/// Out of the staging area every repository reaches its destination: the
/// place is free, because what lay there was parked too or never existed.
pub proof fn lemma_commit_staged(
    t: State,
    base: Map<Seq<char>, nat>,
    ps: Seq<Pair>,
    es: Seq<Entry>,
    n: int,
)
    requires
        0 <= n <= ps.len(),
        t.physical == lifted(base, ps, ps.len() as int),
        t.staged == parked(base, ps, ps.len() as int),
        holds_sources(base, ps),
        frees_dests(base, ps),
        distinct_sources(ps),
        distinct_dests(ps),
    ensures
        t.run(phase_upto(Phase::Commit, ps, true, es, n)) == Some(
            State {
                physical: landed_from_staging(base, ps, n),
                staged: still_parked(base, ps, n),
                ..t
            },
        ),
    decreases n,
{
    if n <= 0 {
        assert forall|p: Seq<char>|
            !is_source_before(ps, 0, p) && !is_dest_before(ps, 0, p) && is_source_before(
                ps,
                ps.len() as int,
                p,
            ) == is_source(ps, p) by {
            lemma_before_all(ps, p);
        }
        assert(landed_from_staging(base, ps, 0) =~= t.physical);
        assert(still_parked(base, ps, 0) =~= t.staged);
        assert(t.run_upto(Seq::<StepView>::empty(), 0) == Some(t));
    } else {
        lemma_commit_staged(t, base, ps, es, n - 1);
        let before = State {
            physical: landed_from_staging(base, ps, n - 1),
            staged: still_parked(base, ps, n - 1),
            ..t
        };
        let two = pair_steps(Phase::Commit, ps[n - 1], true, is_link(es, ps[n - 1].1));
        lemma_run_both(t, before, phase_upto(Phase::Commit, ps, true, es, n - 1), two);
        lemma_run_two(before, two[0], two[1]);
        assert(two =~= seq![two[0], two[1]]);
        lemma_commit_staged_step(base, ps, n);
    }
}

/// The physical tree once the first `n` pairs have arrived, each moved
/// straight from its source.
pub open spec fn landed_directly(base: Map<Seq<char>, nat>, ps: Seq<Pair>, n: int) -> Map<
    Seq<char>,
    nat,
> {
    Map::new(
        |p: Seq<char>|
            (base.dom().contains(p) && !is_source_before(ps, n, p)) || is_dest_before(ps, n, p),
        |p: Seq<char>|
            if is_dest_before(ps, n, p) {
                base[source_for(ps, p)]
            } else {
                base[p]
            },
    )
}

/// No destination of the batch is a source of it.
pub open spec fn dests_apart(ps: Seq<Pair>) -> bool {
    forall|k: int| 0 <= k < ps.len() ==> !is_source(ps, (#[trigger] ps[k]).1)
}

/// One pair moves directly: it is there, its destination is free, and the
/// map afterwards is that of one pair more.
pub proof fn lemma_commit_directly_step(base: Map<Seq<char>, nat>, ps: Seq<Pair>, n: int)
    requires
        0 < n <= ps.len(),
        holds_sources(base, ps),
        frees_dests(base, ps),
        dests_apart(ps),
        distinct_sources(ps),
        distinct_dests(ps),
    ensures
        landed_directly(base, ps, n - 1).dom().contains(ps[n - 1].0),
        is_free(landed_directly(base, ps, n - 1).remove(ps[n - 1].0), ps[n - 1].1),
        landed_directly(base, ps, n - 1).remove(ps[n - 1].0).insert(
            ps[n - 1].1,
            landed_directly(base, ps, n - 1)[ps[n - 1].0],
        ) == landed_directly(base, ps, n),
{
    let src = ps[n - 1].0;
    let dst = ps[n - 1].1;
    let before = landed_directly(base, ps, n - 1);
    lemma_not_source_before(ps, n - 1);
    lemma_not_dest_before(ps, n - 1);
    assert(is_source(ps, src));
    assert(base.dom().contains(ps[n - 1].0));
    assert(!is_source(ps, ps[n - 1].1));
    assert(is_free(base, ps[n - 1].1));
    assert forall|p: Seq<char>| is_source_before(ps, n, p) == (is_source_before(ps, n - 1, p) || p
        == src) by {
        lemma_source_step(ps, n, p);
    }
    assert forall|p: Seq<char>| is_dest_before(ps, n, p) == (is_dest_before(ps, n - 1, p) || p
        == dst) by {
        lemma_dest_step(ps, n, p);
    }
    assert(!is_dest_before(ps, n - 1, src)) by {
        if is_dest_before(ps, n - 1, src) {
            let i = choose|i: int| 0 <= i < n - 1 && i < ps.len() && (#[trigger] ps[i]).1 == src;
            assert(!is_source(ps, ps[i].1));
        }
    }
    assert(before.dom().contains(src));
    assert(before[src] == base[src]);
    assert(src != dst);
    assert(is_free(before.remove(src), dst));
    assert(before.remove(src).insert(dst, before[src]) =~= landed_directly(base, ps, n));
}

/// Without staging every repository reaches its destination directly: no
/// destination is a source, so nothing is in the way.
pub proof fn lemma_commit_directly(t: State, ps: Seq<Pair>, es: Seq<Entry>, n: int)
    requires
        0 <= n <= ps.len(),
        holds_sources(t.physical, ps),
        frees_dests(t.physical, ps),
        dests_apart(ps),
        distinct_sources(ps),
        distinct_dests(ps),
    ensures
        t.run(phase_upto(Phase::Commit, ps, false, es, n)) == Some(
            State { physical: landed_directly(t.physical, ps, n), ..t },
        ),
    decreases n,
{
    if n <= 0 {
        assert forall|p: Seq<char>| !is_source_before(ps, 0, p) && !is_dest_before(ps, 0, p) by {
            lemma_before_all(ps, p);
        }
        assert(landed_directly(t.physical, ps, 0) =~= t.physical);
        assert(t.run_upto(Seq::<StepView>::empty(), 0) == Some(t));
    } else {
        lemma_commit_directly(t, ps, es, n - 1);
        let before = State { physical: landed_directly(t.physical, ps, n - 1), ..t };
        let two = pair_steps(Phase::Commit, ps[n - 1], false, is_link(es, ps[n - 1].1));
        lemma_run_both(t, before, phase_upto(Phase::Commit, ps, false, es, n - 1), two);
        lemma_run_two(before, two[0], two[1]);
        assert(two =~= seq![two[0], two[1]]);
        lemma_commit_directly_step(t.physical, ps, n);
    }
}

/// The links once the first `n` destinations were linked.
pub open spec fn relinked(links: Set<Seq<char>>, ps: Seq<Pair>, n: int) -> Set<Seq<char>> {
    Set::new(|p: Seq<char>| links.contains(p) || is_dest_before(ps, n, p))
}

/// The listing says truly at which destinations a link lies.
pub open spec fn knows_links(links: Set<Seq<char>>, ps: Seq<Pair>, es: Seq<Entry>) -> bool {
    forall|k: int|
        0 <= k < ps.len() ==> is_link(es, (#[trigger] ps[k]).1) == links.contains(ps[k].1)
}

/// Linking puts a link at every destination; a stale link there is
/// removed first, so that creating the new one never fails.
pub proof fn lemma_relink(t: State, ps: Seq<Pair>, staged: bool, es: Seq<Entry>, n: int)
    requires
        0 <= n <= ps.len(),
        distinct_dests(ps),
        knows_links(t.links, ps, es),
    ensures
        t.run(phase_upto(Phase::Relink, ps, staged, es, n)) == Some(
            State { links: relinked(t.links, ps, n), ..t },
        ),
    decreases n,
{
    if n <= 0 {
        assert forall|p: Seq<char>| !is_dest_before(ps, 0, p) by {
            lemma_before_all(ps, p);
        }
        assert(relinked(t.links, ps, 0) =~= t.links);
        assert(t.run_upto(Seq::<StepView>::empty(), 0) == Some(t));
    } else {
        lemma_relink(t, ps, staged, es, n - 1);
        let before = State { links: relinked(t.links, ps, n - 1), ..t };
        let dst = ps[n - 1].1;
        let linked = is_link(es, dst);
        let steps = pair_steps(Phase::Relink, ps[n - 1], staged, linked);
        lemma_run_both(t, before, phase_upto(Phase::Relink, ps, staged, es, n - 1), steps);
        lemma_not_dest_before(ps, n - 1);
        assert(linked == t.links.contains(ps[n - 1].1));
        assert forall|p: Seq<char>| is_dest_before(ps, n, p) == (is_dest_before(ps, n - 1, p) || p
            == dst) by {
            lemma_dest_step(ps, n, p);
        }
        if linked {
            lemma_run_two(before, steps[0], steps[1]);
            assert(steps =~= seq![steps[0], steps[1]]);
            assert(before.links.remove(dst).insert(dst) =~= relinked(t.links, ps, n));
        } else {
            lemma_run_one(before, steps[0]);
            assert(steps =~= seq![steps[0]]);
            assert(before.links.insert(dst) =~= relinked(t.links, ps, n));
        }
    }
}

/// The path is one of the first `n` of the list.
pub open spec fn is_among(paths: Seq<Seq<char>>, n: int, path: Seq<char>) -> bool {
    exists|i: int| 0 <= i < n && i < paths.len() && (#[trigger] paths[i]) == path
}

/// The links without the first `n` paths of the list.
pub open spec fn unlinked(links: Set<Seq<char>>, paths: Seq<Seq<char>>, n: int) -> Set<Seq<char>> {
    Set::new(|p: Seq<char>| links.contains(p) && !is_among(paths, n, p))
}

/// Removing links that are there, each once, removes exactly those.
pub proof fn lemma_unlinks(t: State, paths: Seq<Seq<char>>, n: int)
    requires
        0 <= n <= paths.len(),
        paths.no_duplicates(),
        forall|i: int| 0 <= i < paths.len() ==> t.links.contains(#[trigger] paths[i]),
    ensures
        t.run(unlinks_upto(paths, n)) == Some(State { links: unlinked(t.links, paths, n), ..t }),
    decreases n,
{
    if n <= 0 {
        assert(unlinked(t.links, paths, 0) =~= t.links);
        assert(t.run_upto(Seq::<StepView>::empty(), 0) == Some(t));
    } else {
        lemma_unlinks(t, paths, n - 1);
        let before = State { links: unlinked(t.links, paths, n - 1), ..t };
        let path = paths[n - 1];
        let one = seq![Step::<Seq<char>>::Do(Action::Unlink(path))];
        assert(unlinks_upto(paths, n) =~= unlinks_upto(paths, n - 1) + one);
        lemma_run_both(t, before, unlinks_upto(paths, n - 1), one);
        lemma_run_one(before, one[0]);
        assert(!is_among(paths, n - 1, path)) by {
            if is_among(paths, n - 1, path) {
                let i = choose|i: int|
                    0 <= i < n - 1 && i < paths.len() && (#[trigger] paths[i]) == path;
                assert(paths[i] != paths[n - 1]);
            }
        }
        assert(t.links.contains(paths[n - 1]));
        assert forall|p: Seq<char>| is_among(paths, n, p) == (is_among(paths, n - 1, p) || p
            == path) by {
            if is_among(paths, n, p) {
                let i = choose|i: int| 0 <= i < n && i < paths.len() && (#[trigger] paths[i]) == p;
                if i < n - 1 {
                    assert(is_among(paths, n - 1, p));
                }
            }
            if is_among(paths, n - 1, p) {
                let i = choose|i: int|
                    0 <= i < n - 1 && i < paths.len() && (#[trigger] paths[i]) == p;
                assert(0 <= i < n && paths[i] == p);
            }
            if p == path {
                assert(paths[n - 1] == p);
            }
        }
        assert(before.links.remove(path) =~= unlinked(t.links, paths, n));
    }
}

/// Pruning changes nothing that the state holds.
pub proof fn lemma_prunes(t: State, paths: Seq<Seq<char>>, n: int)
    requires
        0 <= n <= paths.len(),
    ensures
        t.run(prunes_upto(paths, n)) == Some(t),
    decreases n,
{
    if n <= 0 {
        assert(t.run_upto(Seq::<StepView>::empty(), 0) == Some(t));
    } else {
        lemma_prunes(t, paths, n - 1);
        let path = paths[n - 1];
        let two = seq![
            Step::<Seq<char>>::Do(Action::Prune(Place::Visible, path)),
            Step::<Seq<char>>::Do(Action::Prune(Place::Physical, path)),
        ];
        assert(prunes_upto(paths, n) =~= prunes_upto(paths, n - 1) + two);
        lemma_run_both(t, t, prunes_upto(paths, n - 1), two);
        lemma_run_two(t, two[0], two[1]);
    }
}

/// In a batch of clean pairs with distinct sources, the sources that
/// nothing takes over are the sources that are no destination, each once.
pub proof fn lemma_vacated(ps: Seq<Pair>, es: Seq<Entry>, n: int)
    requires
        0 <= n <= ps.len(),
        distinct_sources(ps),
        forall|k: int| 0 <= k < ps.len() ==> (#[trigger] verdict(ps, es, k)) is Clean,
    ensures
        vacated_upto(ps, es, n).no_duplicates(),
        forall|p: Seq<char>|
            #[trigger] vacated_upto(ps, es, n).contains(p) == (is_source_before(ps, n, p)
                && !is_dest(ps, p)),
    decreases n,
{
    let v = vacated_upto(ps, es, n);
    if n <= 0 {
        assert forall|p: Seq<char>| #[trigger] v.contains(p) == (is_source_before(ps, n, p)
            && !is_dest(ps, p)) by {
            lemma_before_all(ps, p);
        }
    } else {
        lemma_vacated(ps, es, n - 1);
        let before = vacated_upto(ps, es, n - 1);
        let src = ps[n - 1].0;
        assert(is_replaced(ps, es, src) == is_dest(ps, src)) by {
            if is_dest(ps, src) {
                let k = choose|k: int| 0 <= k < ps.len() && (#[trigger] ps[k]).1 == src;
                assert(verdict(ps, es, k) is Clean);
            }
            if is_replaced(ps, es, src) {
                let k = choose|k: int|
                    0 <= k < ps.len() && (#[trigger] verdict(ps, es, k)) is Clean && ps[k].1
                        == src;
                assert(ps[k].1 == src);
            }
        }
        lemma_not_source_before(ps, n - 1);
        assert(leaves_for_good(ps, es, n - 1) == !is_dest(ps, src)) by {
            assert forall|i: int| 0 <= i < n - 1 implies (#[trigger] ps[i]).0 != ps[n - 1].0 by {
                assert(ps[i].0 != ps[n - 1].0);
            }
        }
        assert forall|p: Seq<char>| #[trigger] v.contains(p) == (is_source_before(ps, n, p)
            && !is_dest(ps, p)) by {
            lemma_source_step(ps, n, p);
            assert(before.contains(p) == (is_source_before(ps, n - 1, p) && !is_dest(ps, p)));
            if leaves_for_good(ps, es, n - 1) {
                assert(v == before.push(src));
                assert(!is_dest(ps, src));
                if before.contains(p) {
                    let i = choose|i: int| 0 <= i < before.len() && before[i] == p;
                    assert(v[i] == p);
                    assert(v.contains(p));
                }
                if p == src {
                    assert(v[v.len() - 1] == p);
                    assert(v.contains(p));
                }
                if v.contains(p) {
                    let i = choose|i: int| 0 <= i < v.len() && v[i] == p;
                    if i < before.len() {
                        assert(before[i] == p);
                        assert(before.contains(p));
                    } else {
                        assert(p == src);
                    }
                }
            } else {
                assert(v == before);
                assert(is_dest(ps, src));
            }
        }
        if leaves_for_good(ps, es, n - 1) {
            assert(!before.contains(src));
        }
    }
}

/// What a sound batch gives the phases to work with: distinct
/// destinations, sources that are there, and destinations that are free
/// once they were prepared.
pub proof fn lemma_sound_batch(s: State, ps: Seq<Pair>, es: Seq<Entry>)
    requires
        s.is_healthy(),
        is_sound_batch(s, ps, es),
    ensures
        distinct_sources(ps),
        distinct_dests(ps),
        holds_sources(s.physical, ps),
        holds_sources(prepared(s, ps, ps.len() as int), ps),
        frees_dests(prepared(s, ps, ps.len() as int), ps),
        knows_links(s.links, ps, es),
        !needs_staging(ps, es) ==> dests_apart(ps),
{
    let n = ps.len() as int;
    let prep = prepared(s, ps, n);
    assert forall|i: int, j: int| 0 <= i < j < ps.len() implies (#[trigger] ps[i]).1 != (
    #[trigger] ps[j]).1 by {
        assert(verdict(ps, es, j) is Clean);
        lemma_clean_is_injective(ps, es, i, j);
    }
    assert forall|k: int| 0 <= k < ps.len() implies s.physical.dom().contains(
        (#[trigger] ps[k]).0,
    ) by {
        assert(s.links.contains(ps[k].0));
    }
    assert forall|k: int| 0 <= k < ps.len() && !is_source(ps, (#[trigger] ps[k]).1) implies is_free(
        prep,
        ps[k].1,
    ) by {
        assert(verdict(ps, es, k) is Clean);
        assert(!on_disk(es, ps[k].1));
        assert(!s.links.contains(ps[k].1));
    }
    if !needs_staging(ps, es) {
        assert forall|k: int| 0 <= k < ps.len() implies !is_source(ps, (#[trigger] ps[k]).1) by {
            if is_source(ps, ps[k].1) {
                let i = choose|i: int| 0 <= i < ps.len() && (#[trigger] ps[i]).0 == ps[k].1;
                assert(s.links.contains(ps[i].0));
                assert(on_disk(es, ps[k].1));
                assert(takes_a_source(ps, es, k));
            }
        }
    }
}

/// The physical tree after the batch, in terms of the prepared tree, is
/// the physical tree after the batch.
pub proof fn lemma_landed_is_moved(s: State, ps: Seq<Pair>)
    requires
        holds_sources(s.physical, ps),
    ensures
        landed_from_staging(prepared(s, ps, ps.len() as int), ps, ps.len() as int) == moved(
            s,
            ps,
        ).physical,
        landed_directly(prepared(s, ps, ps.len() as int), ps, ps.len() as int) == moved(
            s,
            ps,
        ).physical,
        still_parked(prepared(s, ps, ps.len() as int), ps, ps.len() as int) == Map::<
            Seq<char>,
            nat,
        >::empty(),
{
    let n = ps.len() as int;
    let prep = prepared(s, ps, n);
    assert forall|p: Seq<char>|
        is_dest_before(ps, n, p) == is_dest(ps, p) && is_source_before(ps, n, p) == is_source(
            ps,
            p,
        ) by {
        lemma_before_all(ps, p);
    }
    assert forall|p: Seq<char>| is_dest(ps, p) implies s.physical.dom().contains(
        source_for(ps, p),
    ) by {
        let k = choose|k: int| 0 <= k < ps.len() && (#[trigger] ps[k]).1 == p;
        lemma_some_pair_is_first(ps, p, k);
        let f = first_to(ps, p);
        assert(is_first_to(ps, p, f));
        assert(s.physical.dom().contains(ps[f].0));
    }
    assert(landed_from_staging(prep, ps, n) =~= moved(s, ps).physical);
    assert(landed_directly(prep, ps, n) =~= moved(s, ps).physical);
    assert(still_parked(prep, ps, n) =~= Map::<Seq<char>, nat>::empty());
}

/// The first half of a move: every repository of a sound batch reaches
/// its destination with what it held, and the staging area is left empty.
pub proof fn lemma_repositories_arrive(s: State, ps: Seq<Pair>, es: Seq<Entry>)
    requires
        s.is_healthy(),
        is_sound_batch(s, ps, es),
    ensures
        s.run(
            phase_all(Phase::Prepare, ps, needs_staging(ps, es), es) + phase_all(
                Phase::Parents,
                ps,
                needs_staging(ps, es),
                es,
            ) + (if needs_staging(ps, es) {
                phase_all(Phase::StageDirs, ps, needs_staging(ps, es), es) + phase_all(
                    Phase::StageMoves,
                    ps,
                    needs_staging(ps, es),
                    es,
                )
            } else {
                Seq::<StepView>::empty()
            }) + phase_all(Phase::Commit, ps, needs_staging(ps, es), es),
        ) == Some(State { physical: moved(s, ps).physical, ..s }),
{
    let n = ps.len() as int;
    let st = needs_staging(ps, es);
    let a1 = phase_all(Phase::Prepare, ps, st, es);
    let a2 = phase_all(Phase::Parents, ps, st, es);
    let a4 = phase_all(Phase::Commit, ps, st, es);
    let prep = prepared(s, ps, n);
    let s1 = State { physical: prep, ..s };
    lemma_sound_batch(s, ps, es);
    lemma_landed_is_moved(s, ps);
    lemma_prepare(s, ps, st, es, n);
    lemma_parents(s1, ps, st, es, n);
    lemma_run_both(s, s1, a1, a2);
    if st {
        let b1 = phase_all(Phase::StageDirs, ps, st, es);
        let b2 = phase_all(Phase::StageMoves, ps, st, es);
        let s2 = State { staged: parked_empty(ps, n), ..s1 };
        let s3 = State { physical: lifted(prep, ps, n), staged: parked(prep, ps, n), ..s1 };
        lemma_stage_dirs(s1, ps, st, es, n);
        lemma_stage_moves(s2, ps, st, es, n);
        lemma_run_both(s1, s2, b1, b2);
        lemma_run_both(s, s1, a1 + a2, b1 + b2);
        lemma_commit_staged(s3, prep, ps, es, n);
        lemma_run_both(s, s3, a1 + a2 + (b1 + b2), a4);
    } else {
        assert(a1 + a2 + Seq::<StepView>::empty() =~= a1 + a2);
        lemma_commit_directly(s1, ps, es, n);
        lemma_run_both(s, s1, a1 + a2, a4);
    }
}

/// The links after the batch are the links after the batch.
pub proof fn lemma_links_are_moved(s: State, ps: Seq<Pair>, es: Seq<Entry>)
    requires
        distinct_sources(ps),
        forall|k: int| 0 <= k < ps.len() ==> (#[trigger] verdict(ps, es, k)) is Clean,
    ensures
        unlinked(
            relinked(s.links, ps, ps.len() as int),
            vacated_upto(ps, es, ps.len() as int),
            vacated_upto(ps, es, ps.len() as int).len() as int,
        ) == moved(s, ps).links,
{
    let n = ps.len() as int;
    let v = vacated_upto(ps, es, n);
    lemma_vacated(ps, es, n);
    assert forall|p: Seq<char>|
        is_dest_before(ps, n, p) == is_dest(ps, p) && is_source_before(ps, n, p) == is_source(
            ps,
            p,
        ) by {
        lemma_before_all(ps, p);
    }
    assert forall|p: Seq<char>|
        unlinked(relinked(s.links, ps, n), v, v.len() as int).contains(p) == moved(
            s,
            ps,
        ).links.contains(p) by {
        lemma_before_all(ps, p);
        assert(v.contains(p) == (is_source_before(ps, n, p) && !is_dest(ps, p)));
        if v.contains(p) {
            let i = choose|i: int| 0 <= i < v.len() && v[i] == p;
            assert(0 <= i < v.len() && i < v.len() && v[i] == p);
            assert(is_among(v, v.len() as int, p));
        }
        if is_among(v, v.len() as int, p) {
            let i = choose|i: int| 0 <= i < v.len() && i < v.len() && (#[trigger] v[i]) == p;
            assert(v[i] == p);
            assert(v.contains(p));
        }
    }
    assert(unlinked(relinked(s.links, ps, n), v, v.len() as int) =~= moved(s, ps).links);
}

/// The second half of a move: the links follow the repositories, and what
/// is left of the staging area goes.
pub proof fn lemma_links_follow(t: State, ps: Seq<Pair>, es: Seq<Entry>, staged: bool)
    requires
        distinct_sources(ps),
        distinct_dests(ps),
        knows_links(t.links, ps, es),
        forall|k: int| 0 <= k < ps.len() ==> t.links.contains((#[trigger] ps[k]).0),
        forall|k: int| 0 <= k < ps.len() ==> (#[trigger] verdict(ps, es, k)) is Clean,
        t.staged == Map::<Seq<char>, nat>::empty(),
    ensures
        t.run(
            phase_all(Phase::Relink, ps, staged, es) + unlinks_upto(
                vacated_upto(ps, es, ps.len() as int),
                vacated_upto(ps, es, ps.len() as int).len() as int,
            ) + prunes_upto(
                vacated_upto(ps, es, ps.len() as int),
                vacated_upto(ps, es, ps.len() as int).len() as int,
            ) + (if staged {
                seq![Step::<Seq<char>>::Do(Action::DropStaging)]
            } else {
                Seq::<StepView>::empty()
            }) + seq![
                Step::<Seq<char>>::Say(
                    counted("Moved "@, ps.len(), " repositories"@),
                ),
            ],
        ) == Some(State { links: moved(t, ps).links, ..t }),
{
    let n = ps.len() as int;
    let v = vacated_upto(ps, es, n);
    let a5 = phase_all(Phase::Relink, ps, staged, es);
    let u = unlinks_upto(v, v.len() as int);
    let pr = prunes_upto(v, v.len() as int);
    let dr = if staged {
        seq![Step::<Seq<char>>::Do(Action::DropStaging)]
    } else {
        Seq::<StepView>::empty()
    };
    let m = seq![
        Step::<Seq<char>>::Say(counted("Moved "@, ps.len(), " repositories"@)),
    ];
    let t5 = State { links: relinked(t.links, ps, n), ..t };
    let t6 = State { links: moved(t, ps).links, ..t };
    lemma_relink(t, ps, staged, es, n);
    lemma_vacated(ps, es, n);
    lemma_links_are_moved(t, ps, es);
    assert forall|i: int| 0 <= i < v.len() implies t5.links.contains(#[trigger] v[i]) by {
        assert(v.contains(v[i]));
        assert(is_source_before(ps, n, v[i]));
        let k = choose|k: int| 0 <= k < n && k < ps.len() && (#[trigger] ps[k]).0 == v[i];
        assert(t.links.contains(ps[k].0));
    }
    lemma_unlinks(t5, v, v.len() as int);
    lemma_run_both(t, t5, a5, u);
    lemma_prunes(t6, v, v.len() as int);
    lemma_run_both(t, t6, a5 + u, pr);
    if staged {
        lemma_run_one(t6, dr[0]);
        assert(dr =~= seq![dr[0]]);
        assert(State { staged: Map::<Seq<char>, nat>::empty(), ..t6 } == t6);
    } else {
        assert(t6.run_upto(dr, 0) == Some(t6));
    }
    lemma_run_both(t, t6, a5 + u + pr, dr);
    lemma_run_one(t6, m[0]);
    lemma_run_both(t, t6, a5 + u + pr + dr, m);
}

/// A clean batch is carried out to the end, whether it needs staging or
/// not: no step fails; afterwards every destination holds what its source
/// held, the sources that are no destination are gone, all else is as it
/// was, and no staging area remains. The tree is as healthy as before.
pub proof fn law_clean_batch_is_moved(s: State, ps: Seq<Pair>, es: Seq<Entry>)
    requires
        s.is_healthy(),
        is_sound_batch(s, ps, es),
    ensures
        s.run(
            execution(
                ps,
                needs_staging(ps, es),
                vacated_upto(ps, es, ps.len() as int),
                es,
            ),
        ) == Some(moved(s, ps)),
        moved(s, ps).is_healthy(),
        moved(s, ps).staged == Map::<Seq<char>, nat>::empty(),
        forall|k: int|
            0 <= k < ps.len() ==> moved(s, ps).links.contains((#[trigger] ps[k]).1) && moved(
                s,
                ps,
            ).physical[ps[k].1] == s.physical[ps[k].0],
        forall|k: int|
            0 <= k < ps.len() && !is_dest(ps, (#[trigger] ps[k]).0) ==> !moved(
                s,
                ps,
            ).links.contains(ps[k].0) && !moved(s, ps).physical.dom().contains(ps[k].0),
        forall|p: Seq<char>|
            !is_source(ps, p) && !is_dest(ps, p) ==> moved(s, ps).links.contains(p)
                == s.links.contains(p) && (s.links.contains(p) ==> #[trigger] moved(
                s,
                ps,
            ).physical[p] == s.physical[p]),
{
    let n = ps.len() as int;
    let st = needs_staging(ps, es);
    let v = vacated_upto(ps, es, n);
    let first = phase_all(Phase::Prepare, ps, st, es) + phase_all(Phase::Parents, ps, st, es) + (
    if st {
        phase_all(Phase::StageDirs, ps, st, es) + phase_all(Phase::StageMoves, ps, st, es)
    } else {
        Seq::<StepView>::empty()
    }) + phase_all(Phase::Commit, ps, st, es);
    let second = phase_all(Phase::Relink, ps, st, es) + unlinks_upto(v, v.len() as int)
        + prunes_upto(v, v.len() as int) + (if st {
        seq![Step::<Seq<char>>::Do(Action::DropStaging)]
    } else {
        Seq::<StepView>::empty()
    }) + seq![
        Step::<Seq<char>>::Say(counted("Moved "@, ps.len(), " repositories"@)),
    ];
    let mid = State { physical: moved(s, ps).physical, ..s };
    lemma_sound_batch(s, ps, es);
    lemma_repositories_arrive(s, ps, es);
    lemma_links_follow(mid, ps, es, st);
    lemma_run_both(s, mid, first, second);
    assert(execution(ps, st, v, es) =~= first + second);
    assert(State { links: moved(mid, ps).links, ..mid } == moved(s, ps));
    assert forall|k: int| 0 <= k < ps.len() implies moved(s, ps).links.contains(
        (#[trigger] ps[k]).1,
    ) && moved(s, ps).physical[ps[k].1] == s.physical[ps[k].0] by {
        lemma_not_dest_before(ps, k);
        assert(is_dest(ps, ps[k].1));
    }
    assert forall|k: int| 0 <= k < ps.len() && !is_dest(ps, (#[trigger] ps[k]).0) implies !moved(
        s,
        ps,
    ).links.contains(ps[k].0) && !moved(s, ps).physical.dom().contains(ps[k].0) by {
        assert(is_source(ps, ps[k].0));
    }
    assert(moved(s, ps).is_healthy()) by {
        assert(moved(s, ps).links =~= moved(s, ps).physical.dom());
        assert forall|p: Seq<char>| moved(s, ps).physical.dom().contains(p) implies (
        #[trigger] moved(s, ps).physical[p]) > 0 by {
            if is_dest(ps, p) {
                let k = choose|k: int| 0 <= k < ps.len() && (#[trigger] ps[k]).1 == p;
                lemma_some_pair_is_first(ps, p, k);
                let f = first_to(ps, p);
                assert(is_first_to(ps, p, f));
                assert(s.physical.dom().contains(ps[f].0));
            }
        }
    }
}

} // verus!

//! Creating repositories. The batch is all or nothing: where any requested
//! path exists already, in either tree, nothing is created.

use crate::plan::{chars_of_all, chars_of_entries, index_of, on_disk};
use crate::relocate::{parent_of, parent_path, StepView};
use crate::script::{
    count_line, counted, push_step, quote, quoted, step_views, Action, Place, Script, Step,
};
use crate::text::{concat, views};
use crate::walk::Entry;
use vstd::prelude::*;

verus! {

/// The first `n` paths, each at its first mention only.
pub open spec fn distinct_upto(paths: Seq<Seq<char>>, n: int) -> Seq<Seq<char>>
    decreases n,
{
    if n <= 0 {
        Seq::<Seq<char>>::empty()
    } else if exists|i: int| 0 <= i < n - 1 && (#[trigger] paths[i]) == paths[n - 1] {
        distinct_upto(paths, n - 1)
    } else {
        distinct_upto(paths, n - 1).push(paths[n - 1])
    }
}

/// The requested paths, each once, in the order of their first mention.
pub open spec fn requested(paths: Seq<Seq<char>>) -> Seq<Seq<char>> {
    distinct_upto(paths, paths.len() as int)
}

/// Something lies at the path, in the visible tree or in the physical one.
pub open spec fn is_taken(visible: Seq<Entry>, physical: Seq<Entry>, path: Seq<char>) -> bool {
    on_disk(visible, path) || on_disk(physical, path)
}

/// Those of the first `n` paths at which something lies already.
pub open spec fn taken_upto(
    paths: Seq<Seq<char>>,
    visible: Seq<Entry>,
    physical: Seq<Entry>,
    n: int,
) -> Seq<Seq<char>>
    decreases n,
{
    if n <= 0 {
        Seq::<Seq<char>>::empty()
    } else if is_taken(visible, physical, paths[n - 1]) {
        taken_upto(paths, visible, physical, n - 1).push(paths[n - 1])
    } else {
        taken_upto(paths, visible, physical, n - 1)
    }
}

/// The first `n` paths, each between quotes, with `, ` between neighbours.
pub open spec fn quoted_list(paths: Seq<Seq<char>>, n: int) -> Seq<char>
    decreases n,
{
    if n <= 0 {
        Seq::<char>::empty()
    } else if n == 1 {
        quoted(paths[0])
    } else {
        quoted_list(paths, n - 1) + ", "@ + quoted(paths[n - 1])
    }
}

/// The line that names what exists already.
pub open spec fn exists_line(taken: Seq<Seq<char>>) -> Seq<char> {
    if taken.len() == 1 {
        "Repo already exists at "@ + quoted(taken[0])
    } else {
        "Repos already exist at: "@ + quoted_list(taken, taken.len() as int)
    }
}

/// The steps that create one repository: its physical directory, the bare
/// repository in it, the visible folder that the link lies in, and the
/// link.
pub open spec fn create_steps(path: Seq<char>) -> Seq<StepView> {
    seq![
        Step::Do(Action::CreateDirAll(Place::Physical, path)),
        Step::Do(Action::InitBare(path)),
        Step::Do(Action::CreateDirAll(Place::Visible, parent_path(path))),
        Step::Do(Action::Link(path)),
        Step::Say("Created "@ + quoted(path)),
    ]
}

/// The steps that create the first `n` repositories.
pub open spec fn creation_upto(paths: Seq<Seq<char>>, n: int) -> Seq<StepView>
    decreases n,
{
    if n <= 0 {
        Seq::<StepView>::empty()
    } else {
        creation_upto(paths, n - 1) + create_steps(paths[n - 1])
    }
}

/// The script that creates the repositories: nothing but a refusal where
/// any of them exists; else each one in turn, and the count at the end
/// where there is more than one.
pub open spec fn create_script(
    paths: Seq<Seq<char>>,
    visible: Seq<Entry>,
    physical: Seq<Entry>,
) -> (Seq<StepView>, int) {
    let wanted = requested(paths);
    let taken = taken_upto(wanted, visible, physical, wanted.len() as int);
    if taken.len() > 0 {
        (seq![Step::<Seq<char>>::Warn(exists_line(taken))], 1)
    } else {
        (
            creation_upto(wanted, wanted.len() as int) + (if wanted.len() > 1 {
                seq![
                    Step::<Seq<char>>::Say(
                        counted("Created "@, wanted.len(), " new repositories"@),
                    ),
                ]
            } else {
                Seq::<StepView>::empty()
            }),
            0,
        )
    }
}

/// The paths, each once, in the order of their first mention.
pub fn dedup(paths: &Vec<String>) -> (r: Vec<String>)
    ensures
        views(r@) == requested(views(paths@)),
{
    let chars = chars_of_all(paths);
    let ghost ps = views(paths@);
    let mut out: Vec<String> = Vec::new();
    let mut k: usize = 0;
    assert(views(out@) =~= distinct_upto(ps, 0));
    while k < paths.len()
        invariant
            k <= paths.len(),
            ps == views(paths@),
            chars.len() == paths.len(),
            forall|i: int| 0 <= i < chars.len() ==> (#[trigger] chars@[i])@ == paths@[i]@,
            views(out@) == distinct_upto(ps, k as int),
        decreases paths.len() - k,
    {
        let first: usize = index_of(&chars, &chars[k], k);
        let ghost before = views(out@);
        proof {
            assert(ps[k as int] == chars@[k as int]@);
            if first < k {
                assert(ps[first as int] == chars@[first as int]@);
                assert(0 <= first < k + 1 - 1 && ps[first as int] == ps[k + 1 - 1]);
            } else {
                assert forall|i: int| 0 <= i < k implies ps[i] != ps[k as int] by {
                    assert(chars@[i]@ == ps[i]);
                }
            }
        }
        if first == k {
            out.push(paths[k].clone());
            assert(views(out@) =~= before.push(ps[k as int]));
        }
        k += 1;
    }
    out
}

/// The paths, each between quotes, with `, ` between neighbours.
pub fn quote_list(paths: &Vec<String>) -> (r: String)
    ensures
        r@ == quoted_list(views(paths@), paths.len() as int),
{
    let mut out = String::new();
    let mut k: usize = 0;
    while k < paths.len()
        invariant
            k <= paths.len(),
            out@ == quoted_list(views(paths@), k as int),
        decreases paths.len() - k,
    {
        let item = quote(paths[k].as_str());
        assert(views(paths@)[k as int] == paths@[k as int]@);
        if k == 0 {
            assert(out@ + item@ =~= item@);
            out = item;
        } else {
            let head = concat(out.as_str(), ", ");
            out = concat(head.as_str(), item.as_str());
        }
        k += 1;
    }
    out
}

/// Creates the repositories at the given paths, or none of them.
pub fn run(paths: &Vec<String>, visible: &Vec<Entry>, physical: &Vec<Entry>) -> (r: Script)
    ensures
        r@ == create_script(views(paths@), visible@, physical@),
{
    let wanted = dedup(paths);
    let ghost ws = views(wanted@);
    let chars = chars_of_all(&wanted);
    let seen = chars_of_entries(visible);
    let stored = chars_of_entries(physical);
    let mut taken: Vec<String> = Vec::new();
    let mut k: usize = 0;
    assert(views(taken@) =~= taken_upto(ws, visible@, physical@, 0));
    while k < wanted.len()
        invariant
            k <= wanted.len(),
            ws == views(wanted@),
            chars.len() == wanted.len(),
            seen.len() == visible.len(),
            stored.len() == physical.len(),
            forall|i: int| 0 <= i < chars.len() ==> (#[trigger] chars@[i])@ == wanted@[i]@,
            forall|i: int| 0 <= i < seen.len() ==> (#[trigger] seen@[i])@ == visible@[i].path@,
            forall|i: int| 0 <= i < stored.len() ==> (#[trigger] stored@[i])@ == physical@[i].path@,
            views(taken@) == taken_upto(ws, visible@, physical@, k as int),
        decreases wanted.len() - k,
    {
        let path: &Vec<char> = &chars[k];
        let a: usize = index_of(&seen, path, seen.len());
        let b: usize = index_of(&stored, path, stored.len());
        let ghost p = ws[k as int];
        assert(p == path@);
        proof {
            if a < seen.len() {
                assert(visible@[a as int].path@ == p);
            } else {
                assert forall|j: int| 0 <= j < visible@.len() implies (#[trigger] visible@[j]).path@
                    != p by {
                    assert(seen@[j]@ == visible@[j].path@);
                }
            }
            if b < stored.len() {
                assert(physical@[b as int].path@ == p);
            } else {
                assert forall|j: int| 0 <= j < physical@.len() implies (
                #[trigger] physical@[j]).path@ != p by {
                    assert(stored@[j]@ == physical@[j].path@);
                }
            }
        }
        let ghost before = views(taken@);
        if a < seen.len() || b < stored.len() {
            taken.push(wanted[k].clone());
            assert(views(taken@) =~= before.push(p));
        }
        k += 1;
    }
    let mut steps: Vec<Step<String>> = Vec::new();
    if taken.len() > 0 {
        let line: String = if taken.len() == 1 {
            assert(views(taken@)[0] == taken@[0]@);
            let q = quote(taken[0].as_str());
            concat("Repo already exists at ", q.as_str())
        } else {
            let q = quote_list(&taken);
            concat("Repos already exist at: ", q.as_str())
        };
        push_step(&mut steps, Step::Warn(line));
        let r = Script { steps, status: 1 };
        assert(r@.0 =~= seq![Step::<Seq<char>>::Warn(exists_line(views(taken@)))]);
        return r;
    }
    let mut k: usize = 0;
    assert(step_views(steps@) =~= creation_upto(ws, 0));
    while k < wanted.len()
        invariant
            k <= wanted.len(),
            ws == views(wanted@),
            step_views(steps@) == creation_upto(ws, k as int),
        decreases wanted.len() - k,
    {
        let path: &String = &wanted[k];
        assert(ws[k as int] == path@);
        let ghost before = step_views(steps@);
        push_step(&mut steps, Step::Do(Action::CreateDirAll(Place::Physical, path.clone())));
        push_step(&mut steps, Step::Do(Action::InitBare(path.clone())));
        push_step(
            &mut steps,
            Step::Do(Action::CreateDirAll(Place::Visible, parent_of(path.as_str()))),
        );
        push_step(&mut steps, Step::Do(Action::Link(path.clone())));
        let q = quote(path.as_str());
        push_step(&mut steps, Step::Say(concat("Created ", q.as_str())));
        assert(step_views(steps@) =~= before + create_steps(path@));
        k += 1;
    }
    let ghost made = step_views(steps@);
    if wanted.len() > 1 {
        push_step(&mut steps, Step::Say(count_line("Created ", wanted.len(), " new repositories")));
    }
    let r = Script { steps, status: 0 };
    assert(r@.0 =~= create_script(views(paths@), visible@, physical@).0);
    r
}

} // verus!

//! What a command decides to do, as data: the changes to make on disk and
//! the lines to print, in order, and the status to end with. The library
//! only writes scripts; carrying one out is the caller's part.

use crate::text::concat;
use vstd::prelude::*;

verus! {

/// The three places that a relative path can be taken from.
#[derive(Debug, Clone, Copy, PartialEq, Eq)]
pub enum Place {
    /// The tree of links and folders that the operator sees.
    Visible,
    /// The tree of bare repositories under the repository home.
    Physical,
    /// The staging area, where repositories wait between the two phases of
    /// a move.
    Staging,
}

/// One change on disk. `P` is the type of a path: `String` in a script,
/// `Seq<char>` in a contract.
#[derive(Debug, Clone, PartialEq, Eq)]
pub enum Action<P> {
    /// Create the directory at the path, with every missing ancestor.
    CreateDirAll(Place, P),
    /// Have git initialise a bare repository in the physical directory.
    InitBare(P),
    /// Rename the directory at the first place and path to the second.
    Rename(Place, P, Place, P),
    /// Create the visible link at the path, pointing at the physical
    /// directory of the same path.
    Link(P),
    /// Remove the visible link at the path.
    Unlink(P),
    /// Remove the physical directory at the path with all that it holds.
    RemoveTree(P),
    /// Remove the folders above the path, from the nearest upward, as long
    /// as they are empty; on the physical side never the repository home.
    Prune(Place, P),
    /// Remove the staging area with all that it holds.
    DropStaging,
}

/// One step of a script.
#[derive(Debug, Clone, PartialEq, Eq)]
pub enum Step<P> {
    /// Make the change.
    Do(Action<P>),
    /// Print the line to standard output.
    Say(P),
    /// Print the line to standard error.
    Warn(P),
}

impl View for Action<String> {
    type V = Action<Seq<char>>;

    open spec fn view(&self) -> Action<Seq<char>> {
        match self {
            Action::CreateDirAll(place, p) => Action::CreateDirAll(*place, p@),
            Action::InitBare(p) => Action::InitBare(p@),
            Action::Rename(from, p, to, q) => Action::Rename(*from, p@, *to, q@),
            Action::Link(p) => Action::Link(p@),
            Action::Unlink(p) => Action::Unlink(p@),
            Action::RemoveTree(p) => Action::RemoveTree(p@),
            Action::Prune(place, p) => Action::Prune(*place, p@),
            Action::DropStaging => Action::DropStaging,
        }
    }
}

impl View for Step<String> {
    type V = Step<Seq<char>>;

    open spec fn view(&self) -> Step<Seq<char>> {
        match self {
            Step::Do(a) => Step::Do(a@),
            Step::Say(line) => Step::Say(line@),
            Step::Warn(line) => Step::Warn(line@),
        }
    }
}

/// The views of the steps of a script, in order.
pub open spec fn step_views(steps: Seq<Step<String>>) -> Seq<Step<Seq<char>>> {
    steps.map_values(|s: Step<String>| s@)
}

/// What a command decided: the steps to carry out in order, and the exit
/// status to end with once they are done.
#[derive(Debug, Clone, PartialEq, Eq)]
pub struct Script {
    pub steps: Vec<Step<String>>,
    pub status: i32,
}

impl View for Script {
    type V = (Seq<Step<Seq<char>>>, int);

    open spec fn view(&self) -> (Seq<Step<Seq<char>>>, int) {
        (step_views(self.steps@), self.status as int)
    }
}

/// The script changes nothing on disk.
pub open spec fn is_silent(steps: Seq<Step<Seq<char>>>) -> bool {
    forall|i: int| 0 <= i < steps.len() ==> !((#[trigger] steps[i]) is Do)
}

/// Adds a step to the end of a script under construction.
pub fn push_step(steps: &mut Vec<Step<String>>, step: Step<String>)
    ensures
        step_views(final(steps)@) == step_views(old(steps)@).push(step@),
{
    let ghost before = step_views(steps@);
    steps.push(step);
    assert(step_views(steps@) =~= before.push(step@));
}

/// The decimal digit `d`.
pub open spec fn digit_text(d: nat) -> Seq<char> {
    if d == 0 {
        "0"@
    } else if d == 1 {
        "1"@
    } else if d == 2 {
        "2"@
    } else if d == 3 {
        "3"@
    } else if d == 4 {
        "4"@
    } else if d == 5 {
        "5"@
    } else if d == 6 {
        "6"@
    } else if d == 7 {
        "7"@
    } else if d == 8 {
        "8"@
    } else {
        "9"@
    }
}

/// The number written in decimal, without leading zeros.
pub open spec fn decimal_text(n: nat) -> Seq<char>
    decreases n,
{
    if n < 10 {
        digit_text(n)
    } else {
        decimal_text(n / 10) + digit_text(n % 10)
    }
}

/// The decimal digit `d`.
fn digit(d: usize) -> (r: &'static str)
    requires
        d < 10,
    ensures
        r@ == digit_text(d as nat),
{
    if d == 0 {
        "0"
    } else if d == 1 {
        "1"
    } else if d == 2 {
        "2"
    } else if d == 3 {
        "3"
    } else if d == 4 {
        "4"
    } else if d == 5 {
        "5"
    } else if d == 6 {
        "6"
    } else if d == 7 {
        "7"
    } else if d == 8 {
        "8"
    } else {
        "9"
    }
}

/// The number written in decimal, without leading zeros.
pub fn decimal(n: usize) -> (r: String)
    ensures
        r@ == decimal_text(n as nat),
    decreases n,
{
    if n < 10 {
        digit(n).to_string()
    } else {
        let head = decimal(n / 10);
        concat(head.as_str(), digit(n % 10))
    }
}

/// A path between single quotes.
pub open spec fn quoted(p: Seq<char>) -> Seq<char> {
    "'"@ + p + "'"@
}

/// The line that shows one move: source, arrow, destination.
pub open spec fn arrow(src: Seq<char>, dst: Seq<char>) -> Seq<char> {
    "'"@ + src + "' -> '"@ + dst + "'"@
}

/// A path between single quotes.
pub fn quote(p: &str) -> (r: String)
    ensures
        r@ == quoted(p@),
{
    let open = concat("'", p);
    concat(open.as_str(), "'")
}

/// The line that shows one move.
pub fn arrow_line(src: &str, dst: &str) -> (r: String)
    ensures
        r@ == arrow(src@, dst@),
{
    let a = concat("'", src);
    let b = concat(a.as_str(), "' -> '");
    let c = concat(b.as_str(), dst);
    concat(c.as_str(), "'")
}

/// `before`, the number in decimal, `after`.
pub open spec fn counted(before: Seq<char>, n: nat, after: Seq<char>) -> Seq<char> {
    before + decimal_text(n) + after
}

/// `before`, the number in decimal, `after`.
pub fn count_line(before: &str, n: usize, after: &str) -> (r: String)
    ensures
        r@ == counted(before@, n as nat, after@),
{
    let number = decimal(n);
    let a = concat(before, number.as_str());
    concat(a.as_str(), after)
}

} // verus!

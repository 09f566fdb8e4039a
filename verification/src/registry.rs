//! The flat registry: the simpler way of keeping repositories, in which
//! every repository is a directory of its own and a plain file lists them
//! line by line. Its arguments have rules of their own.

use crate::validate;
use crate::error::ValidationError;
use crate::list::lines_upto;
use crate::path::{
    chars_component_count, chars_represent_repo, component_count, git_suffix, is_absolute, is_repo,
};
use crate::relocate::StepView;
use crate::script::{decimal, decimal_text, push_step, step_views, Script, Step};
use crate::text::{chars_of, chars_start_with, concat, starts_with, str_eq, views};
use crate::validate::{
    chars_are_name_path, commands_prefix, is_command_name, is_name_char, is_name_path, name_char,
};
use vstd::prelude::*;

verus! {

/// The longest name of a repository, in characters.
pub const MAX_NAME_LENGTH: usize = 32;

/// The path without the repository suffix, where it has one.
pub open spec fn without_suffix(s: Seq<char>) -> Seq<char> {
    if is_repo(s) {
        s.subrange(0, s.len() - 4)
    } else {
        s
    }
}

/// The path with the repository suffix, added where it has none.
pub open spec fn suffixed(s: Seq<char>) -> Seq<char> {
    if is_repo(s) {
        s
    } else {
        s + git_suffix()
    }
}

/// Why a path to a repository is refused, or `None`. The first rule that
/// fails, in this order, gives the reason. The limit of 256 characters
/// holds of the path with its suffix.
pub open spec fn path_error(s: Seq<char>) -> Option<ValidationError> {
    if s.len() == 0 {
        Some(ValidationError::EmptyPath)
    } else if s.len() > 256 {
        Some(ValidationError::PathTooLong)
    } else if is_absolute(s) {
        Some(ValidationError::AbsolutePath)
    } else if component_count(s) > 4 {
        Some(ValidationError::TooDeep)
    } else if !is_name_path(without_suffix(s)) {
        Some(ValidationError::InvalidName)
    } else if starts_with(s, commands_prefix()) {
        Some(ValidationError::ReservedFolder)
    } else if !is_repo(s) && s.len() + 4 > 256 {
        Some(ValidationError::PathTooLong)
    } else {
        None
    }
}

/// One name: one or more name characters.
pub open spec fn is_name(s: Seq<char>) -> bool {
    s.len() > 0 && forall|i: int| 0 <= i < s.len() ==> is_name_char(#[trigger] s[i])
}

/// Why the name of a repository is refused, or `None`.
pub open spec fn name_error(s: Seq<char>) -> Option<ValidationError> {
    if !is_name(without_suffix(s)) {
        Some(ValidationError::InvalidRepoName)
    } else if s.len() > 32 {
        Some(ValidationError::RepoNameTooLong)
    } else {
        None
    }
}

/// The folder argument without a separator at its beginning and at its
/// end.
pub open spec fn folder_stem(s: Seq<char>) -> Seq<char> {
    let a = if s.len() > 0 && s[0] == '/' {
        s.subrange(1, s.len() as int)
    } else {
        s
    };
    if a.len() > 0 && a.last() == '/' {
        a.drop_last()
    } else {
        a
    }
}

/// Why a folder is refused, or `None`. `.` is the folder of the registry
/// itself and always accepted.
pub open spec fn folder_error(s: Seq<char>) -> Option<ValidationError> {
    if s.len() == 1 && s[0] == '.' {
        None
    } else if !is_name_path(folder_stem(s)) {
        Some(ValidationError::InvalidFolderName)
    } else if is_absolute(s) {
        Some(ValidationError::AbsolutePath)
    } else if component_count(s) > 4 {
        Some(ValidationError::TooDeep)
    } else {
        None
    }
}

/// Whether a registered repository is shown: without a filter all are; a
/// filter shows those whose path begins with it; `invert` turns either
/// around.
pub open spec fn is_match(name: Seq<char>, filter: Option<Seq<char>>, invert: bool) -> bool {
    match filter {
        None => !invert,
        Some(f) => starts_with(name, f) != invert,
    }
}

/// Checks the path of a repository, and returns it with the suffix.
pub fn parse_path(path: &str) -> (r: Result<String, ValidationError>)
    ensures
        match r {
            Ok(p) => path_error(path@) is None && p@ == suffixed(path@),
            Err(e) => path_error(path@) == Some(e),
        },
{
    let v = chars_of(path);
    let n: usize = v.len();
    if n == 0 {
        return Err(ValidationError::EmptyPath);
    }
    if n > 256 {
        return Err(ValidationError::PathTooLong);
    }
    if v[0] == '/' {
        return Err(ValidationError::AbsolutePath);
    }
    if chars_component_count(&v) > 4 {
        return Err(ValidationError::TooDeep);
    }
    let repo: bool = chars_represent_repo(&v);
    let end: usize = if repo {
        n - 4
    } else {
        n
    };
    assert(v@.subrange(0, end as int) =~= without_suffix(v@));
    if !chars_are_name_path(&v, 0, end) {
        return Err(ValidationError::InvalidName);
    }
    let reserved = chars_of("git-shell-commands/");
    if chars_start_with(&v, &reserved) {
        return Err(ValidationError::ReservedFolder);
    }
    if repo {
        Ok(path.to_string())
    } else if n > 252 {
        Err(ValidationError::PathTooLong)
    } else {
        proof {
            reveal_strlit(".git");
            assert(".git"@ =~= git_suffix());
        }
        Ok(concat(path, ".git"))
    }
}

/// Checks the name of a repository, and returns it with the suffix.
pub fn parse_name(name: &str) -> (r: Result<String, ValidationError>)
    ensures
        match r {
            Ok(p) => name_error(name@) is None && p@ == suffixed(name@),
            Err(e) => name_error(name@) == Some(e),
        },
{
    let v = chars_of(name);
    let n: usize = v.len();
    let repo: bool = chars_represent_repo(&v);
    let end: usize = if repo {
        n - 4
    } else {
        n
    };
    let ghost stem = without_suffix(v@);
    assert(v@.subrange(0, end as int) =~= stem);
    if end == 0 {
        return Err(ValidationError::InvalidRepoName);
    }
    let mut i: usize = 0;
    while i < end
        invariant
            i <= end <= v.len(),
            stem == v@.subrange(0, end as int),
            stem == without_suffix(name@),
            forall|k: int| 0 <= k < i ==> is_name_char(#[trigger] stem[k]),
        decreases end - i,
    {
        if !name_char(v[i]) {
            assert(stem[i as int] == v@[i as int]);
            assert(!is_name_char(stem[i as int]));
            return Err(ValidationError::InvalidRepoName);
        }
        assert(stem[i as int] == v@[i as int]);
        i += 1;
    }
    if n > MAX_NAME_LENGTH {
        return Err(ValidationError::RepoNameTooLong);
    }
    if repo {
        Ok(name.to_string())
    } else {
        proof {
            reveal_strlit(".git");
            assert(".git"@ =~= git_suffix());
        }
        Ok(concat(name, ".git"))
    }
}

/// Checks the folder that a repository is filed under.
pub fn parse_folder(path: &str) -> (r: Result<String, ValidationError>)
    ensures
        match r {
            Ok(p) => folder_error(path@) is None && p@ == path@,
            Err(e) => folder_error(path@) == Some(e),
        },
{
    let v = chars_of(path);
    let n: usize = v.len();
    if n == 1 && v[0] == '.' {
        return Ok(path.to_string());
    }
    let from: usize = if n > 0 && v[0] == '/' {
        1
    } else {
        0
    };
    let to: usize = if n > from && v[n - 1] == '/' {
        n - 1
    } else {
        n
    };
    proof {
        let a = if v@.len() > 0 && v@[0] == '/' {
            v@.subrange(1, n as int)
        } else {
            v@
        };
        assert(a =~= v@.subrange(from as int, n as int));
        if a.len() > 0 {
            assert(a.last() == v@[n - 1]);
        }
        assert(folder_stem(v@) =~= v@.subrange(from as int, to as int));
    }
    if !chars_are_name_path(&v, from, to) {
        return Err(ValidationError::InvalidFolderName);
    }
    if from == 1 {
        return Err(ValidationError::AbsolutePath);
    }
    if chars_component_count(&v) > 4 {
        return Err(ValidationError::TooDeep);
    }
    Ok(path.to_string())
}

/// Checks the name of a command: lower-case letters only.
pub fn parse_command(command: &str) -> (r: Result<String, ValidationError>)
    ensures
        match r {
            Ok(c) => is_command_name(command@) && c@ == command@,
            Err(e) => !is_command_name(command@) && e
                == ValidationError::InvalidCommand,
        },
{
    match validate::parse_command(command) {
        Ok(c) => Ok(c),
        Err(_) => Err(ValidationError::InvalidCommand),
    }
}

/// Whether a registered repository is shown.
pub fn match_repo(repo_name: &str, filter: Option<&str>, invert: bool) -> (r: bool)
    ensures
        r == is_match(
            repo_name@,
            match filter {
                Some(f) => Some(f@),
                None => None,
            },
            invert,
        ),
{
    match filter {
        None => !invert,
        Some(f) => {
            let name = chars_of(repo_name);
            let prefix = chars_of(f);
            chars_start_with(&name, &prefix) != invert
        },
    }
}

/// Those of the first `n` registered repositories that are shown.
pub open spec fn matched_upto(
    lines: Seq<Seq<char>>,
    filter: Option<Seq<char>>,
    invert: bool,
    n: int,
) -> Seq<Seq<char>>
    decreases n,
{
    if n <= 0 {
        Seq::<Seq<char>>::empty()
    } else if is_match(lines[n - 1], filter, invert) {
        matched_upto(lines, filter, invert, n - 1).push(lines[n - 1])
    } else {
        matched_upto(lines, filter, invert, n - 1)
    }
}

/// The line that sums up a listing of the registry.
pub open spec fn registry_summary(count: nat, total: nat) -> Seq<char> {
    if total == 0 {
        "You have no repositories."@
    } else if count == 0 {
        "No results match filter."@
    } else {
        "Matched "@ + decimal_text(count) + " repositories out of "@ + decimal_text(total)
            + " total."@
    }
}

/// The script of a listing of the registry: the repositories shown, each
/// on a line of its own, and the summary.
pub open spec fn registry_script(
    lines: Seq<Seq<char>>,
    filter: Option<Seq<char>>,
    invert: bool,
) -> (Seq<StepView>, int) {
    let found = matched_upto(lines, filter, invert, lines.len() as int);
    (
        lines_upto(found, found.len() as int) + seq![
            Step::<Seq<char>>::Say(registry_summary(found.len(), lines.len())),
        ],
        0,
    )
}

/// Lists the registered repositories.
pub fn registry_list(lines: &Vec<String>, filter: Option<&str>, invert: bool) -> (r: Script)
    ensures
        r@ == registry_script(
            views(lines@),
            match filter {
                Some(f) => Some(f@),
                None => None,
            },
            invert,
        ),
{
    let ghost all = views(lines@);
    let ghost wanted: Option<Seq<char>> = match filter {
        Some(f) => Some(f@),
        None => None,
    };
    let mut steps: Vec<Step<String>> = Vec::new();
    let mut count: usize = 0;
    let mut k: usize = 0;
    assert(step_views(steps@) =~= lines_upto(matched_upto(all, wanted, invert, 0), 0));
    while k < lines.len()
        invariant
            k <= lines.len(),
            all == views(lines@),
            wanted == (match filter {
                Some(f) => Some(f@),
                None => None,
            }),
            count == matched_upto(all, wanted, invert, k as int).len(),
            count <= k,
            step_views(steps@) == lines_upto(
                matched_upto(all, wanted, invert, k as int),
                count as int,
            ),
        decreases lines.len() - k,
    {
        assert(all[k as int] == lines@[k as int]@);
        if match_repo(lines[k].as_str(), filter, invert) {
            let ghost before = matched_upto(all, wanted, invert, k as int);
            push_step(&mut steps, Step::Say(lines[k].clone()));
            count += 1;
            proof {
                let after = matched_upto(all, wanted, invert, k + 1);
                assert(after == before.push(all[k as int]));
                lemma_lines_extend(before, after, count as int - 1);
            }
        }
        k += 1;
    }
    let line: String = if lines.len() == 0 {
        "You have no repositories.".to_string()
    } else if count == 0 {
        "No results match filter.".to_string()
    } else {
        let a = concat("Matched ", decimal(count).as_str());
        let b = concat(a.as_str(), " repositories out of ");
        let c = concat(b.as_str(), decimal(lines.len()).as_str());
        concat(c.as_str(), " total.")
    };
    push_step(&mut steps, Step::Say(line));
    Script { steps, status: 0 }
}

/// The lines of the first `n` paths do not depend on what follows them.
pub proof fn lemma_lines_extend(short: Seq<Seq<char>>, long: Seq<Seq<char>>, n: int)
    requires
        0 <= n <= short.len() <= long.len(),
        forall|i: int| 0 <= i < short.len() ==> short[i] == long[i],
    ensures
        lines_upto(short, n) == lines_upto(long, n),
    decreases n,
{
    if n > 0 {
        lemma_lines_extend(short, long, n - 1);
    }
}

/// The first `n` lines of the registry without those that name `path`.
pub open spec fn without_upto(lines: Seq<Seq<char>>, path: Seq<char>, n: int) -> Seq<Seq<char>>
    decreases n,
{
    if n <= 0 {
        Seq::<Seq<char>>::empty()
    } else if lines[n - 1] == path {
        without_upto(lines, path, n - 1)
    } else {
        without_upto(lines, path, n - 1).push(lines[n - 1])
    }
}

/// The registry after a repository was deleted: every line but those that
/// name its path, in the order they had.
pub fn registry_without(lines: &Vec<String>, path: &str) -> (r: Vec<String>)
    ensures
        views(r@) == without_upto(views(lines@), path@, lines.len() as int),
{
    let mut out: Vec<String> = Vec::new();
    let mut k: usize = 0;
    assert(views(out@) =~= without_upto(views(lines@), path@, 0));
    while k < lines.len()
        invariant
            k <= lines.len(),
            views(out@) == without_upto(views(lines@), path@, k as int),
        decreases lines.len() - k,
    {
        assert(views(lines@)[k as int] == lines@[k as int]@);
        if !str_eq(lines[k].as_str(), path) {
            let ghost before = views(out@);
            out.push(lines[k].clone());
            assert(views(out@) =~= before.push(lines@[k as int]@));
        }
        k += 1;
    }
    out
}

} // verus!

//! Untrusted strings in, safe relative paths out. Every rule here is a
//! statement about the characters of the argument; nothing is read from disk.

use crate::error::ValidationError;
use crate::path::{
    can_be_repo, chars_component_count, chars_have_parent_segment, chars_represent_repo,
    component_count, component_count_upto, component_start, git_suffix, has_parent_segment,
    is_absolute, is_parent_segment_at, is_repo,
};
use crate::text::{chars_of, chars_start_with, concat, starts_with};
use vstd::prelude::*;

verus! {

/// The longest path argument, in characters.
pub const MAX_PATH_LENGTH: usize = 256;

/// The deepest nesting of a repository, in components.
pub const MAX_DEPTH: usize = 4;

/// A character that may stand in the name of a repository or folder.
pub open spec fn is_name_char(c: char) -> bool {
    ('a' <= c && c <= 'z') || ('A' <= c && c <= 'Z') || ('0' <= c && c <= '9') || c == '_' || c
        == '-'
}

/// No empty name lies between positions `i` and `i + 1`.
pub open spec fn single_separator_at(s: Seq<char>, i: int) -> bool {
    !(s[i] == '/' && s[i + 1] == '/')
}

/// One or more names, each of one or more name characters, with a single
/// separator between neighbours and none at either end.
pub open spec fn is_name_path(s: Seq<char>) -> bool {
    &&& s.len() > 0
    &&& s[0] != '/'
    &&& s.last() != '/'
    &&& forall|i: int| 0 <= i < s.len() ==> is_name_char(#[trigger] s[i]) || s[i] == '/'
    &&& forall|i: int| 0 <= i < s.len() - 1 ==> #[trigger] single_separator_at(s, i)
}

/// What is left of a path argument without its optional ending: the
/// repository suffix, or one trailing separator.
pub open spec fn path_stem(s: Seq<char>) -> Seq<char> {
    if is_repo(s) {
        s.subrange(0, s.len() - 4)
    } else if s.len() > 0 && s.last() == '/' {
        s.drop_last()
    } else {
        s
    }
}

/// The written form of a repository or folder path: names separated by
/// single separators, then optionally the repository suffix or a separator.
pub open spec fn is_path_syntax(s: Seq<char>) -> bool {
    is_name_path(path_stem(s))
}

/// The folder that holds the commands, with the separator behind it.
pub open spec fn commands_prefix() -> Seq<char> {
    "git-shell-commands/"@
}

/// The argument `.`, which names the root folder itself.
pub open spec fn is_root_argument(s: Seq<char>) -> bool {
    s.len() == 1 && s[0] == '.'
}

/// Why a path-or-folder argument is refused, or `None` where it is accepted.
/// The first rule that fails, in this order, gives the reason.
pub open spec fn path_or_folder_error(s: Seq<char>) -> Option<ValidationError> {
    if s.len() == 0 {
        Some(ValidationError::EmptyPath)
    } else if s.len() > 256 {
        Some(ValidationError::PathTooLong)
    } else if is_root_argument(s) {
        None
    } else if is_absolute(s) {
        Some(ValidationError::AbsolutePath)
    } else if has_parent_segment(s) {
        Some(ValidationError::Backtracking)
    } else if component_count(s) > 4 {
        Some(ValidationError::TooDeep)
    } else if !is_path_syntax(s) {
        Some(ValidationError::InvalidName)
    } else if starts_with(s, commands_prefix()) {
        Some(ValidationError::ReservedFolder)
    } else {
        None
    }
}

/// The path that an accepted path-or-folder argument stands for: the
/// argument itself, or the empty path for `.`.
pub open spec fn folder_form(s: Seq<char>) -> Seq<char> {
    if is_root_argument(s) {
        Seq::<char>::empty()
    } else {
        s
    }
}

/// A path made to name one repository: refused where it is empty or written
/// as a folder, unchanged where it has the suffix, else with the suffix
/// added, unless that takes it beyond 256 characters.
pub open spec fn with_git_suffix(p: Seq<char>) -> Result<Seq<char>, ValidationError> {
    if !can_be_repo(p) {
        Err(ValidationError::DirectoryNotAllowed)
    } else if is_repo(p) {
        Ok(p)
    } else if p.len() + 4 > 256 {
        Err(ValidationError::PathTooLong)
    } else {
        Ok(p + git_suffix())
    }
}

/// What parsing a repository path gives: the first failing rule, or the
/// accepted path with the suffix on its last segment. The limit of 256
/// characters holds of the path with its suffix.
pub open spec fn repo_path_of(s: Seq<char>) -> Result<Seq<char>, ValidationError> {
    match path_or_folder_error(s) {
        Some(e) => Err(e),
        None => with_git_suffix(folder_form(s)),
    }
}

/// The view of a parse result.
pub open spec fn result_view(r: Result<String, ValidationError>) -> Result<
    Seq<char>,
    ValidationError,
> {
    match r {
        Ok(p) => Ok(p@),
        Err(e) => Err(e),
    }
}

/// A command name: one or more lower-case letters.
pub open spec fn is_command_name(s: Seq<char>) -> bool {
    s.len() > 0 && forall|i: int| 0 <= i < s.len() ==> 'a' <= #[trigger] s[i] && s[i] <= 'z'
}

/// Whether the character may stand in a name.
pub fn name_char(c: char) -> (r: bool)
    ensures
        r == is_name_char(c),
{
    (c >= 'a' && c <= 'z') || (c >= 'A' && c <= 'Z') || (c >= '0' && c <= '9') || c == '_' || c
        == '-'
}

/// Whether the characters from `from` up to `to` are names separated by
/// single separators.
pub fn chars_are_name_path(v: &Vec<char>, from: usize, to: usize) -> (r: bool)
    requires
        from <= to <= v.len(),
    ensures
        r == is_name_path(v@.subrange(from as int, to as int)),
{
    let ghost s = v@.subrange(from as int, to as int);
    if from == to {
        return false;
    }
    if v[from] == '/' || v[to - 1] == '/' {
        assert(s[0] == v@[from as int]);
        assert(s.last() == v@[to - 1]);
        return false;
    }
    let mut i: usize = from;
    while i < to
        invariant
            from <= i <= to <= v.len(),
            s == v@.subrange(from as int, to as int),
            forall|k: int| 0 <= k < i - from ==> is_name_char(#[trigger] s[k]) || s[k] == '/',
            forall|k: int|
                0 <= k < i - from && k < s.len() - 1 ==> #[trigger] single_separator_at(s, k),
        decreases to - i,
    {
        let c: char = v[i];
        assert(s[i - from] == c);
        if !(name_char(c) || c == '/') {
            return false;
        }
        if c == '/' && i + 1 < to && v[i + 1] == '/' {
            assert(s[i - from + 1] == v@[i + 1]);
            assert(!single_separator_at(s, i - from));
            return false;
        }
        assert(i - from < s.len() - 1 ==> single_separator_at(s, i - from)) by {
            if i - from < s.len() - 1 {
                assert(s[i - from + 1] == v@[i + 1]);
            }
        }
        i += 1;
    }
    assert(s[0] == v@[from as int]);
    assert(s.last() == v@[to - 1]);
    true
}

/// Whether the characters are written as a repository or folder path.
pub fn chars_are_path_syntax(v: &Vec<char>) -> (r: bool)
    ensures
        r == is_path_syntax(v@),
{
    let n: usize = v.len();
    if chars_represent_repo(v) {
        assert(v@.subrange(0, n - 4) == path_stem(v@));
        chars_are_name_path(v, 0, n - 4)
    } else if n > 0 && v[n - 1] == '/' {
        assert(v@.subrange(0, n - 1) =~= v@.drop_last());
        chars_are_name_path(v, 0, n - 1)
    } else {
        assert(v@.subrange(0, n as int) =~= v@);
        chars_are_name_path(v, 0, n)
    }
}

/// Checks a path that may name a repository or a folder. `.` names the root
/// folder and gives the empty path; every other accepted argument is
/// returned as written.
pub fn parse_repo_path_or_folder(path: &str) -> (r: Result<String, ValidationError>)
    ensures
        match r {
            Ok(p) => path_or_folder_error(path@) is None && p@ == folder_form(path@),
            Err(e) => path_or_folder_error(path@) == Some(e),
        },
{
    let v = chars_of(path);
    let n: usize = v.len();
    if n == 0 {
        return Err(ValidationError::EmptyPath);
    }
    if n > MAX_PATH_LENGTH {
        return Err(ValidationError::PathTooLong);
    }
    if n == 1 && v[0] == '.' {
        return Ok(String::new());
    }
    if v[0] == '/' {
        return Err(ValidationError::AbsolutePath);
    }
    if chars_have_parent_segment(&v) {
        return Err(ValidationError::Backtracking);
    }
    if chars_component_count(&v) > MAX_DEPTH {
        return Err(ValidationError::TooDeep);
    }
    if !chars_are_path_syntax(&v) {
        return Err(ValidationError::InvalidName);
    }
    let reserved = chars_of("git-shell-commands/");
    if chars_start_with(&v, &reserved) {
        return Err(ValidationError::ReservedFolder);
    }
    Ok(path.to_string())
}

/// Makes a path name one repository: adds the suffix to the last segment
/// where it is missing, and refuses the empty path, a path written as a
/// folder, and a path that the suffix would take beyond 256 characters.
pub fn enforce_git_suffix(path: String) -> (r: Result<String, ValidationError>)
    ensures
        result_view(r) == with_git_suffix(path@),
{
    let v = chars_of(path.as_str());
    let n: usize = v.len();
    if n == 0 || v[n - 1] == '/' {
        Err(ValidationError::DirectoryNotAllowed)
    } else if chars_represent_repo(&v) {
        Ok(path)
    } else if n > MAX_PATH_LENGTH - 4 {
        Err(ValidationError::PathTooLong)
    } else {
        proof {
            reveal_strlit(".git");
            assert(".git"@ =~= git_suffix());
        }
        Ok(concat(path.as_str(), ".git"))
    }
}

/// Checks a path that must name one repository, and returns it with the
/// suffix on its last segment.
pub fn parse_repo_path(path: &str) -> (r: Result<String, ValidationError>)
    ensures
        result_view(r) == repo_path_of(path@),
{
    match parse_repo_path_or_folder(path) {
        Err(e) => Err(e),
        Ok(parsed) => enforce_git_suffix(parsed),
    }
}

/// Checks the name of a command: lower-case letters only.
pub fn parse_command(command: &str) -> (r: Result<String, ValidationError>)
    ensures
        match r {
            Ok(c) => is_command_name(command@) && c@ == command@,
            Err(e) => !is_command_name(command@) && e == (if command@.len() == 0 {
                ValidationError::EmptyCommand
            } else {
                ValidationError::InvalidCommand
            }),
        },
{
    let v = chars_of(command);
    if v.len() == 0 {
        return Err(ValidationError::EmptyCommand);
    }
    let mut i: usize = 0;
    while i < v.len()
        invariant
            i <= v.len(),
            v@ == command@,
            forall|k: int| 0 <= k < i ==> 'a' <= #[trigger] v@[k] && v@[k] <= 'z',
        decreases v.len() - i,
    {
        let c: char = v[i];
        if !(c >= 'a' && c <= 'z') {
            assert(command@[i as int] == c);
            return Err(ValidationError::InvalidCommand);
        }
        i += 1;
    }
    Ok(command.to_string())
}

/// A character that an accepted repository path can hold at position `i`:
/// a name character, a separator, or a character of the suffix at its end.
pub open spec fn is_allowed_at(s: Seq<char>, i: int) -> bool {
    is_name_char(s[i]) || s[i] == '/' || (is_repo(s) && s.len() - 4 <= i)
}

/// A written path holds allowed characters only.
pub proof fn lemma_syntax_allows(s: Seq<char>, i: int)
    requires
        is_path_syntax(s),
        0 <= i < s.len(),
    ensures
        is_allowed_at(s, i),
{
    let stem = path_stem(s);
    if i < stem.len() {
        assert(stem[i] == s[i]);
    }
}

/// Whatever is refused as a path or folder is refused as a repository path,
/// and a repository path is refused where it is empty, longer than 256
/// characters with its suffix, absolute, holds a `..` segment, has more
/// than 4 components, holds a character that is not allowed, or lies in the
/// commands folder.
pub proof fn law_repo_path_rejections(s: Seq<char>)
    ensures
        path_or_folder_error(s) is Some ==> repo_path_of(s) is Err,
        s.len() == 0 ==> repo_path_of(s) is Err,
        s.len() > 256 ==> repo_path_of(s) is Err,
        !is_repo(s) && s.len() + 4 > 256 ==> repo_path_of(s) is Err,
        is_absolute(s) ==> repo_path_of(s) is Err,
        has_parent_segment(s) ==> repo_path_of(s) is Err,
        component_count(s) > 4 ==> repo_path_of(s) is Err,
        (exists|i: int| 0 <= i < s.len() && !is_allowed_at(s, i)) ==> repo_path_of(s) is Err,
        starts_with(s, commands_prefix()) ==> repo_path_of(s) is Err,
{
    if repo_path_of(s) is Ok {
        assert(!is_root_argument(s));
        assert(is_path_syntax(s));
        assert forall|i: int| 0 <= i < s.len() implies is_allowed_at(s, i) by {
            lemma_syntax_allows(s, i);
        }
    }
}

/// An accepted repository path is relative, free of `..`, at most 4
/// components deep, outside the commands folder, carries the suffix, and
/// has no more than 256 characters.
pub proof fn law_repo_path_is_safe(s: Seq<char>)
    requires
        repo_path_of(s) is Ok,
    ensures
        is_repo(repo_path_of(s)->Ok_0),
        !is_absolute(repo_path_of(s)->Ok_0),
        !has_parent_segment(repo_path_of(s)->Ok_0),
        component_count(repo_path_of(s)->Ok_0) <= 4,
        !starts_with(repo_path_of(s)->Ok_0, commands_prefix()),
        is_path_syntax(repo_path_of(s)->Ok_0),
        repo_path_of(s)->Ok_0.len() <= 256,
{
    if is_repo(s) {
        assert(repo_path_of(s)->Ok_0 == s);
    } else {
        lemma_suffix_keeps_checks(s);
    }
}

/// Components that begin before `n` are counted alike in two paths that
/// agree on where components begin.
pub proof fn lemma_count_agrees(a: Seq<char>, b: Seq<char>, n: int)
    requires
        forall|i: int| 0 <= i < n ==> component_start(a, i) == component_start(b, i),
    ensures
        component_count_upto(a, n) == component_count_upto(b, n),
    decreases n,
{
    if n > 0 {
        lemma_count_agrees(a, b, n - 1);
    }
}

/// Positions from `m` on that begin no component add nothing to the count.
pub proof fn lemma_count_tail(a: Seq<char>, m: int, n: int)
    requires
        0 <= m <= n,
        forall|i: int| m <= i < n ==> !component_start(a, i),
    ensures
        component_count_upto(a, n) == component_count_upto(a, m),
    decreases n - m,
{
    if m < n {
        lemma_count_tail(a, m, n - 1);
    }
}

/// Adding the suffix to an accepted path without it leaves every check as
/// it was.
pub proof fn lemma_suffix_keeps_checks(x: Seq<char>)
    requires
        repo_path_of(x) is Ok,
        !is_repo(x),
    ensures
        !is_absolute(x + git_suffix()),
        !has_parent_segment(x + git_suffix()),
        component_count(x + git_suffix()) == component_count(x),
        is_path_syntax(x + git_suffix()),
        is_repo(x + git_suffix()),
        can_be_repo(x + git_suffix()),
        !starts_with(x + git_suffix(), commands_prefix()),
        !is_root_argument(x + git_suffix()),
        repo_path_of(x) == Ok::<Seq<char>, ValidationError>(x + git_suffix()),
{
    let y = x + git_suffix();
    let n = x.len() as int;
    assert(!is_root_argument(x));
    assert(x.len() > 0 && x.last() != '/');
    assert(path_stem(x) == x);
    assert(is_name_path(x));
    assert(y.subrange(y.len() - 4, y.len() as int) =~= git_suffix());
    assert(y.subrange(0, y.len() - 4) =~= x);
    assert(is_repo(y));
    assert(y[0] == x[0]);
    assert(y.last() == 't');
    assert forall|i: int| 0 <= i < n implies #[trigger] y[i] == x[i] && y[i] != '.' by {
        assert(is_name_char(x[i]) || x[i] == '/');
    }
    assert forall|i: int| !is_parent_segment_at(y, i) by {
        if is_parent_segment_at(y, i) {
            if i < n {
                assert(y[i] == x[i]);
            } else if i == n {
                assert(y[i + 1] == 'g');
            } else {
                assert(y[i] == git_suffix()[i - n]);
            }
        }
    }
    assert forall|i: int| 0 <= i < n implies component_start(y, i) == component_start(x, i) by {
        assert(y[i] == x[i]);
        if i > 0 {
            assert(y[i - 1] == x[i - 1]);
        }
    }
    assert forall|i: int| n <= i < y.len() implies !component_start(y, i) by {
        if i == n {
            assert(y[i - 1] == x[n - 1]);
        } else {
            assert(y[i - 1] == git_suffix()[i - 1 - n]);
        }
    }
    lemma_count_agrees(y, x, n);
    lemma_count_tail(y, n, y.len() as int);
    assert(!starts_with(y, commands_prefix())) by {
        reveal_strlit("git-shell-commands/");
        let r = commands_prefix();
        if starts_with(y, r) {
            assert(y.subrange(0, 19) == r);
            if n >= 19 {
                assert(x.subrange(0, 19) =~= y.subrange(0, 19));
                assert(starts_with(x, r));
            } else {
                assert(y.subrange(0, 19)[n] == r[n]);
                assert(y[n] == '.');
            }
        }
    }
}

/// A valid path without the suffix and the same path with it parse to the
/// same repository path.
pub proof fn law_suffix_is_optional(x: Seq<char>)
    requires
        repo_path_of(x) is Ok,
        !is_repo(x),
    ensures
        repo_path_of(x + git_suffix()) == repo_path_of(x),
{
    lemma_suffix_keeps_checks(x);
}

/// Parsing what parsing returned changes nothing.
pub proof fn law_suffix_is_idempotent(x: Seq<char>)
    requires
        repo_path_of(x) is Ok,
    ensures
        repo_path_of(repo_path_of(x)->Ok_0) == repo_path_of(x),
{
    if !is_repo(x) {
        lemma_suffix_keeps_checks(x);
    }
}

} // verus!

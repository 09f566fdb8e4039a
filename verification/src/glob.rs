//! Match patterns: untrusted pattern strings are checked and rewritten into
//! a normal form, then compiled and matched by the `globset` crate with
//! separators taken literally, so that no wildcard crosses a folder boundary.

use crate::error::ValidationError;
use crate::path::{
    chars_have_parent_segment, chars_represent_repo, git_suffix, has_parent_segment, is_absolute,
    is_repo,
};
use crate::text::{chars_of, concat, ends_with, slice_of};
use crate::validate::is_root_argument;
use globset::GlobBuilder;
use vstd::prelude::*;

verus! {

/// The longest pattern argument, in characters.
pub const MAX_GLOB_LENGTH: usize = 64;

/// What `globset` reports when it builds `pattern` with the given separator
/// rule: `None` where the pattern builds, else the text of its error. The
/// crate asks the platform what a separator is; this library builds for
/// Unix only, where that is `/` and nothing else.
pub uninterp spec fn glob_error(pattern: Seq<char>, literal_separator: bool) -> Option<Seq<char>>;

/// What `globset` answers when the matcher compiled from `pattern` with the
/// given separator rule is asked about `path`; `None` where the pattern does
/// not build.
pub uninterp spec fn glob_match(
    pattern: Seq<char>,
    literal_separator: bool,
    path: Seq<char>,
) -> Option<bool>;

/// Calls `globset::GlobBuilder::build` on the pattern with
/// `literal_separator` set as given. The contract claims that the outcome is
/// a function of the two arguments: the error's text as the crate prints it,
/// or nothing where the pattern builds. Nothing is claimed about which
/// patterns build. No longer pattern is ever handed to it than to the
/// matcher.
#[verifier::external_body]
fn build_error(pattern: &str, literal_separator: bool) -> (r: Option<String>)
    requires
        pattern@.len() <= 128,
    ensures
        r is Some == glob_error(pattern@, literal_separator) is Some,
        r matches Some(m) ==> glob_error(pattern@, literal_separator) == Some(m@),
{
    match GlobBuilder::new(pattern).literal_separator(literal_separator).build() {
        Ok(_) => None,
        Err(e) => Some(e.to_string()),
    }
}

/// Builds the pattern as `build_error` does, compiles it with
/// `globset::Glob::compile_matcher` and asks `globset::GlobMatcher::is_match`
/// about `path`. The contract claims that the answer is a function of the
/// three arguments. Nothing is claimed about which paths match. The
/// pattern is kept short so that its automaton stays far below the size at
/// which the crate's matcher refuses to compile.
#[verifier::external_body]
fn match_glob(pattern: &str, literal_separator: bool, path: &str) -> (r: Option<bool>)
    requires
        pattern@.len() <= 128,
    ensures
        r == glob_match(pattern@, literal_separator, path@),
{
    match GlobBuilder::new(pattern).literal_separator(literal_separator).build() {
        Ok(glob) => Some(glob.compile_matcher().is_match(path)),
        Err(_) => None,
    }
}

/// The pattern that matches every repository at any depth.
pub open spec fn everything_pattern() -> Seq<char> {
    seq!['*', '*', '/', '*']
}

/// The two stars that end a pattern for a whole subtree.
pub open spec fn subtree_ending() -> Seq<char> {
    seq!['*', '*']
}

/// Why a pattern argument is refused before it is compiled, or `None`.
pub open spec fn glob_argument_error(g: Seq<char>) -> Option<ValidationError> {
    if g.len() == 0 {
        Some(ValidationError::EmptyGlob)
    } else if g.len() > 64 {
        Some(ValidationError::GlobTooLong)
    } else if is_absolute(g) {
        Some(ValidationError::AbsolutePath)
    } else if has_parent_segment(g) {
        Some(ValidationError::Backtracking)
    } else {
        None
    }
}

/// The normal form of a pattern argument: `.` is everything at any depth; a
/// pattern with the repository suffix is taken as written; a trailing
/// separator is dropped and the folder itself is meant; trailing `**` gets a
/// separator behind it and means the folder's subtree; any other name is a
/// repository name and gets the suffix.
pub open spec fn normal_glob(g: Seq<char>) -> Seq<char> {
    if is_root_argument(g) {
        everything_pattern()
    } else if is_repo(g) {
        g
    } else if g.len() > 0 && g.last() == '/' {
        g.drop_last()
    } else if ends_with(g, subtree_ending()) {
        g.push('/')
    } else {
        g + git_suffix()
    }
}

/// A checked pattern in normal form.
#[derive(Debug, PartialEq, Eq)]
pub struct GlobPattern {
    text: String,
}

impl View for GlobPattern {
    type V = Seq<char>;

    closed spec fn view(&self) -> Seq<char> {
        self.text@
    }
}

impl Clone for GlobPattern {
    fn clone(&self) -> (r: Self)
        ensures
            r@ == self@,
    {
        proof {
            use_type_invariant(self);
        }
        GlobPattern { text: self.text.clone() }
    }
}

impl GlobPattern {
    #[verifier::type_invariant]
    spec fn bounded(&self) -> bool {
        self.text@.len() <= 68
    }

    /// The path is one that this pattern matches, separators taken
    /// literally.
    pub open spec fn admits(&self, path: Seq<char>) -> bool {
        glob_match(self@, true, path) == Some(true)
    }

    /// The pattern's normal form.
    pub fn as_str(&self) -> (r: &str)
        ensures
            r@ == self@,
    {
        self.text.as_str()
    }

    /// Whether the pattern matches the path.
    pub fn is_match(&self, path: &str) -> (r: bool)
        ensures
            r == self.admits(path@),
    {
        proof {
            use_type_invariant(self);
        }
        match match_glob(self.text.as_str(), true, path) {
            Some(answer) => answer,
            None => false,
        }
    }
}

/// Checks a pattern argument, rewrites it into its normal form and has it
/// compiled with separators taken literally.
pub fn parse_repo_glob(glob: &str) -> (r: Result<GlobPattern, ValidationError>)
    ensures
        match r {
            Ok(p) => {
                &&& glob_argument_error(glob@) is None
                &&& glob_error(normal_glob(glob@), true) is None
                &&& p@ == normal_glob(glob@)
            },
            Err(e) => match glob_argument_error(glob@) {
                Some(refusal) => e == refusal,
                None => {
                    &&& glob_error(normal_glob(glob@), true) matches Some(why)
                    &&& e matches ValidationError::BadGlob(m)
                    &&& m@ == why
                },
            },
        },
{
    let v = chars_of(glob);
    let n: usize = v.len();
    if n == 0 {
        return Err(ValidationError::EmptyGlob);
    }
    if n > MAX_GLOB_LENGTH {
        return Err(ValidationError::GlobTooLong);
    }
    if v[0] == '/' {
        return Err(ValidationError::AbsolutePath);
    }
    if chars_have_parent_segment(&v) {
        return Err(ValidationError::Backtracking);
    }
    let text: String = if n == 1 && v[0] == '.' {
        proof {
            reveal_strlit("**/*");
            assert("**/*"@ =~= everything_pattern());
        }
        "**/*".to_string()
    } else if chars_represent_repo(&v) {
        glob.to_string()
    } else if v[n - 1] == '/' {
        assert(glob@.subrange(0, n - 1) =~= glob@.drop_last());
        slice_of(glob, 0, n - 1)
    } else if n >= 2 && v[n - 1] == '*' && v[n - 2] == '*' {
        proof {
            reveal_strlit("/");
            assert("/"@ =~= seq!['/']);
            assert(glob@.subrange(n - 2, n as int) =~= subtree_ending());
            assert(glob@ + seq!['/'] =~= glob@.push('/'));
        }
        concat(glob, "/")
    } else {
        proof {
            reveal_strlit(".git");
            assert(".git"@ =~= git_suffix());
            if ends_with(glob@, subtree_ending()) {
                assert(glob@.subrange(n - 2, n as int)[0] == '*');
                assert(glob@.subrange(n - 2, n as int)[1] == '*');
            }
        }
        concat(glob, ".git")
    };
    match build_error(text.as_str(), true) {
        Some(why) => Err(ValidationError::BadGlob(why)),
        None => Ok(GlobPattern { text }),
    }
}

/// Patterns of which any one may match.
#[derive(Debug, Clone, PartialEq, Eq)]
pub struct PatternSet {
    patterns: Vec<GlobPattern>,
}

impl PatternSet {
    /// The patterns, in the order given.
    pub closed spec fn patterns(&self) -> Seq<GlobPattern> {
        self.patterns@
    }

    /// Some pattern of the set matches the path. The empty set matches
    /// nothing.
    pub open spec fn admits(&self, path: Seq<char>) -> bool {
        exists|i: int| 0 <= i < self.patterns().len() && #[trigger] self.patterns()[i].admits(path)
    }

    /// How many patterns the set holds.
    pub fn len(&self) -> (r: usize)
        ensures
            r == self.patterns().len(),
    {
        self.patterns.len()
    }

    /// Whether the set holds no pattern.
    pub fn is_empty(&self) -> (r: bool)
        ensures
            r == (self.patterns().len() == 0),
    {
        self.patterns.len() == 0
    }

    /// Whether any pattern of the set matches the path.
    pub fn is_match(&self, path: &str) -> (r: bool)
        ensures
            r == self.admits(path@),
    {
        let mut i: usize = 0;
        while i < self.patterns.len()
            invariant
                i <= self.patterns.len(),
                forall|k: int| 0 <= k < i ==> !(#[trigger] self.patterns()[k]).admits(path@),
            decreases self.patterns.len() - i,
        {
            if self.patterns[i].is_match(path) {
                assert(self.patterns()[i as int].admits(path@));
                return true;
            }
            i += 1;
        }
        false
    }
}

/// The set of the given patterns.
pub fn make_glob_set(globs: Vec<GlobPattern>) -> (r: PatternSet)
    ensures
        r.patterns() == globs@,
{
    PatternSet { patterns: globs }
}

} // verus!

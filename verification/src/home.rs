//! Where things lie on disk: the repository home of the operator, the
//! staging area beside it, and the path that a place and a relative path name.

use crate::path::{is_absolute, join_path};
use crate::plan::join;
use crate::script::Place;
use crate::text::{chars_of, concat};
use users::get_current_username;
use vstd::prelude::*;

verus! {

/// The directory that holds the repository homes of all operators.
pub const BASE_REPO_PATH: &'static str = "/srv/repos";

/// What is added to the path of a repository home to name its staging
/// area, which lies beside it.
pub const STAGING_SUFFIX: &'static str = ".tmp";

/// The repository home of the operator with the given name.
pub open spec fn home_of(username: Seq<char>) -> Seq<char> {
    if is_absolute(username) {
        username
    } else {
        "/srv/repos"@ + "/"@ + username
    }
}

/// The staging area of a repository home: a directory beside it, so that
/// nothing staged is ever part of the physical tree.
pub open spec fn staging_of(repo_home: Seq<char>) -> Seq<char> {
    repo_home + ".tmp"@
}

/// The path on disk that a place and a relative path name: visible paths
/// are relative to the working directory, physical ones lie in the
/// repository home, staged ones in its staging area.
pub open spec fn located(place: Place, path: Seq<char>, repo_home: Seq<char>) -> Seq<char> {
    match place {
        Place::Visible => path,
        Place::Physical => join_path(repo_home, path),
        Place::Staging => join_path(staging_of(repo_home), path),
    }
}

/// Asks `users::get_current_username` for the name of the user that runs
/// the process, and hands it on where it is valid UTF-8. The answer comes
/// from the system's user database, so nothing is claimed about it.
#[verifier::external_body]
fn current_username() -> (r: Option<String>) {
    match get_current_username() {
        Some(name) => name.into_string().ok(),
        None => None,
    }
}

/// The repository home of the operator with the given name.
pub fn repo_home_for(username: &str) -> (r: String)
    ensures
        r@ == home_of(username@),
{
    let v = chars_of(username);
    if v.len() > 0 && v[0] == '/' {
        username.to_string()
    } else {
        let base = concat(BASE_REPO_PATH, "/");
        concat(base.as_str(), username)
    }
}

/// The repository home of the user that runs the process, or `None` where
/// the system knows no name for that user.
pub fn get_repo_home() -> (r: Option<String>)
    ensures
        r matches Some(home) ==> exists|name: Seq<char>| home@ == home_of(name),
{
    match current_username() {
        Some(name) => {
            let home = repo_home_for(name.as_str());
            assert(home@ == home_of(name@));
            Some(home)
        },
        None => None,
    }
}

/// The staging area of a repository home.
pub fn staging_home(repo_home: &str) -> (r: String)
    ensures
        r@ == staging_of(repo_home@),
{
    concat(repo_home, STAGING_SUFFIX)
}

/// The path on disk that a place and a relative path name.
pub fn locate(place: Place, path: &str, repo_home: &str) -> (r: String)
    ensures
        r@ == located(place, path@, repo_home@),
{
    match place {
        Place::Visible => path.to_string(),
        Place::Physical => join(repo_home, path),
        Place::Staging => {
            let staging = staging_home(repo_home);
            join(staging.as_str(), path)
        },
    }
}

} // verus!

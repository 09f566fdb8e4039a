use commands::error::ValidationError;
use commands::glob::{make_glob_set, parse_repo_glob};

#[test]
fn glob_root_argument_matches_any_depth() {
    let g = parse_repo_glob(".").unwrap();
    assert_eq!(g.as_str(), "**/*");
    assert!(g.is_match("a.git"));
    assert!(g.is_match("team/deep/a.git"));
}

#[test]
fn glob_bare_name_is_a_repository() {
    let g = parse_repo_glob("alpha").unwrap();
    assert_eq!(g.as_str(), "alpha.git");
    assert!(g.is_match("alpha.git"));
    assert!(!g.is_match("alpha"));
    assert!(!g.is_match("team/alpha.git"));
}

#[test]
fn glob_with_suffix_is_kept() {
    let g = parse_repo_glob("team/*.git").unwrap();
    assert_eq!(g.as_str(), "team/*.git");
    assert!(g.is_match("team/a.git"));
    assert!(!g.is_match("team/sub/a.git"));
}

#[test]
fn glob_trailing_separator_names_the_folder() {
    let g = parse_repo_glob("team/").unwrap();
    assert_eq!(g.as_str(), "team");
    assert!(g.is_match("team"));
    assert!(!g.is_match("team/a.git"));
}

#[test]
fn glob_trailing_stars_get_a_separator() {
    let g = parse_repo_glob("team/**").unwrap();
    assert_eq!(g.as_str(), "team/**/");
}

#[test]
fn glob_star_does_not_cross_folders() {
    let g = parse_repo_glob("*").unwrap();
    assert_eq!(g.as_str(), "*.git");
    assert!(g.is_match("a.git"));
    assert!(!g.is_match("team/a.git"));
}

#[test]
fn glob_rejections() {
    assert_eq!(parse_repo_glob("").unwrap_err(), ValidationError::EmptyGlob);
    let long = "a".repeat(65);
    assert_eq!(parse_repo_glob(&long).unwrap_err(), ValidationError::GlobTooLong);
    assert!(parse_repo_glob(&"a".repeat(64)).is_ok());
    assert_eq!(parse_repo_glob("/etc/*").unwrap_err(), ValidationError::AbsolutePath);
    assert_eq!(parse_repo_glob("../x").unwrap_err(), ValidationError::Backtracking);
    assert_eq!(parse_repo_glob("a/../x").unwrap_err(), ValidationError::Backtracking);
}

#[test]
fn glob_that_does_not_compile() {
    match parse_repo_glob("a[") {
        Err(ValidationError::BadGlob(why)) => {
            assert!(why.contains("unclosed character class"), "{}", why);
            assert_eq!(ValidationError::BadGlob(why.clone()).message(), why);
        }
        other => panic!("unexpected {:?}", other),
    }
}

#[test]
fn glob_set_matches_any_member() {
    let set = make_glob_set(vec![
        parse_repo_glob("alpha").unwrap(),
        parse_repo_glob("team/*").unwrap(),
    ]);
    assert_eq!(set.len(), 2);
    assert!(!set.is_empty());
    assert!(set.is_match("alpha.git"));
    assert!(set.is_match("team/x.git"));
    assert!(!set.is_match("beta.git"));
}

#[test]
fn glob_set_empty_matches_nothing() {
    let set = make_glob_set(vec![]);
    assert!(set.is_empty());
    assert!(!set.is_match("alpha.git"));
}

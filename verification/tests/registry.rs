use commands::error::ValidationError;
use commands::registry::{
    match_repo, parse_command, parse_folder, parse_name, parse_path, registry_list,
    registry_without,
};
use commands::script::{Script, Step};

fn ok(text: &str) -> Result<String, ValidationError> {
    Ok(text.to_string())
}

fn strings(texts: &[&str]) -> Vec<String> {
    texts.iter().map(|t| t.to_string()).collect()
}

fn say(line: &str) -> Step<String> {
    Step::Say(line.to_string())
}

#[test]
fn registry_path() {
    assert_eq!(parse_path("a"), ok("a.git"));
    assert_eq!(parse_path("x/a.git"), ok("x/a.git"));
    assert_eq!(parse_path(""), Err(ValidationError::EmptyPath));
    assert_eq!(parse_path(&"a".repeat(257)), Err(ValidationError::PathTooLong));
    assert_eq!(parse_path(&"a".repeat(253)), Err(ValidationError::PathTooLong));
    assert_eq!(parse_path(&"a".repeat(252)), Ok(format!("{}.git", "a".repeat(252))));
    assert_eq!(parse_path(&format!("{}.git", "a".repeat(252))).map(|p| p.len()), Ok(256));
    assert_eq!(parse_path("/a"), Err(ValidationError::AbsolutePath));
    assert_eq!(parse_path("a/b/c/d/e"), Err(ValidationError::TooDeep));
    assert_eq!(parse_path("a/"), Err(ValidationError::InvalidName));
    assert_eq!(parse_path("a/../b"), Err(ValidationError::InvalidName));
    assert_eq!(parse_path("."), Err(ValidationError::InvalidName));
    assert_eq!(parse_path("git-shell-commands/a"), Err(ValidationError::ReservedFolder));
}

#[test]
fn registry_name() {
    assert_eq!(parse_name("a"), ok("a.git"));
    assert_eq!(parse_name("a.git"), ok("a.git"));
    assert_eq!(parse_name(""), Err(ValidationError::InvalidRepoName));
    assert_eq!(parse_name(".git"), Err(ValidationError::InvalidRepoName));
    assert_eq!(parse_name("x/a"), Err(ValidationError::InvalidRepoName));
    assert_eq!(parse_name("a b"), Err(ValidationError::InvalidRepoName));
    assert_eq!(parse_name(&"a".repeat(32)), Ok(format!("{}.git", "a".repeat(32))));
    assert_eq!(parse_name(&"a".repeat(33)), Err(ValidationError::RepoNameTooLong));
    assert_eq!(parse_name(&format!("{}.git", "a".repeat(29))), Err(ValidationError::RepoNameTooLong));
    assert_eq!(parse_name(&"!".repeat(40)), Err(ValidationError::InvalidRepoName));
}

#[test]
fn registry_folder() {
    assert_eq!(parse_folder("."), ok("."));
    assert_eq!(parse_folder("a"), ok("a"));
    assert_eq!(parse_folder("a/b/"), ok("a/b/"));
    assert_eq!(parse_folder("a/b/c/d"), ok("a/b/c/d"));
    assert_eq!(parse_folder("a/b/c/d/e"), Err(ValidationError::TooDeep));
    assert_eq!(parse_folder("/a"), Err(ValidationError::AbsolutePath));
    assert_eq!(parse_folder("/a/"), Err(ValidationError::AbsolutePath));
    assert_eq!(parse_folder("/"), Err(ValidationError::InvalidFolderName));
    assert_eq!(parse_folder(""), Err(ValidationError::InvalidFolderName));
    assert_eq!(parse_folder("a//b"), Err(ValidationError::InvalidFolderName));
    assert_eq!(parse_folder("a.git"), Err(ValidationError::InvalidFolderName));
    assert_eq!(parse_folder(".."), Err(ValidationError::InvalidFolderName));
}

#[test]
fn registry_command() {
    assert_eq!(parse_command("help"), ok("help"));
    assert_eq!(parse_command(""), Err(ValidationError::InvalidCommand));
    assert_eq!(parse_command("Help"), Err(ValidationError::InvalidCommand));
}

#[test]
fn registry_matching() {
    assert!(match_repo("team/a.git", None, false));
    assert!(!match_repo("team/a.git", None, true));
    assert!(match_repo("team/a.git", Some("team"), false));
    assert!(!match_repo("team/a.git", Some("team"), true));
    assert!(!match_repo("other/a.git", Some("team"), false));
    assert!(match_repo("other/a.git", Some("team"), true));
}

#[test]
fn registry_listing() {
    let lines = strings(&["team/a.git", "b.git", "team/c.git"]);
    assert_eq!(
        registry_list(&lines, Some("team"), false),
        Script {
            steps: vec![
                say("team/a.git"),
                say("team/c.git"),
                say("Matched 2 repositories out of 3 total."),
            ],
            status: 0
        }
    );
    assert_eq!(
        registry_list(&lines, Some("zzz"), false),
        Script { steps: vec![say("No results match filter.")], status: 0 }
    );
    assert_eq!(
        registry_list(&vec![], None, false),
        Script { steps: vec![say("You have no repositories.")], status: 0 }
    );
    assert_eq!(registry_list(&lines, None, false).steps.len(), 4);
}

#[test]
fn registry_forgets_a_deleted_repository() {
    let lines = strings(&["a.git", "b.git", "a.git", "c.git"]);
    assert_eq!(registry_without(&lines, "a.git"), strings(&["b.git", "c.git"]));
    assert_eq!(registry_without(&lines, "z.git"), lines);
}

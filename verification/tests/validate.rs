use commands::error::ValidationError;
use commands::path::{can_represent_repo, represents_repo};
use commands::validate::{
    enforce_git_suffix, parse_command, parse_repo_path, parse_repo_path_or_folder,
};

fn ok(text: &str) -> Result<String, ValidationError> {
    Ok(text.to_string())
}

#[test]
fn repo_path_gets_suffix() {
    assert_eq!(parse_repo_path("alpha"), ok("alpha.git"));
    assert_eq!(parse_repo_path("team/alpha"), ok("team/alpha.git"));
    assert_eq!(parse_repo_path("a/b/c/d"), ok("a/b/c/d.git"));
    assert_eq!(parse_repo_path("A-1_z"), ok("A-1_z.git"));
}

#[test]
fn repo_path_keeps_suffix() {
    assert_eq!(parse_repo_path("alpha.git"), ok("alpha.git"));
    assert_eq!(parse_repo_path("team/alpha.git"), ok("team/alpha.git"));
}

#[test]
fn repo_path_with_and_without_suffix_agree() {
    for name in ["alpha", "team/alpha", "a/b/c/d", "x_y-z"] {
        let with = format!("{}.git", name);
        assert_eq!(parse_repo_path(name), parse_repo_path(&with));
        assert_eq!(parse_repo_path(name), ok(&with));
    }
}

#[test]
fn repo_path_parsing_is_idempotent() {
    let once = parse_repo_path("team/alpha").unwrap();
    assert_eq!(parse_repo_path(&once), Ok(once.clone()));
}

#[test]
fn repo_path_rejects_empty() {
    assert_eq!(parse_repo_path(""), Err(ValidationError::EmptyPath));
}

#[test]
fn repo_path_rejects_more_than_256_characters() {
    let long = "a".repeat(257);
    assert_eq!(parse_repo_path(&long), Err(ValidationError::PathTooLong));
    let longest = format!("{}.git", "a".repeat(252));
    assert_eq!(longest.len(), 256);
    assert_eq!(parse_repo_path(&longest), Ok(longest.clone()));
    assert_eq!(parse_repo_path(&"a".repeat(252)), Ok(longest));
}

#[test]
fn repo_path_limit_holds_with_the_suffix() {
    for n in [253, 254, 255, 256] {
        let name = "a".repeat(n);
        assert_eq!(parse_repo_path(&name), Err(ValidationError::PathTooLong), "{}", n);
        assert_eq!(parse_repo_path_or_folder(&name), Ok(name.clone()));
        assert_eq!(enforce_git_suffix(name), Err(ValidationError::PathTooLong));
    }
    for n in [1, 100, 252] {
        let parsed = parse_repo_path(&"a".repeat(n)).unwrap();
        assert!(parsed.len() <= 256);
    }
}

#[test]
fn repo_path_suffix_is_optional_up_to_the_length_limit() {
    for n in [1, 251, 252, 253, 256] {
        let name = "a".repeat(n);
        if parse_repo_path(&name).is_ok() {
            assert_eq!(parse_repo_path(&format!("{}.git", name)), parse_repo_path(&name));
        }
    }
    assert!(parse_repo_path(&"a".repeat(252)).is_ok());
    assert!(parse_repo_path(&"a".repeat(253)).is_err());
}

#[test]
fn repo_path_rejects_absolute() {
    assert_eq!(parse_repo_path("/etc/passwd"), Err(ValidationError::AbsolutePath));
    assert_eq!(parse_repo_path("/"), Err(ValidationError::AbsolutePath));
}

#[test]
fn repo_path_rejects_parent_segments() {
    assert_eq!(parse_repo_path(".."), Err(ValidationError::Backtracking));
    assert_eq!(parse_repo_path("../x"), Err(ValidationError::Backtracking));
    assert_eq!(parse_repo_path("a/../x"), Err(ValidationError::Backtracking));
    assert_eq!(parse_repo_path("a/.."), Err(ValidationError::Backtracking));
    assert_eq!(parse_repo_path("a/..b"), Err(ValidationError::InvalidName));
}

#[test]
fn repo_path_rejects_more_than_4_segments() {
    assert_eq!(parse_repo_path("a/b/c/d/e"), Err(ValidationError::TooDeep));
    assert_eq!(parse_repo_path("a/b/c/d/e.git"), Err(ValidationError::TooDeep));
    assert!(parse_repo_path("a/b/c/d").is_ok());
}

#[test]
fn repo_path_rejects_disallowed_characters() {
    for bad in ["a b", "a.b", "a$", "é", "a//b", "a/./b", "./a", "a.git.git", "a.gitx", ".git", "a\n"] {
        assert_eq!(parse_repo_path(bad), Err(ValidationError::InvalidName), "{:?}", bad);
    }
}

#[test]
fn repo_path_rejects_the_commands_folder() {
    assert_eq!(parse_repo_path("git-shell-commands/x"), Err(ValidationError::ReservedFolder));
    assert_eq!(parse_repo_path("git-shell-commands/a/b.git"), Err(ValidationError::ReservedFolder));
    assert_eq!(parse_repo_path("git-shell-commands"), ok("git-shell-commands.git"));
    assert_eq!(parse_repo_path("git-shell-commandsx/a"), ok("git-shell-commandsx/a.git"));
}

#[test]
fn repo_path_rejects_folders() {
    assert_eq!(parse_repo_path("team/"), Err(ValidationError::DirectoryNotAllowed));
    assert_eq!(parse_repo_path("."), Err(ValidationError::DirectoryNotAllowed));
}

#[test]
fn folder_root_argument() {
    assert_eq!(parse_repo_path_or_folder("."), ok(""));
}

#[test]
fn folder_is_returned_as_written() {
    assert_eq!(parse_repo_path_or_folder("team/"), ok("team/"));
    assert_eq!(parse_repo_path_or_folder("team"), ok("team"));
    assert_eq!(parse_repo_path_or_folder("team/a.git"), ok("team/a.git"));
    assert_eq!(parse_repo_path_or_folder("a/b/c/d/"), ok("a/b/c/d/"));
    assert_eq!(parse_repo_path_or_folder("a/b/c/d/e/"), Err(ValidationError::TooDeep));
    assert_eq!(parse_repo_path_or_folder("team//"), Err(ValidationError::InvalidName));
}

#[test]
fn suffix_is_enforced() {
    assert_eq!(enforce_git_suffix("a".to_string()), ok("a.git"));
    assert_eq!(enforce_git_suffix("a.git".to_string()), ok("a.git"));
    assert_eq!(enforce_git_suffix("x/a".to_string()), ok("x/a.git"));
    assert_eq!(enforce_git_suffix("".to_string()), Err(ValidationError::DirectoryNotAllowed));
    assert_eq!(enforce_git_suffix("x/".to_string()), Err(ValidationError::DirectoryNotAllowed));
}

#[test]
fn repository_is_told_by_its_suffix() {
    assert!(represents_repo("a.git"));
    assert!(represents_repo("x/y/a.git"));
    assert!(represents_repo(".git"));
    assert!(!represents_repo("a"));
    assert!(!represents_repo("a.git/"));
    assert!(!represents_repo("git"));
    assert!(!represents_repo(""));
}

#[test]
fn path_can_name_one_repository() {
    assert!(can_represent_repo("a"));
    assert!(can_represent_repo("x/a.git"));
    assert!(!can_represent_repo(""));
    assert!(!can_represent_repo("x/"));
}

#[test]
fn command_name_lower_case() {
    assert_eq!(parse_command("list"), ok("list"));
    assert_eq!(parse_command("List"), Err(ValidationError::InvalidCommand));
    assert_eq!(parse_command("ls2"), Err(ValidationError::InvalidCommand));
    assert_eq!(parse_command(""), Err(ValidationError::EmptyCommand));
}

#[test]
fn error_messages() {
    assert_eq!(ValidationError::EmptyPath.message(), "Path cannot be empty");
    assert_eq!(ValidationError::PathTooLong.message(), "Path cannot exceed 256 characters");
    assert_eq!(ValidationError::AbsolutePath.message(), "Absolute paths are not allowed");
    assert_eq!(ValidationError::Backtracking.message(), "Backtracking not allowed");
    assert_eq!(ValidationError::TooDeep.message(), "Nesting must not exceed a depth of 4");
    assert_eq!(
        ValidationError::InvalidName.message(),
        "Repository and folder names can only contain alphanumeric characters, hyphens, and underscores"
    );
    assert_eq!(ValidationError::ReservedFolder.message(), "Folder name disallowed");
    assert_eq!(ValidationError::DirectoryNotAllowed.message(), "Directory not allowed");
    assert_eq!(ValidationError::EmptyGlob.message(), "Glob cannot be empty");
    assert_eq!(ValidationError::GlobTooLong.message(), "Glob cannot exceed 64 characters");
    assert_eq!(ValidationError::EmptyCommand.message(), "Command cannot be empty");
    assert_eq!(ValidationError::InvalidCommand.message(), "Invalid command");
    assert_eq!(ValidationError::MissingCommand.message(), "command must not be empty");
    assert_eq!(ValidationError::RepoNameTooLong.message(), "Repository name cannot exceed 32 characters");
    assert_eq!(
        ValidationError::InvalidRepoName.message(),
        "Names can only contain alphanumeric characters, hyphens, and underscores"
    );
    assert_eq!(
        ValidationError::InvalidFolderName.message(),
        "Folder names can only contain alphanumeric characters, hyphens, and underscores"
    );
}

use commands::glob::{make_glob_set, parse_repo_glob};
use commands::walk::{
    filter_repos, is_reserved_path, t_filter_repos, Entry, EntryKind, FilterRepos,
};

fn link(path: &str) -> Entry {
    Entry { path: path.to_string(), kind: EntryKind::Symlink }
}

fn folder(path: &str) -> Entry {
    Entry { path: path.to_string(), kind: EntryKind::Directory }
}

fn file(path: &str) -> Entry {
    Entry { path: path.to_string(), kind: EntryKind::File }
}

fn sample() -> Vec<Entry> {
    vec![
        folder(".ssh"),
        file(".ssh/authorized_keys"),
        link(".ssh/trap.git"),
        folder("git-shell-commands"),
        file("git-shell-commands/list"),
        link("a.git"),
        folder("team"),
        link("team/b.git"),
        folder("team/sub"),
        link("team/sub/c.git"),
        file("notes.txt"),
    ]
}

#[test]
fn walk_lists_every_repository_once() {
    let found = filter_repos(&sample(), false, None);
    assert_eq!(found, vec!["a.git", "team/b.git", "team/sub/c.git"]);
}

#[test]
fn walk_skips_reserved_entries() {
    let found = filter_repos(&sample(), true, None);
    assert!(found.iter().all(|p| !p.starts_with(".ssh") && !p.starts_with("git-shell-commands")));
    assert_eq!(found, vec!["a.git", "team"]);
}

#[test]
fn walk_matched_folder_is_one_unit() {
    let set = make_glob_set(vec![parse_repo_glob("team/").unwrap()]);
    let found = filter_repos(&sample(), true, Some(&set));
    assert_eq!(found, vec!["team"]);
}

#[test]
fn walk_unmatched_folder_is_entered() {
    let set = make_glob_set(vec![parse_repo_glob("team/*").unwrap()]);
    let found = filter_repos(&sample(), true, Some(&set));
    assert_eq!(found, vec!["team/b.git"]);
}

#[test]
fn walk_from_a_folder() {
    let found = t_filter_repos(&sample(), Some("team"), false, None);
    assert_eq!(found, vec!["team/b.git", "team/sub/c.git"]);
}

#[test]
fn walk_from_a_folder_keeps_reserved_names() {
    let entries = vec![folder("team"), folder("team/.ssh"), link("team/.ssh/x.git")];
    let found = t_filter_repos(&entries, Some("team"), false, None);
    assert_eq!(found, vec!["team/.ssh/x.git"]);
}

#[test]
fn walk_does_not_enter_a_repository() {
    let entries = vec![folder("a.git"), file("a.git/HEAD"), link("a.git/inner.git")];
    let found = filter_repos(&entries, false, None);
    assert_eq!(found, vec!["a.git"]);
}

#[test]
fn walk_hands_out_paths_one_by_one() {
    let mut walker = FilterRepos::new(&sample(), None, false, None);
    assert_eq!(walker.next(), Some("a.git".to_string()));
    assert_eq!(walker.next(), Some("team/b.git".to_string()));
    assert_eq!(walker.next(), Some("team/sub/c.git".to_string()));
    assert_eq!(walker.next(), None);
    assert_eq!(walker.next(), None);
}

#[test]
fn reserved_paths() {
    assert!(is_reserved_path(".ssh"));
    assert!(is_reserved_path(".ssh/authorized_keys"));
    assert!(is_reserved_path("git-shell-commands"));
    assert!(is_reserved_path("git-shell-commands/list"));
    assert!(!is_reserved_path("git-shell-commands.git"));
    assert!(!is_reserved_path("team/.ssh"));
    assert!(!is_reserved_path(".sshx"));
    assert!(!is_reserved_path(""));
}

#[test]
fn walk_of_nothing() {
    assert!(filter_repos(&vec![], true, None).is_empty());
}

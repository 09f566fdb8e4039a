use commands::create::run;
use commands::delete::{Deletion, Turn};
use commands::glob::{make_glob_set, parse_repo_glob};
use commands::plan::{validate_moves, MovePair};
use commands::relocate::{batch_steps, move_multiple, plan_move};
use commands::script::{Action, Place, Step};
use commands::validate::parse_repo_path;
use commands::walk::{filter_repos, Entry, EntryKind};
use commands::tree::Tree;

fn s(text: &str) -> String {
    text.to_string()
}

fn pair(src: &str, dst: &str) -> MovePair {
    MovePair { src: src.to_string(), dst: dst.to_string() }
}

fn tree_of(repos: &[(&str, u64)]) -> Tree {
    let mut tree = Tree::new();
    for (path, content) in repos {
        assert!(tree.add_repo(path, *content));
    }
    tree
}

fn delete_all(tree: &mut Tree, targets: Vec<String>) {
    let mut deletion = Deletion::begin(targets, false, true).unwrap();
    loop {
        match deletion.next(None) {
            Turn::Run(steps) => assert!(tree.run(&steps)),
            Turn::Finished(script) => {
                assert!(tree.run(&script.steps));
                break;
            }
            Turn::Ask(_) => panic!("asked"),
        }
    }
}

#[test]
fn tree_listing_has_folders_and_links() {
    let tree = tree_of(&[("a.git", 1), ("team/sub/b.git", 2), ("team/c.git", 3)]);
    let mut listing = tree.listing();
    listing.sort_by(|x, y| x.path.cmp(&y.path));
    assert_eq!(
        listing,
        vec![
            Entry { path: s("a.git"), kind: EntryKind::Symlink },
            Entry { path: s("team"), kind: EntryKind::Directory },
            Entry { path: s("team/c.git"), kind: EntryKind::Symlink },
            Entry { path: s("team/sub"), kind: EntryKind::Directory },
            Entry { path: s("team/sub/b.git"), kind: EntryKind::Symlink },
        ]
    );
    assert_eq!(tree.physical_listing().len(), 3);
}

#[test]
fn tree_refuses_what_the_disk_would_refuse() {
    let mut tree = tree_of(&[("a.git", 1), ("b.git", 2)]);
    let before = tree.clone();
    assert!(!tree.apply(&Action::Rename(Place::Physical, s("a.git"), Place::Physical, s("b.git"))));
    assert!(!tree.apply(&Action::Rename(Place::Physical, s("z.git"), Place::Physical, s("y.git"))));
    assert!(!tree.apply(&Action::Rename(Place::Visible, s("a.git"), Place::Physical, s("y.git"))));
    assert!(!tree.apply(&Action::Link(s("a.git"))));
    assert!(!tree.apply(&Action::Unlink(s("z.git"))));
    assert!(!tree.apply(&Action::RemoveTree(s("z.git"))));
    assert!(!tree.apply(&Action::InitBare(s("z.git"))));
    assert_eq!(tree.content_at("a.git"), Some(1));
    assert_eq!(tree.content_at("b.git"), Some(2));
    assert_eq!(tree.listing().len(), before.listing().len());
    assert!(tree.apply(&Action::Rename(Place::Physical, s("a.git"), Place::Physical, s("a.git"))));
    assert_eq!(tree.content_at("a.git"), Some(1));
    assert!(!tree.add_repo("a.git", 9));
}

#[test]
fn tree_script_stops_at_the_first_failure() {
    let mut tree = tree_of(&[("a.git", 1)]);
    let steps = vec![
        Step::Do(Action::Unlink(s("a.git"))),
        Step::Do(Action::Unlink(s("a.git"))),
        Step::Do(Action::RemoveTree(s("a.git"))),
    ];
    assert!(!tree.run(&steps));
    assert!(!tree.is_linked("a.git"));
    assert_eq!(tree.content_at("a.git"), Some(1));
}

#[test]
fn created_repository_is_listed_once_and_gone_after_deletion() {
    let mut tree = tree_of(&[("old.git", 5)]);
    let before = tree.clone();
    let path = parse_repo_path("team/deep/new").unwrap();
    let script = run(&vec![path.clone()], &tree.listing(), &tree.physical_listing());
    assert_eq!(script.status, 0);
    assert!(tree.run(&script.steps));
    let listed = filter_repos(&tree.listing(), false, None);
    assert_eq!(listed.iter().filter(|p| **p == path).count(), 1);
    assert_eq!(listed.len(), 2);
    assert!(tree.listing().iter().any(|e| e.path == "team/deep" && e.kind == EntryKind::Directory));
    assert_eq!(tree.content_at(&path), Some(1));

    delete_all(&mut tree, vec![path.clone()]);
    let listed = filter_repos(&tree.listing(), false, None);
    assert_eq!(listed, vec![s("old.git")]);
    assert!(tree.listing().iter().all(|e| !e.path.starts_with("team")));
    assert_eq!(tree.content_at(&path), None);
    assert_eq!(tree.listing(), before.listing());
    assert_eq!(tree.physical_listing(), before.physical_listing());
}

#[test]
fn creating_what_exists_changes_nothing() {
    let mut tree = tree_of(&[("a.git", 7)]);
    let script = run(&vec![s("a.git"), s("b.git")], &tree.listing(), &tree.physical_listing());
    assert_eq!(script.status, 1);
    assert!(tree.run(&script.steps));
    assert_eq!(filter_repos(&tree.listing(), false, None), vec![s("a.git")]);
    assert_eq!(tree.content_at("a.git"), Some(7));
    assert_eq!(tree.content_at("b.git"), None);
}

#[test]
fn overlapping_move_leaves_both_repositories_untouched() {
    let mut tree = tree_of(&[("x/a.git", 10), ("y/a.git", 20)]);
    let entries = tree.listing();
    let set = make_glob_set(vec![parse_repo_glob("*/a").unwrap()]);
    let sources = filter_repos(&entries, true, Some(&set));
    assert_eq!(sources.len(), 2);
    let script = plan_move(&sources, "folder", &entries, false);
    assert_eq!(script.status, 1);
    assert!(script.steps.iter().any(|step| match step {
        Step::Warn(line) => line.contains("Overlapping destination"),
        _ => false,
    }));
    assert!(tree.run(&script.steps));
    assert!(tree.is_linked("x/a.git") && tree.is_linked("y/a.git"));
    assert_eq!(tree.content_at("x/a.git"), Some(10));
    assert_eq!(tree.content_at("y/a.git"), Some(20));
    assert_eq!(tree.content_at("folder/a.git"), None);
    assert!(!tree.is_linked("folder/a.git"));
}

#[test]
fn swap_goes_through_staging_and_leaves_none_behind() {
    let mut tree = tree_of(&[("a.git", 10), ("b.git", 20), ("c.git", 30)]);
    let entries = tree.listing();
    let plan = validate_moves(&vec![pair("a.git", "b.git"), pair("b.git", "a.git")], &entries);
    assert!(plan.problems.is_empty());
    assert!(plan.staging_required);
    let script = batch_steps(&plan, &entries, false);
    assert_eq!(script.status, 0);
    assert!(script.steps.contains(&Step::Do(Action::DropStaging)));
    assert!(tree.run(&script.steps));
    assert_eq!(tree.content_at("a.git"), Some(20));
    assert_eq!(tree.content_at("b.git"), Some(10));
    assert_eq!(tree.content_at("c.git"), Some(30));
    assert!(tree.is_linked("a.git") && tree.is_linked("b.git") && tree.is_linked("c.git"));
    assert!(tree.staging_is_empty());
    assert_eq!(tree.staged_at("a.git"), None);
    assert_eq!(filter_repos(&tree.listing(), false, None).len(), 3);
}

#[test]
fn swap_without_staging_would_fail() {
    let mut tree = tree_of(&[("a.git", 10), ("b.git", 20)]);
    let direct = vec![
        Step::Do(Action::Rename(Place::Physical, s("a.git"), Place::Physical, s("b.git"))),
        Step::Do(Action::Rename(Place::Physical, s("b.git"), Place::Physical, s("a.git"))),
    ];
    assert!(!tree.run(&direct));
    assert_eq!(tree.content_at("a.git"), Some(10));
    assert_eq!(tree.content_at("b.git"), Some(20));
}

#[test]
fn rotation_of_three_keeps_every_content() {
    let mut tree = tree_of(&[("a.git", 1), ("b.git", 2), ("c.git", 3)]);
    let entries = tree.listing();
    let pairs = vec![pair("a.git", "b.git"), pair("b.git", "c.git"), pair("c.git", "a.git")];
    let script = batch_steps(&validate_moves(&pairs, &entries), &entries, false);
    assert!(tree.run(&script.steps));
    assert_eq!(
        (tree.content_at("a.git"), tree.content_at("b.git"), tree.content_at("c.git")),
        (Some(3), Some(1), Some(2))
    );
    assert!(tree.staging_is_empty());
}

#[test]
fn dry_run_never_changes_the_tree() {
    let mut tree = tree_of(&[("x/a.git", 10), ("y/a.git", 20), ("b.git", 30)]);
    let entries = tree.listing();
    let before = tree.clone();
    for (sources, dst) in [
        (vec![s("b.git")], "c"),
        (vec![s("x/a.git"), s("y/a.git")], "folder"),
        (vec![s("x"), s("b.git")], "z"),
        (vec![s("b.git")], "x/a.git"),
        (vec![], "z"),
    ] {
        let script = plan_move(&sources, dst, &entries, true);
        assert!(script.steps.iter().all(|step| !matches!(step, Step::Do(_))));
        assert!(tree.run(&script.steps));
        assert_eq!(tree, before);
    }
    let early = Deletion::begin(vec![s("b.git")], true, true).unwrap_err();
    assert!(tree.run(&early.steps));
    assert_eq!(tree, before);
}

#[test]
fn folder_move_keeps_the_shape_of_the_subtree() {
    let mut tree = tree_of(&[("team/a.git", 1), ("team/sub/b.git", 2), ("c.git", 3)]);
    let entries = tree.listing();
    let set = make_glob_set(vec![parse_repo_glob("team/").unwrap()]);
    let sources = filter_repos(&entries, true, Some(&set));
    assert_eq!(sources, vec![s("team")]);
    let script = move_multiple(&sources, "archive", &entries, false);
    assert_eq!(script.status, 0);
    assert!(tree.run(&script.steps));
    let mut listed = filter_repos(&tree.listing(), false, None);
    listed.sort();
    assert_eq!(listed, vec![s("archive/a.git"), s("archive/sub/b.git"), s("c.git")]);
    assert_eq!(tree.content_at("archive/sub/b.git"), Some(2));
    assert_eq!(tree.content_at("team/a.git"), None);
    assert!(tree.staging_is_empty());
}

#[test]
fn folder_move_that_nests_too_deep_changes_nothing() {
    let mut tree = tree_of(&[("team/a.git", 1), ("team/sub/b.git", 2)]);
    let entries = tree.listing();
    let before = tree.clone();
    let script = move_multiple(&vec![s("team")], "archive/2024/q1", &entries, false);
    assert_eq!(script.status, 1);
    assert!(tree.run(&script.steps));
    assert_eq!(tree, before);
}

#[test]
fn several_sources_to_one_repository_leave_both_untouched() {
    let mut tree = tree_of(&[("a.git", 10), ("b.git", 20)]);
    let entries = tree.listing();
    let before = tree.clone();
    let set = make_glob_set(vec![parse_repo_glob("a").unwrap(), parse_repo_glob("b").unwrap()]);
    let sources = filter_repos(&entries, true, Some(&set));
    assert_eq!(sources.len(), 2);
    let script = plan_move(&sources, "folder/a.git", &entries, false);
    assert_eq!(script.status, 1);
    assert!(script.steps.contains(&Step::Warn(s(
        "'b.git' -> 'folder/a.git' : Overlapping destination : 'a.git' -> 'folder/a.git'"
    ))));
    assert!(tree.run(&script.steps));
    assert_eq!(tree, before);
    assert_eq!(tree.content_at("a.git"), Some(10));
    assert_eq!(tree.content_at("b.git"), Some(20));
}

#[test]
fn rename_on_the_tree() {
    let mut tree = tree_of(&[("a.git", 4)]);
    let entries = tree.listing();
    let script = plan_move(&vec![s("a.git")], "team/b", &entries, false);
    assert!(tree.run(&script.steps));
    assert_eq!(tree.content_at("team/b.git"), Some(4));
    assert!(tree.is_linked("team/b.git"));
    assert!(!tree.is_linked("a.git"));
    assert_eq!(tree.content_at("a.git"), None);
}

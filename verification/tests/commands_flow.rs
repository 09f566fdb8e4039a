use commands::create::{dedup, quote_list, run};
use commands::delete::{delete_targets, is_confirmation, resolve_targets, Deletion, Turn};
use commands::glob::{make_glob_set, parse_repo_glob};
use commands::list::{list, select, summary_line};
use commands::script::{decimal, Action, Place, Script, Step};
use commands::walk::{Entry, EntryKind};

fn link(path: &str) -> Entry {
    Entry { path: path.to_string(), kind: EntryKind::Symlink }
}

fn folder(path: &str) -> Entry {
    Entry { path: path.to_string(), kind: EntryKind::Directory }
}

fn say(line: &str) -> Step<String> {
    Step::Say(line.to_string())
}

fn warn(line: &str) -> Step<String> {
    Step::Warn(line.to_string())
}

fn act(a: Action<String>) -> Step<String> {
    Step::Do(a)
}

fn s(text: &str) -> String {
    text.to_string()
}

fn strings(texts: &[&str]) -> Vec<String> {
    texts.iter().map(|t| t.to_string()).collect()
}

#[test]
fn decimal_numbers() {
    assert_eq!(decimal(0), "0");
    assert_eq!(decimal(7), "7");
    assert_eq!(decimal(10), "10");
    assert_eq!(decimal(1234567890), "1234567890");
    assert_eq!(decimal(usize::MAX), usize::MAX.to_string());
}

#[test]
fn create_one_repository() {
    let script = run(&strings(&["team/a.git"]), &vec![], &vec![]);
    assert_eq!(script.status, 0);
    assert_eq!(
        script.steps,
        vec![
            act(Action::CreateDirAll(Place::Physical, s("team/a.git"))),
            act(Action::InitBare(s("team/a.git"))),
            act(Action::CreateDirAll(Place::Visible, s("team"))),
            act(Action::Link(s("team/a.git"))),
            say("Created 'team/a.git'"),
        ]
    );
}

#[test]
fn create_several_reports_the_count() {
    let script = run(&strings(&["a.git", "b.git", "a.git"]), &vec![], &vec![]);
    assert_eq!(script.status, 0);
    assert_eq!(script.steps.len(), 11);
    assert_eq!(script.steps[4], say("Created 'a.git'"));
    assert_eq!(script.steps[9], say("Created 'b.git'"));
    assert_eq!(script.steps[10], say("Created 2 new repositories"));
}

#[test]
fn create_refuses_the_whole_batch_where_one_exists() {
    let visible = vec![link("a.git")];
    let script = run(&strings(&["a.git", "b.git"]), &visible, &vec![]);
    assert_eq!(script, Script { steps: vec![warn("Repo already exists at 'a.git'")], status: 1 });
}

#[test]
fn create_looks_at_both_trees() {
    let visible = vec![link("a.git")];
    let physical = vec![folder("c.git")];
    let script = run(&strings(&["a.git", "b.git", "c.git"]), &visible, &physical);
    assert_eq!(
        script,
        Script { steps: vec![warn("Repos already exist at: 'a.git', 'c.git'")], status: 1 }
    );
}

#[test]
fn create_helpers() {
    assert_eq!(dedup(&strings(&["a", "b", "a", "c", "b"])), strings(&["a", "b", "c"]));
    assert_eq!(quote_list(&strings(&["a", "b", "c"])), "'a', 'b', 'c'");
    assert_eq!(quote_list(&strings(&["a"])), "'a'");
    assert_eq!(quote_list(&vec![]), "");
}

fn forest() -> Vec<Entry> {
    vec![
        link("a.git"),
        folder("team"),
        link("team/b.git"),
        folder("team/sub"),
        link("team/sub/c.git"),
        folder("other"),
        link("other/d.git"),
    ]
}

#[test]
fn delete_resolves_folders_to_their_repositories() {
    let found = resolve_targets(&strings(&["a.git", "team"]), &forest());
    assert_eq!(found, strings(&["a.git", "team/b.git", "team/sub/c.git"]));
}

#[test]
fn delete_targets_of_patterns() {
    let set = make_glob_set(vec![parse_repo_glob("team/").unwrap(), parse_repo_glob("a").unwrap()]);
    assert_eq!(delete_targets(&set, &forest()), strings(&["a.git", "team/b.git", "team/sub/c.git"]));
    let nested = make_glob_set(vec![parse_repo_glob("team/sub/*").unwrap()]);
    assert_eq!(delete_targets(&nested, &forest()), strings(&["team/sub/c.git"]));
}

#[test]
fn delete_answers() {
    assert!(is_confirmation("y"));
    assert!(is_confirmation("Y"));
    assert!(is_confirmation("y\n"));
    assert!(is_confirmation("  Y \r\n"));
    assert!(is_confirmation("\u{a0}y\u{3000}"));
    assert!(!is_confirmation(""));
    assert!(!is_confirmation("\n"));
    assert!(!is_confirmation("yes"));
    assert!(!is_confirmation("n"));
    assert!(!is_confirmation("y y"));
    assert!(!is_confirmation("yY"));
}

#[test]
fn delete_nothing_matched() {
    let early = Deletion::begin(vec![], false, true).unwrap_err();
    assert_eq!(early, Script { steps: vec![warn("No matching repositories found")], status: 1 });
}

#[test]
fn delete_dry_run_changes_nothing() {
    let early = Deletion::begin(strings(&["a.git", "team/b.git"]), true, false).unwrap_err();
    assert_eq!(
        early,
        Script {
            steps: vec![
                say("Plan to delete 2 repositories:"),
                say("Delete 'a.git'"),
                say("Delete 'team/b.git'"),
            ],
            status: 0
        }
    );
}

fn deletion_of(path: &str) -> Vec<Step<String>> {
    vec![
        act(Action::Unlink(s(path))),
        act(Action::RemoveTree(s(path))),
        act(Action::Prune(Place::Visible, s(path))),
        act(Action::Prune(Place::Physical, s(path))),
        say(&format!("Deleted '{}'", path)),
    ]
}

#[test]
fn delete_without_asking() {
    let mut d = Deletion::begin(strings(&["a.git", "team/b.git"]), false, true).unwrap();
    assert_eq!(d.next(None), Turn::Run(deletion_of("a.git")));
    assert_eq!(d.next(None), Turn::Run(deletion_of("team/b.git")));
    assert_eq!(
        d.next(None),
        Turn::Finished(Script { steps: vec![say("Deleted 2 repositories")], status: 0 })
    );
}

#[test]
fn delete_asks_for_each_repository() {
    let mut d = Deletion::begin(strings(&["a.git", "b.git", "c.git"]), false, false).unwrap();
    assert_eq!(d.next(None), Turn::Ask(s("Delete 'a.git' [y/N]: ")));
    assert_eq!(d.next(None), Turn::Ask(s("Delete 'a.git' [y/N]: ")));
    assert_eq!(d.next(Some("n\n")), Turn::Run(vec![]));
    assert_eq!(d.next(None), Turn::Ask(s("Delete 'b.git' [y/N]: ")));
    assert_eq!(d.next(Some("y\n")), Turn::Run(deletion_of("b.git")));
    assert_eq!(d.next(None), Turn::Ask(s("Delete 'c.git' [y/N]: ")));
    assert_eq!(d.next(Some("\n")), Turn::Run(vec![]));
    assert_eq!(
        d.next(None),
        Turn::Finished(Script { steps: vec![say("Deleted 1 repository")], status: 0 })
    );
}

#[test]
fn delete_none_confirmed() {
    let mut d = Deletion::begin(strings(&["a.git"]), false, false).unwrap();
    assert_eq!(d.next(Some("no")), Turn::Run(vec![]));
    assert_eq!(
        d.next(None),
        Turn::Finished(Script { steps: vec![say("Deleted 0 repositories")], status: 0 })
    );
}

#[test]
fn list_without_filters_shows_every_repository_once() {
    let none = make_glob_set(vec![]);
    let script = list(&forest(), &none, false, false);
    assert_eq!(
        script,
        Script {
            steps: vec![
                say("a.git"),
                say("team/b.git"),
                say("team/sub/c.git"),
                say("other/d.git"),
                say("Matched 4/4 repositories"),
            ],
            status: 0
        }
    );
}

#[test]
fn list_inverted_without_filters_shows_none() {
    let none = make_glob_set(vec![]);
    let script = list(&forest(), &none, true, false);
    assert_eq!(
        script,
        Script { steps: vec![say("Matched no repositories (4 total)")], status: 0 }
    );
}

#[test]
fn list_with_filters() {
    let set = make_glob_set(vec![parse_repo_glob("team/*").unwrap(), parse_repo_glob("a").unwrap()]);
    let (shown, total) = select(&forest(), &set, false);
    assert_eq!((shown, total), (strings(&["a.git", "team/b.git"]), 4));
    let (hidden, _) = select(&forest(), &set, true);
    assert_eq!(hidden, strings(&["team/sub/c.git", "other/d.git"]));
}

#[test]
fn list_count_only() {
    let set = make_glob_set(vec![parse_repo_glob("**/c").unwrap()]);
    let script = list(&forest(), &set, false, true);
    assert_eq!(script, Script { steps: vec![say("1")], status: 0 });
}

#[test]
fn list_of_an_empty_tree() {
    let none = make_glob_set(vec![]);
    let script = list(&vec![], &none, false, false);
    assert_eq!(script, Script { steps: vec![say("You have no repositories")], status: 0 });
}

#[test]
fn list_summaries() {
    assert_eq!(summary_line(0, 0), "You have no repositories");
    assert_eq!(summary_line(0, 12), "Matched no repositories (12 total)");
    assert_eq!(summary_line(3, 12), "Matched 3/12 repositories");
}

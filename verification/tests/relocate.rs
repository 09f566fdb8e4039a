use commands::plan::{expand_moves, validate_moves, Conflict, ConflictReason, MovePair};
use commands::relocate::{move_multiple, move_single, parent_of, plan_move};
use commands::script::{Action, Place, Step};
use commands::walk::{Entry, EntryKind};

fn link(path: &str) -> Entry {
    Entry { path: path.to_string(), kind: EntryKind::Symlink }
}

fn folder(path: &str) -> Entry {
    Entry { path: path.to_string(), kind: EntryKind::Directory }
}

fn pair(src: &str, dst: &str) -> MovePair {
    MovePair { src: src.to_string(), dst: dst.to_string() }
}

fn say(line: &str) -> Step<String> {
    Step::Say(line.to_string())
}

fn warn(line: &str) -> Step<String> {
    Step::Warn(line.to_string())
}

fn act(a: Action<String>) -> Step<String> {
    Step::Do(a)
}

fn s(text: &str) -> String {
    text.to_string()
}

fn changes(steps: &[Step<String>]) -> usize {
    steps.iter().filter(|s| matches!(s, Step::Do(_))).count()
}

#[test]
fn expand_repository_keeps_its_name() {
    let entries = vec![folder("x"), link("x/a.git")];
    let moves = expand_moves(&vec![s("x/a.git")], "folder", &entries);
    assert_eq!(moves, vec![pair("x/a.git", "folder/a.git")]);
}

#[test]
fn expand_folder_keeps_its_shape() {
    let entries = vec![
        folder("x"),
        folder("x/team"),
        link("x/team/a.git"),
        folder("x/team/sub"),
        link("x/team/sub/b.git"),
    ];
    let moves = expand_moves(&vec![s("x/team")], "y", &entries);
    assert_eq!(moves, vec![pair("x/team/a.git", "y/a.git"), pair("x/team/sub/b.git", "y/sub/b.git")]);
}

#[test]
fn expand_folder_maps_paths_relative_to_the_folder() {
    let entries = vec![folder("x"), folder("x/f"), folder("x/f/sub"), link("x/f/sub/r.git")];
    let moves = expand_moves(&vec![s("x/f")], "d", &entries);
    assert_eq!(moves, vec![pair("x/f/sub/r.git", "d/sub/r.git")]);
    let script = move_multiple(&vec![s("x/f")], "d", &entries, true);
    assert_eq!(
        script.steps,
        vec![say("Plan to move 1 repositories:"), say("'x/f/sub/r.git' -> 'd/sub/r.git'")]
    );
}

#[test]
fn expand_to_a_repository_maps_every_source_to_it() {
    let entries = vec![link("a.git"), link("b.git"), folder("f"), link("f/c.git")];
    let moves = expand_moves(&vec![s("a.git"), s("b.git"), s("f")], "folder/a.git", &entries);
    assert_eq!(
        moves,
        vec![
            pair("a.git", "folder/a.git"),
            pair("b.git", "folder/a.git"),
            pair("f/c.git", "folder/a.git"),
        ]
    );
}

#[test]
fn expand_into_the_root() {
    let entries = vec![folder("x"), link("x/a.git")];
    assert_eq!(expand_moves(&vec![s("x/a.git")], "", &entries), vec![pair("x/a.git", "a.git")]);
    assert_eq!(expand_moves(&vec![s("x/a.git")], "y/", &entries), vec![pair("x/a.git", "y/a.git")]);
}

#[test]
fn expand_drops_moves_to_the_same_place() {
    let entries = vec![folder("x"), link("x/a.git"), link("b.git")];
    let moves = expand_moves(&vec![s("x/a.git"), s("b.git")], "x", &entries);
    assert_eq!(moves, vec![pair("b.git", "x/b.git")]);
}

#[test]
fn validate_overlap_names_the_earlier_pair() {
    let entries = vec![folder("x"), link("x/a.git"), folder("y"), link("y/a.git")];
    let pairs = vec![pair("x/a.git", "folder/a.git"), pair("y/a.git", "folder/a.git")];
    let plan = validate_moves(&pairs, &entries);
    assert_eq!(plan.moves, vec![pair("x/a.git", "folder/a.git")]);
    assert_eq!(
        plan.problems,
        vec![Conflict {
            src: s("y/a.git"),
            dst: s("folder/a.git"),
            reason: ConflictReason::Overlap(s("x/a.git")),
        }]
    );
    assert!(!plan.staging_required);
}

#[test]
fn validate_occupied_destination() {
    let entries = vec![link("a.git"), folder("folder"), link("folder/a.git")];
    let plan = validate_moves(&vec![pair("a.git", "folder/a.git")], &entries);
    assert!(plan.moves.is_empty());
    assert_eq!(plan.problems.len(), 1);
    assert_eq!(plan.problems[0].reason, ConflictReason::Occupied);
}

#[test]
fn validate_too_deep_destination() {
    let entries = vec![link("a.git")];
    let plan = validate_moves(&vec![pair("a.git", "p/q/r/s/a.git")], &entries);
    assert_eq!(plan.problems.len(), 1);
    assert_eq!(plan.problems[0].reason, ConflictReason::TooDeep);
    let fine = validate_moves(&vec![pair("a.git", "p/q/r/a.git")], &entries);
    assert!(fine.problems.is_empty());
}

#[test]
fn validate_swap_needs_staging() {
    let entries = vec![link("a.git"), link("b.git")];
    let plan = validate_moves(&vec![pair("a.git", "b.git"), pair("b.git", "a.git")], &entries);
    assert!(plan.problems.is_empty());
    assert!(plan.staging_required);
    assert!(plan.not_replaced.is_empty());
    assert_eq!(plan.moves.len(), 2);
}

#[test]
fn validate_chain_keeps_track_of_what_is_vacated() {
    let entries = vec![link("a.git"), link("b.git")];
    let plan = validate_moves(&vec![pair("a.git", "b.git"), pair("b.git", "c.git")], &entries);
    assert!(plan.problems.is_empty());
    assert!(plan.staging_required);
    assert_eq!(plan.not_replaced, vec![s("a.git")]);
}

#[test]
fn move_overlap_changes_nothing() {
    let entries = vec![folder("x"), link("x/a.git"), folder("y"), link("y/a.git")];
    let script = move_multiple(&vec![s("x/a.git"), s("y/a.git")], "folder", &entries, false);
    assert_eq!(script.status, 1);
    assert_eq!(changes(&script.steps), 0);
    assert_eq!(
        script.steps,
        vec![
            say("Able to move 1 repositories:"),
            say("'x/a.git' -> 'folder/a.git'"),
            warn("1 problem:"),
            warn("'y/a.git' -> 'folder/a.git' : Overlapping destination : 'x/a.git' -> 'folder/a.git'"),
        ]
    );
}

#[test]
fn move_two_problems_heading() {
    let entries = vec![link("a.git"), link("b.git"), folder("f"), link("f/a.git"), link("f/b.git")];
    let script = move_multiple(&vec![s("a.git"), s("b.git")], "f", &entries, false);
    assert_eq!(script.status, 1);
    assert_eq!(
        script.steps,
        vec![
            say("Able to move 0 repositories:"),
            warn("2 problems:"),
            warn("'a.git' -> 'f/a.git' : Destination occupied by unmoved repository"),
            warn("'b.git' -> 'f/b.git' : Destination occupied by unmoved repository"),
        ]
    );
}

#[test]
fn move_of_several_to_one_repository_overlaps() {
    let entries = vec![link("a.git"), link("b.git")];
    for dry_run in [false, true] {
        let script =
            move_multiple(&vec![s("a.git"), s("b.git")], "folder/a.git", &entries, dry_run);
        assert_eq!(script.status, 1);
        assert_eq!(changes(&script.steps), 0);
        assert_eq!(
            script.steps,
            vec![
                say("Able to move 1 repositories:"),
                say("'a.git' -> 'folder/a.git'"),
                warn("1 problem:"),
                warn(
                    "'b.git' -> 'folder/a.git' : Overlapping destination : 'a.git' -> 'folder/a.git'"
                ),
            ]
        );
    }
}

#[test]
fn move_of_a_folder_with_one_repository_to_a_repository() {
    let entries = vec![folder("f"), link("f/c.git")];
    let script = move_multiple(&vec![s("f")], "d.git", &entries, true);
    assert_eq!(script.status, 0);
    assert_eq!(script.steps, vec![say("Plan to move 1 repositories:"), say("'f/c.git' -> 'd.git'")]);
}

#[test]
fn move_dry_run_changes_nothing() {
    let entries = vec![link("a.git"), link("b.git")];
    let script = move_multiple(&vec![s("a.git"), s("b.git")], "f", &entries, true);
    assert_eq!(script.status, 0);
    assert_eq!(
        script.steps,
        vec![
            say("Plan to move 2 repositories:"),
            say("'a.git' -> 'f/a.git'"),
            say("'b.git' -> 'f/b.git'"),
        ]
    );
}

#[test]
fn move_nothing_to_do() {
    let entries = vec![folder("f"), link("f/a.git")];
    let script = move_multiple(&vec![s("f/a.git")], "f", &entries, false);
    assert_eq!(script.status, 0);
    assert_eq!(script.steps, vec![warn("Nothing to do")]);
}

#[test]
fn move_without_staging() {
    let entries = vec![link("a.git"), folder("old"), link("old/b.git")];
    let script = move_multiple(&vec![s("a.git"), s("old/b.git")], "new", &entries, false);
    assert_eq!(script.status, 0);
    assert_eq!(
        script.steps,
        vec![
            act(Action::CreateDirAll(Place::Physical, s("new/a.git"))),
            act(Action::CreateDirAll(Place::Physical, s("new/b.git"))),
            act(Action::CreateDirAll(Place::Visible, s("new"))),
            act(Action::CreateDirAll(Place::Visible, s("new"))),
            say("'a.git' -> 'new/a.git'"),
            act(Action::Rename(Place::Physical, s("a.git"), Place::Physical, s("new/a.git"))),
            say("'old/b.git' -> 'new/b.git'"),
            act(Action::Rename(Place::Physical, s("old/b.git"), Place::Physical, s("new/b.git"))),
            act(Action::Link(s("new/a.git"))),
            act(Action::Link(s("new/b.git"))),
            act(Action::Unlink(s("a.git"))),
            act(Action::Unlink(s("old/b.git"))),
            act(Action::Prune(Place::Visible, s("a.git"))),
            act(Action::Prune(Place::Physical, s("a.git"))),
            act(Action::Prune(Place::Visible, s("old/b.git"))),
            act(Action::Prune(Place::Physical, s("old/b.git"))),
            say("Moved 2 repositories"),
        ]
    );
}

#[test]
fn move_batch_goes_through_staging_where_a_source_is_taken_over() {
    let entries = vec![
        folder("f"),
        link("f/a.git"),
        folder("f/g"),
        link("f/g/a.git"),
    ];
    let script = move_multiple(&vec![s("f")], "f/g", &entries, false);
    assert_eq!(script.status, 0);
    assert_eq!(
        script.steps,
        vec![
            act(Action::CreateDirAll(Place::Physical, s("f/g/a.git"))),
            act(Action::CreateDirAll(Place::Physical, s("f/g/g/a.git"))),
            act(Action::CreateDirAll(Place::Visible, s("f/g"))),
            act(Action::CreateDirAll(Place::Visible, s("f/g/g"))),
            act(Action::CreateDirAll(Place::Staging, s("f/a.git"))),
            act(Action::CreateDirAll(Place::Physical, s("f/a.git"))),
            act(Action::CreateDirAll(Place::Staging, s("f/g/a.git"))),
            act(Action::CreateDirAll(Place::Physical, s("f/g/a.git"))),
            act(Action::Rename(Place::Physical, s("f/a.git"), Place::Staging, s("f/a.git"))),
            act(Action::Rename(Place::Physical, s("f/g/a.git"), Place::Staging, s("f/g/a.git"))),
            say("'f/a.git' -> 'f/g/a.git'"),
            act(Action::Rename(Place::Staging, s("f/a.git"), Place::Physical, s("f/g/a.git"))),
            say("'f/g/a.git' -> 'f/g/g/a.git'"),
            act(Action::Rename(Place::Staging, s("f/g/a.git"), Place::Physical, s("f/g/g/a.git"))),
            act(Action::Unlink(s("f/g/a.git"))),
            act(Action::Link(s("f/g/a.git"))),
            act(Action::Link(s("f/g/g/a.git"))),
            act(Action::Unlink(s("f/a.git"))),
            act(Action::Prune(Place::Visible, s("f/a.git"))),
            act(Action::Prune(Place::Physical, s("f/a.git"))),
            act(Action::DropStaging),
            say("Moved 2 repositories"),
        ]
    );
}

#[test]
fn move_of_a_folder_onto_itself_has_nothing_to_do() {
    let entries = vec![folder("f"), link("f/a.git"), folder("f/f"), link("f/f/a.git")];
    let script = move_multiple(&vec![s("f")], "f", &entries, false);
    assert_eq!((script.steps, script.status), (vec![warn("Nothing to do")], 0));
}

#[test]
fn rename_to_a_path_too_long_with_its_suffix_is_refused() {
    let entries = vec![link("a.git")];
    let long = "b".repeat(253);
    let script = move_single("a.git", &long, &entries, false);
    assert_eq!(script.status, 1);
    assert_eq!(script.steps, vec![warn("Path cannot exceed 256 characters")]);
    let fits = "b".repeat(252);
    let renamed = move_single("a.git", &fits, &entries, true);
    assert_eq!(renamed.steps, vec![say(&format!("'a.git' -> '{}.git'", fits))]);
}

#[test]
fn rename_one_repository() {
    let entries = vec![link("a.git")];
    let script = move_single("a.git", "team/b", &entries, false);
    assert_eq!(script.status, 0);
    assert_eq!(
        script.steps,
        vec![
            say("'a.git' -> 'team/b.git'"),
            act(Action::CreateDirAll(Place::Physical, s("team/b.git"))),
            act(Action::CreateDirAll(Place::Visible, s("team"))),
            act(Action::Rename(Place::Physical, s("a.git"), Place::Physical, s("team/b.git"))),
            act(Action::Link(s("team/b.git"))),
            act(Action::Unlink(s("a.git"))),
            act(Action::Prune(Place::Visible, s("a.git"))),
            act(Action::Prune(Place::Physical, s("a.git"))),
            say("Repository renamed"),
        ]
    );
}

#[test]
fn rename_to_itself_has_nothing_to_do() {
    let entries = vec![link("a.git")];
    let script = move_single("a.git", "a", &entries, false);
    assert_eq!((script.steps, script.status), (vec![say("Nothing to do")], 0));
}

#[test]
fn rename_to_an_occupied_path_is_refused() {
    let entries = vec![link("a.git"), link("b.git")];
    let script = move_single("a.git", "b", &entries, false);
    assert_eq!(script.status, 1);
    assert_eq!(script.steps, vec![warn("Cannot rename 'a.git' -> 'b.git' : Destination occupied")]);
}

#[test]
fn rename_dry_run_changes_nothing() {
    let entries = vec![link("a.git")];
    let script = move_single("a.git", "b.git", &entries, true);
    assert_eq!((script.steps, script.status), (vec![say("'a.git' -> 'b.git'")], 0));
}

#[test]
fn plan_move_picks_the_mode() {
    let entries = vec![link("a.git"), link("b.git")];
    let none = plan_move(&vec![], "x", &entries, false);
    assert_eq!((none.steps, none.status), (vec![warn("No matching repositories found")], 1));
    let single = plan_move(&vec![s("a.git")], "c", &entries, true);
    assert_eq!(single.steps, vec![say("'a.git' -> 'c.git'")]);
    let into_folder = plan_move(&vec![s("a.git")], "c/", &entries, true);
    assert_eq!(into_folder.steps, vec![say("Plan to move 1 repositories:"), say("'a.git' -> 'c/a.git'")]);
    let many = plan_move(&vec![s("a.git"), s("b.git")], "c", &entries, true);
    assert_eq!(many.steps.len(), 3);
}

#[test]
fn parent_of_a_path() {
    assert_eq!(parent_of("a/b/c.git"), "a/b");
    assert_eq!(parent_of("c.git"), "");
}

use commands::dispatch::{
    dispatch_line, dispatch_words, git_subcommand, invoke_command, is_permitted,
    parse_forced_command, resolve_alias, verb_of, Mode, Request, Verb,
};
use commands::error::ValidationError;
use commands::home::{get_repo_home, locate, repo_home_for, staging_home};
use commands::prune::{ancestors_of, clean_empty_parent_folders, look_at, prune_above, Found};
use commands::script::{Place, Script, Step};
use commands::shell::{
    display_buffer, format_buffer, handle_key_event, invoke_prompt, prompt_clear, prompt_delete,
    prompt_enter, prompt_erase, prompt_input, prompt_set_cursor, prompt_shift_cursor, KeyCode,
    KeyEvent, KeyOutcome, Modifiers, Shell,
};

fn strings(texts: &[&str]) -> Vec<String> {
    texts.iter().map(|t| t.to_string()).collect()
}

fn not_found(word: &str) -> Script {
    Script { steps: vec![Step::Warn(format!("{}: command not found...", word))], status: 127 }
}

#[test]
fn aliases_resolve() {
    for (alias, name) in [
        ("mk", "create"),
        ("init", "create"),
        ("rm", "delete"),
        ("remove", "delete"),
        ("del", "delete"),
        ("mv", "move"),
        ("rename", "move"),
        ("ls", "list"),
        ("l", "list"),
        ("dir", "list"),
        ("find", "list"),
        ("list", "list"),
        ("help", "help"),
        ("anything", "anything"),
    ] {
        assert_eq!(resolve_alias(alias), name);
    }
}

#[test]
fn verbs_by_name() {
    assert_eq!(verb_of("git-receive-pack"), Some(Verb::ReceivePack));
    assert_eq!(verb_of("git-upload-pack"), Some(Verb::UploadPack));
    assert_eq!(verb_of("git upload-archive"), Some(Verb::UploadArchive));
    assert_eq!(verb_of("create"), Some(Verb::Create));
    assert_eq!(verb_of("exit"), Some(Verb::Exit));
    assert_eq!(verb_of("clear"), Some(Verb::Clear));
    assert_eq!(verb_of("ls"), None);
    assert_eq!(verb_of(""), None);
}

#[test]
fn forced_mode_only_transfers_data() {
    for verb in [Verb::ReceivePack, Verb::UploadPack, Verb::UploadArchive] {
        assert!(is_permitted(Mode::Forced, verb));
        assert!(!is_permitted(Mode::Interactive, verb));
    }
    for verb in [Verb::Create, Verb::Delete, Verb::Move, Verb::List, Verb::Help, Verb::Exit, Verb::Clear] {
        assert!(!is_permitted(Mode::Forced, verb));
        assert!(is_permitted(Mode::Interactive, verb));
    }
}

#[test]
fn data_transfer_is_git_s() {
    assert_eq!(git_subcommand(Verb::ReceivePack), Some("receive-pack"));
    assert_eq!(git_subcommand(Verb::UploadPack), Some("upload-pack"));
    assert_eq!(git_subcommand(Verb::UploadArchive), Some("upload-archive"));
    assert_eq!(git_subcommand(Verb::List), None);
}

#[test]
fn commands_are_dispatched() {
    assert_eq!(invoke_command(Mode::Interactive, &strings(&["ls", "-c"])), Ok(Verb::List));
    assert_eq!(invoke_command(Mode::Interactive, &strings(&["mk", "a"])), Ok(Verb::Create));
    assert_eq!(invoke_command(Mode::Forced, &strings(&["git-upload-pack", "a.git"])), Ok(Verb::UploadPack));
    assert_eq!(invoke_command(Mode::Forced, &strings(&["ls"])), Err(not_found("ls")));
    assert_eq!(invoke_command(Mode::Forced, &strings(&["create", "a"])), Err(not_found("create")));
    assert_eq!(invoke_command(Mode::Interactive, &strings(&["git-upload-pack"])), Err(not_found("git-upload-pack")));
    assert_eq!(invoke_command(Mode::Interactive, &strings(&["sh"])), Err(not_found("sh")));
}

#[test]
fn command_lines_are_split() {
    assert_eq!(
        dispatch_line(Mode::Interactive, "mv 'my repo' \"team one\"/x"),
        Request::Run(Verb::Move, strings(&["mv", "my repo", "team one/x"]))
    );
    assert_eq!(
        dispatch_line(Mode::Forced, "git-receive-pack 'team/a.git'"),
        Request::Run(Verb::ReceivePack, strings(&["git-receive-pack", "team/a.git"]))
    );
    assert_eq!(dispatch_line(Mode::Interactive, "   "), Request::Nothing);
    assert_eq!(dispatch_line(Mode::Interactive, "ls 'open"), Request::Malformed);
    assert_eq!(dispatch_line(Mode::Interactive, "nope"), Request::Refused(not_found("nope")));
}

#[test]
fn split_words_are_dispatched() {
    assert_eq!(dispatch_words(Mode::Interactive, None), Request::Malformed);
    assert_eq!(dispatch_words(Mode::Interactive, Some(vec![])), Request::Nothing);
    assert_eq!(
        dispatch_words(Mode::Interactive, Some(strings(&["del", "x"]))),
        Request::Run(Verb::Delete, strings(&["del", "x"]))
    );
}

#[test]
fn forced_command_must_not_be_empty() {
    assert_eq!(parse_forced_command(""), Err(ValidationError::MissingCommand));
    assert_eq!(parse_forced_command("git-upload-pack x"), Ok("git-upload-pack x".to_string()));
}

#[test]
fn homes_and_places() {
    assert_eq!(repo_home_for("alice"), "/srv/repos/alice");
    assert_eq!(repo_home_for("/elsewhere"), "/elsewhere");
    assert_eq!(staging_home("/srv/repos/alice"), "/srv/repos/alice.tmp");
    assert_eq!(locate(Place::Visible, "team/a.git", "/srv/repos/alice"), "team/a.git");
    assert_eq!(locate(Place::Physical, "team/a.git", "/srv/repos/alice"), "/srv/repos/alice/team/a.git");
    assert_eq!(locate(Place::Staging, "team/a.git", "/srv/repos/alice"), "/srv/repos/alice.tmp/team/a.git");
}

#[test]
fn home_of_the_current_user() {
    if let Some(home) = get_repo_home() {
        assert!(home.starts_with("/srv/repos/"), "{}", home);
        assert!(home.len() > "/srv/repos/".len());
    }
}

#[test]
fn ancestors_nearest_first() {
    assert_eq!(ancestors_of("a/b/c/d.git"), strings(&["a/b/c", "a/b", "a"]));
    assert_eq!(ancestors_of("d.git"), Vec::<String>::new());
    assert_eq!(ancestors_of(""), Vec::<String>::new());
}

#[test]
fn pruning_goes_up_while_folders_are_empty() {
    let mut p = clean_empty_parent_folders("a/b/c/d.git", None);
    assert_eq!(p.current(), Some("a/b/c"));
    assert!(p.decide(Found::Empty));
    assert_eq!(p.current(), Some("a/b"));
    assert!(p.decide(Found::Empty));
    assert_eq!(p.current(), Some("a"));
    assert!(!p.decide(Found::Occupied));
    assert_eq!(p.current(), None);
    assert!(!p.decide(Found::Empty));
}

#[test]
fn pruning_stops_at_a_missing_folder() {
    let mut p = clean_empty_parent_folders("a/b/d.git", None);
    assert!(!p.decide(Found::Missing));
    assert_eq!(p.current(), None);
}

#[test]
fn folders_are_looked_at() {
    let tree = strings(&["team", "team/deep", "team/x.git", "empty"]);
    assert_eq!(look_at(&tree, "team"), Found::Occupied);
    assert_eq!(look_at(&tree, "team/deep"), Found::Empty);
    assert_eq!(look_at(&tree, "empty"), Found::Empty);
    assert_eq!(look_at(&tree, "tea"), Found::Missing);
    assert_eq!(look_at(&tree, "nowhere"), Found::Missing);
}

#[test]
fn folders_made_for_one_repository_go_with_it() {
    let mut visible = strings(&["old.git", "team", "team/deep", "team/deep/er"]);
    prune_above(&mut visible, "team/deep/er/new.git", None);
    assert_eq!(visible, strings(&["old.git"]));
    let mut physical = strings(&["home", "home/old.git", "home/team", "home/team/deep"]);
    prune_above(&mut physical, "home/team/deep/new.git", Some("home"));
    assert_eq!(physical, strings(&["home", "home/old.git"]));
}

#[test]
fn folders_that_hold_something_else_stay() {
    let mut tree = strings(&["team", "team/deep", "team/x.git"]);
    prune_above(&mut tree, "team/deep/new.git", None);
    assert_eq!(tree, strings(&["team", "team/x.git"]));
    let mut kept = strings(&["team", "team/deep", "team/deep/other.git"]);
    prune_above(&mut kept, "team/deep/new.git", None);
    assert_eq!(kept, strings(&["team", "team/deep", "team/deep/other.git"]));
    let mut gap = strings(&["team"]);
    prune_above(&mut gap, "team/deep/new.git", None);
    assert_eq!(gap, strings(&["team"]));
    let mut only = strings(&["home"]);
    prune_above(&mut only, "home/new.git", Some("home"));
    assert_eq!(only, strings(&["home"]));
}

#[test]
fn pruning_never_removes_the_stop() {
    let mut p = clean_empty_parent_folders("home/a/b/d.git", Some("home"));
    assert_eq!(p.current(), Some("home/a/b"));
    assert!(p.decide(Found::Empty));
    assert_eq!(p.current(), Some("home/a"));
    assert!(p.decide(Found::Empty));
    assert_eq!(p.current(), None);
    let mut inner = clean_empty_parent_folders("home/a/b/d.git", Some("home/a"));
    assert_eq!(inner.current(), Some("home/a/b"));
    assert!(inner.decide(Found::Empty));
    assert_eq!(inner.current(), None);
}

fn key(modifiers: Modifiers, code: KeyCode) -> KeyEvent {
    KeyEvent { modifiers, code }
}

fn typed(text: &str) -> Shell {
    let mut shell = Shell::new(80);
    for c in text.chars() {
        prompt_input(&mut shell, c);
    }
    shell
}

fn text(shell: &Shell) -> String {
    shell.buffer.iter().collect()
}

#[test]
fn shell_starts_empty() {
    let shell = Shell::new(80);
    assert_eq!(shell.prompt, "> ");
    assert!(shell.history.is_empty() && shell.buffer.is_empty());
    assert_eq!((shell.executed, shell.cursor, shell.last_width, shell.prompt_to_cursor), (0, 0, 80, 0));
    assert!(!shell.update);
}

#[test]
fn prompt_takes_input_at_the_cursor() {
    let mut shell = typed("lst");
    prompt_set_cursor(&mut shell, 1);
    prompt_input(&mut shell, 'i');
    assert_eq!((text(&shell).as_str(), shell.cursor, shell.update), ("list", 2, true));
}

#[test]
fn prompt_cursor_stays_in_the_buffer() {
    let mut shell = typed("ab");
    prompt_shift_cursor(&mut shell, 1);
    assert_eq!(shell.cursor, 2);
    prompt_shift_cursor(&mut shell, -1);
    assert_eq!(shell.cursor, 1);
    prompt_shift_cursor(&mut shell, -1);
    prompt_shift_cursor(&mut shell, -1);
    assert_eq!(shell.cursor, 0);
    prompt_shift_cursor(&mut shell, isize::MIN);
    prompt_shift_cursor(&mut shell, isize::MAX);
    assert_eq!(shell.cursor, 0);
    shell.update = false;
    prompt_set_cursor(&mut shell, 0);
    assert!(!shell.update);
    prompt_set_cursor(&mut shell, 2);
    assert!(shell.update);
}

#[test]
fn prompt_deletes_before_and_under_the_cursor() {
    let mut shell = typed("abcd");
    prompt_delete(&mut shell, -1);
    assert_eq!((text(&shell).as_str(), shell.cursor), ("abc", 3));
    prompt_delete(&mut shell, 0);
    assert_eq!((text(&shell).as_str(), shell.cursor), ("abc", 3));
    prompt_set_cursor(&mut shell, 0);
    prompt_delete(&mut shell, -1);
    assert_eq!((text(&shell).as_str(), shell.cursor), ("abc", 0));
    prompt_delete(&mut shell, 0);
    assert_eq!((text(&shell).as_str(), shell.cursor), ("bc", 0));
}

#[test]
fn prompt_erase_and_enter() {
    let mut shell = typed("ls -c");
    prompt_enter(&mut shell);
    assert_eq!(shell.history, vec!["ls -c".chars().collect::<Vec<char>>()]);
    assert!(shell.buffer.is_empty());
    assert_eq!(shell.cursor, 0);
    let mut other = typed("oops");
    prompt_erase(&mut other);
    assert!(other.buffer.is_empty() && other.history.is_empty());
    assert_eq!(other.cursor, 0);
}

#[test]
fn prompt_hands_out_entered_lines_in_order() {
    let mut shell = typed("ls");
    prompt_enter(&mut shell);
    prompt_input(&mut shell, 'l');
    prompt_enter(&mut shell);
    assert_eq!(invoke_prompt(&mut shell), Some("ls".to_string()));
    assert_eq!(invoke_prompt(&mut shell), Some("l".to_string()));
    assert_eq!(invoke_prompt(&mut shell), None);
    assert_eq!(shell.executed, 2);
}

#[test]
fn keys_edit_the_prompt() {
    let mut shell = Shell::new(80);
    assert_eq!(handle_key_event(key(Modifiers::Plain, KeyCode::Char('l')), &mut shell), KeyOutcome::Handled);
    assert_eq!(handle_key_event(key(Modifiers::Shift, KeyCode::Char('S')), &mut shell), KeyOutcome::Handled);
    assert_eq!(text(&shell), "lS");
    handle_key_event(key(Modifiers::Plain, KeyCode::Left), &mut shell);
    assert_eq!(shell.cursor, 1);
    handle_key_event(key(Modifiers::Control, KeyCode::Home), &mut shell);
    assert_eq!(shell.cursor, 0);
    handle_key_event(key(Modifiers::Other, KeyCode::End), &mut shell);
    assert_eq!(shell.cursor, 2);
    handle_key_event(key(Modifiers::Plain, KeyCode::Backspace), &mut shell);
    assert_eq!(text(&shell), "l");
    handle_key_event(key(Modifiers::Plain, KeyCode::Home), &mut shell);
    handle_key_event(key(Modifiers::Plain, KeyCode::Delete), &mut shell);
    assert_eq!(text(&shell), "");
    handle_key_event(key(Modifiers::Plain, KeyCode::Char('x')), &mut shell);
    handle_key_event(key(Modifiers::Control, KeyCode::Left), &mut shell);
    assert_eq!(shell.cursor, 1);
    handle_key_event(key(Modifiers::Other, KeyCode::Char('y')), &mut shell);
    handle_key_event(key(Modifiers::Control, KeyCode::Char('x')), &mut shell);
    handle_key_event(key(Modifiers::Plain, KeyCode::Other), &mut shell);
    assert_eq!(text(&shell), "x");
    handle_key_event(key(Modifiers::Plain, KeyCode::Enter), &mut shell);
    assert_eq!(shell.history.len(), 1);
    assert!(shell.buffer.is_empty());
}

#[test]
fn control_keys_steer_the_shell() {
    let mut shell = typed("abc");
    shell.prompt_to_cursor = 3;
    assert_eq!(handle_key_event(key(Modifiers::Control, KeyCode::Char('l')), &mut shell), KeyOutcome::ClearScreen);
    assert_eq!(shell.prompt_to_cursor, 0);
    assert_eq!(text(&shell), "abc");
    assert_eq!(handle_key_event(key(Modifiers::Control, KeyCode::Char('d')), &mut shell), KeyOutcome::Exit(0));
    assert_eq!(handle_key_event(key(Modifiers::Control, KeyCode::Char('c')), &mut shell), KeyOutcome::Handled);
    assert!(shell.buffer.is_empty());
}

#[test]
fn screen_cleared() {
    let mut shell = typed("abc");
    shell.prompt_to_cursor = 2;
    shell.update = false;
    prompt_clear(&mut shell);
    assert_eq!((shell.prompt_to_cursor, shell.update, shell.cursor), (0, true, 3));
}

#[test]
fn buffer_is_laid_out() {
    let line: Vec<char> = "abcdef".chars().collect();
    assert_eq!(format_buffer(&line, 6, 80), ("> abcdef ".to_string(), 8, 0));
    assert_eq!(format_buffer(&line, 2, 80), ("> abcdef".to_string(), 4, 0));
    assert_eq!(format_buffer(&line, 0, 80), ("> abcdef".to_string(), 2, 0));
    assert_eq!(format_buffer(&line, 6, 6), ("> abcdef ".to_string(), 2, 1));
    assert_eq!(format_buffer(&line, 3, 5), ("> abcdef".to_string(), 0, 1));
    assert_eq!(format_buffer(&line, 9, 80), ("> abcdef".to_string(), 8, 0));
    assert_eq!(format_buffer(&vec![], 0, 80), (">  ".to_string(), 2, 0));
}

#[test]
fn prompt_is_drawn() {
    let mut shell = typed("abc");
    shell.prompt_to_cursor = 1;
    let frame = display_buffer(&mut shell, 4);
    assert_eq!(frame.text, "> abc ");
    assert_eq!((frame.rows_up, frame.col, frame.row), (1, 1, 1));
    assert_eq!((shell.prompt_to_cursor, shell.last_width, shell.update), (1, 4, false));
    prompt_enter(&mut shell);
    prompt_input(&mut shell, 'z');
    let entered = display_buffer(&mut shell, 80);
    assert_eq!(entered.text, "> abc ");
    assert_eq!((entered.col, entered.row), (5, 0));
}

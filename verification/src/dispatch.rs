//! The command dispatcher: a command line is split into words, the first
//! word is freed of its alias, and the verb it names is let through only
//! where the mode of the shell permits it.

use crate::error::ValidationError;
use crate::script::{push_step, Script, Step};
use crate::text::{concat, str_eq, views};
use vstd::prelude::*;

verus! {

/// How the shell was invoked.
#[derive(Debug, Clone, Copy, PartialEq, Eq)]
pub enum Mode {
    /// The transport handed over the command that the operator asked for.
    Forced,
    /// The operator types commands at a prompt.
    Interactive,
}

/// Everything the shell can be asked to do.
#[derive(Debug, Clone, Copy, PartialEq, Eq)]
pub enum Verb {
    ReceivePack,
    UploadPack,
    UploadArchive,
    Create,
    Delete,
    Move,
    List,
    Help,
    Exit,
    Clear,
}

/// The status that says a command was not found.
pub const NOT_FOUND: i32 = 127;

/// The name that an alias stands for; any other name stands for itself.
pub open spec fn canonical(name: Seq<char>) -> Seq<char> {
    if name == "mk"@ || name == "init"@ {
        "create"@
    } else if name == "rm"@ || name == "remove"@ || name == "del"@ {
        "delete"@
    } else if name == "mv"@ || name == "rename"@ {
        "move"@
    } else if name == "ls"@ || name == "l"@ || name == "dir"@ || name == "find"@ {
        "list"@
    } else {
        name
    }
}

/// The verb that a canonical name names, if any.
pub open spec fn verb_named(name: Seq<char>) -> Option<Verb> {
    if name == "git-receive-pack"@ {
        Some(Verb::ReceivePack)
    } else if name == "git-upload-pack"@ {
        Some(Verb::UploadPack)
    } else if name == "git upload-archive"@ {
        Some(Verb::UploadArchive)
    } else if name == "create"@ {
        Some(Verb::Create)
    } else if name == "delete"@ {
        Some(Verb::Delete)
    } else if name == "move"@ {
        Some(Verb::Move)
    } else if name == "list"@ {
        Some(Verb::List)
    } else if name == "help"@ {
        Some(Verb::Help)
    } else if name == "exit"@ {
        Some(Verb::Exit)
    } else if name == "clear"@ {
        Some(Verb::Clear)
    } else {
        None
    }
}

/// What each mode lets through: a forced command may only transfer data;
/// at the prompt the repositories are managed and the shell is steered.
pub open spec fn permits(mode: Mode, verb: Verb) -> bool {
    match mode {
        Mode::Forced => verb == Verb::ReceivePack || verb == Verb::UploadPack || verb
            == Verb::UploadArchive,
        Mode::Interactive => verb == Verb::Create || verb == Verb::Delete || verb == Verb::Move
            || verb == Verb::List || verb == Verb::Help || verb == Verb::Exit || verb
            == Verb::Clear,
    }
}

/// The verb that the word asks for in the mode, if the mode permits it.
pub open spec fn resolved(mode: Mode, word: Seq<char>) -> Option<Verb> {
    match verb_named(canonical(word)) {
        Some(verb) => if permits(mode, verb) {
            Some(verb)
        } else {
            None
        },
        None => None,
    }
}

/// The line that says a command was not found.
pub open spec fn not_found_line(word: Seq<char>) -> Seq<char> {
    word + ": command not found..."@
}

/// What `shlex::split` makes of a command line: the words, split and
/// unquoted as a POSIX shell would, or `None` where the line is malformed.
pub uninterp spec fn shell_words(line: Seq<char>) -> Option<Seq<Seq<char>>>;

/// Calls `shlex::split` on the line. The contract claims that the outcome
/// is a function of the line. Nothing is claimed about how a line is split
/// or which lines are malformed.
#[verifier::external_body]
fn split_words(line: &str) -> (r: Option<Vec<String>>)
    ensures
        match r {
            Some(words) => shell_words(line@) == Some(views(words@)),
            None => shell_words(line@) is None,
        },
{
    shlex::split(line)
}

/// The name that an alias stands for.
pub fn resolve_alias(name: &str) -> (r: String)
    ensures
        r@ == canonical(name@),
{
    if str_eq(name, "mk") || str_eq(name, "init") {
        "create".to_string()
    } else if str_eq(name, "rm") || str_eq(name, "remove") || str_eq(name, "del") {
        "delete".to_string()
    } else if str_eq(name, "mv") || str_eq(name, "rename") {
        "move".to_string()
    } else if str_eq(name, "ls") || str_eq(name, "l") || str_eq(name, "dir") || str_eq(
        name,
        "find",
    ) {
        "list".to_string()
    } else {
        name.to_string()
    }
}

/// The verb that a canonical name names, if any.
pub fn verb_of(name: &str) -> (r: Option<Verb>)
    ensures
        r == verb_named(name@),
{
    if str_eq(name, "git-receive-pack") {
        Some(Verb::ReceivePack)
    } else if str_eq(name, "git-upload-pack") {
        Some(Verb::UploadPack)
    } else if str_eq(name, "git upload-archive") {
        Some(Verb::UploadArchive)
    } else if str_eq(name, "create") {
        Some(Verb::Create)
    } else if str_eq(name, "delete") {
        Some(Verb::Delete)
    } else if str_eq(name, "move") {
        Some(Verb::Move)
    } else if str_eq(name, "list") {
        Some(Verb::List)
    } else if str_eq(name, "help") {
        Some(Verb::Help)
    } else if str_eq(name, "exit") {
        Some(Verb::Exit)
    } else if str_eq(name, "clear") {
        Some(Verb::Clear)
    } else {
        None
    }
}

/// The git command that carries out a verb of data transfer.
pub open spec fn git_command(verb: Verb) -> Option<Seq<char>> {
    match verb {
        Verb::ReceivePack => Some("receive-pack"@),
        Verb::UploadPack => Some("upload-pack"@),
        Verb::UploadArchive => Some("upload-archive"@),
        _ => None,
    }
}

/// The git command that carries out a verb of data transfer; `None` for
/// every other verb.
pub fn git_subcommand(verb: Verb) -> (r: Option<&'static str>)
    ensures
        match r {
            Some(name) => git_command(verb) == Some(name@),
            None => git_command(verb) is None,
        },
{
    match verb {
        Verb::ReceivePack => Some("receive-pack"),
        Verb::UploadPack => Some("upload-pack"),
        Verb::UploadArchive => Some("upload-archive"),
        _ => None,
    }
}

/// Whether the mode lets the verb through.
pub fn is_permitted(mode: Mode, verb: Verb) -> (r: bool)
    ensures
        r == permits(mode, verb),
{
    match mode {
        Mode::Forced => match verb {
            Verb::ReceivePack => true,
            Verb::UploadPack => true,
            Verb::UploadArchive => true,
            _ => false,
        },
        Mode::Interactive => match verb {
            Verb::Create => true,
            Verb::Delete => true,
            Verb::Move => true,
            Verb::List => true,
            Verb::Help => true,
            Verb::Exit => true,
            Verb::Clear => true,
            _ => false,
        },
    }
}

/// Decides what the words of a command line ask for. The first word names
/// the command; its alias is resolved before the mode is asked. A word
/// that names no verb, or one that the mode does not permit, gives the
/// script that reports it as not found.
pub fn invoke_command(mode: Mode, args: &Vec<String>) -> (r: Result<Verb, Script>)
    requires
        args.len() > 0,
    ensures
        match r {
            Ok(verb) => resolved(mode, args@[0]@) == Some(verb),
            Err(script) => resolved(mode, args@[0]@) is None && script@ == (
                seq![Step::<Seq<char>>::Warn(not_found_line(args@[0]@))],
                127int,
            ),
        },
{
    let command: &str = args[0].as_str();
    let name = resolve_alias(command);
    match verb_of(name.as_str()) {
        Some(verb) => {
            if is_permitted(mode, verb) {
                return Ok(verb);
            }
        },
        None => {},
    }
    let mut steps: Vec<Step<String>> = Vec::new();
    push_step(&mut steps, Step::Warn(concat(command, ": command not found...")));
    let script = Script { steps, status: NOT_FOUND };
    assert(script@.0 =~= seq![Step::<Seq<char>>::Warn(not_found_line(command@))]);
    Err(script)
}

/// What a command line asks for.
#[derive(Debug, Clone, PartialEq, Eq)]
pub enum Request {
    /// Run the verb with these words; the first is the command as typed.
    Run(Verb, Vec<String>),
    /// The line holds no word.
    Nothing,
    /// The line cannot be split: a quote or an escape is left open.
    Malformed,
    /// Carry out the script: the command was not found.
    Refused(Script),
}

/// What the words of a command line ask for.
pub open spec fn request_matches(mode: Mode, words: Option<Seq<Seq<char>>>, r: Request) -> bool {
    match words {
        None => r is Malformed,
        Some(ws) => if ws.len() == 0 {
            r is Nothing
        } else {
            match resolved(mode, ws[0]) {
                Some(verb) => r matches Request::Run(v, args) && v == verb && views(args@) == ws,
                None => r matches Request::Refused(script) && script@ == (
                    seq![Step::<Seq<char>>::Warn(not_found_line(ws[0]))],
                    127int,
                ),
            }
        },
    }
}

/// Decides what split words ask for.
pub fn dispatch_words(mode: Mode, words: Option<Vec<String>>) -> (r: Request)
    ensures
        request_matches(
            mode,
            match words {
                Some(ws) => Some(views(ws@)),
                None => None,
            },
            r,
        ),
{
    match words {
        None => Request::Malformed,
        Some(ws) => {
            if ws.len() == 0 {
                Request::Nothing
            } else {
                assert(views(ws@)[0] == ws@[0]@);
                match invoke_command(mode, &ws) {
                    Ok(verb) => Request::Run(verb, ws),
                    Err(script) => Request::Refused(script),
                }
            }
        },
    }
}

/// Splits a command line into words and decides what they ask for.
pub fn dispatch_line(mode: Mode, line: &str) -> (r: Request)
    ensures
        request_matches(mode, shell_words(line@), r),
{
    dispatch_words(mode, split_words(line))
}

/// The command handed to the shell by the transport must not be empty.
pub fn parse_forced_command(command: &str) -> (r: Result<String, ValidationError>)
    ensures
        match r {
            Ok(c) => command@.len() > 0 && c@ == command@,
            Err(e) => command@.len() == 0 && e == ValidationError::MissingCommand,
        },
{
    if command.unicode_len() == 0 {
        Err(ValidationError::MissingCommand)
    } else {
        Ok(command.to_string())
    }
}

/// An alias changes nothing about what is permitted: the alias and the
/// name it stands for ask for the same thing in every mode, and no alias
/// reaches a verb that transfers data.
pub proof fn law_alias_is_transparent(mode: Mode, word: Seq<char>)
    ensures
        resolved(mode, canonical(word)) == resolved(mode, word),
        canonical(word) != word ==> resolved(Mode::Forced, word) is None,
{
    lemma_names_differ();
}

/// The names of the dispatcher are pairwise different strings.
pub proof fn lemma_names_differ()
    ensures
        canonical("create"@) == "create"@,
        canonical("delete"@) == "delete"@,
        canonical("move"@) == "move"@,
        canonical("list"@) == "list"@,
        verb_named("create"@) == Some(Verb::Create),
        verb_named("delete"@) == Some(Verb::Delete),
        verb_named("move"@) == Some(Verb::Move),
        verb_named("list"@) == Some(Verb::List),
{
    reveal_strlit("mk");
    reveal_strlit("init");
    reveal_strlit("rm");
    reveal_strlit("remove");
    reveal_strlit("del");
    reveal_strlit("mv");
    reveal_strlit("rename");
    reveal_strlit("ls");
    reveal_strlit("l");
    reveal_strlit("dir");
    reveal_strlit("find");
    reveal_strlit("create");
    reveal_strlit("delete");
    reveal_strlit("move");
    reveal_strlit("list");
    reveal_strlit("git-receive-pack");
    reveal_strlit("git-upload-pack");
    reveal_strlit("git upload-archive");
    assert("create"@.len() == 6 && "delete"@.len() == 6);
    assert("move"@.len() == 4 && "list"@.len() == 4);
    assert("create"@[0] == 'c' && "delete"@[0] == 'd' && "move"@[0] == 'm' && "list"@[0] == 'l');
    assert("mk"@.len() == 2 && "init"@[0] == 'i' && "rm"@.len() == 2 && "remove"@[0] == 'r'
        && "del"@.len() == 3 && "mv"@.len() == 2 && "rename"@[0] == 'r' && "ls"@.len() == 2
        && "l"@.len() == 1 && "dir"@.len() == 3 && "find"@[0] == 'f');
    assert("git-receive-pack"@.len() == 16 && "git-upload-pack"@.len() == 15
        && "git upload-archive"@.len() == 18);
}

} // verus!

//! The commands of a restricted git shell, as a verified library.
//!
//! An operator reaches the shell over SSH and manages a namespace of bare
//! repositories: a visible tree of links and folders under the working
//! directory, and a physical tree of repositories under a repository
//! home. Everything the operator types is untrusted. This library decides
//! what each command does; it never touches the disk itself.
//!
//! * [`validate`] and [`glob`] turn strings into safe relative paths and
//!   match patterns.
//! * [`walk`] finds the repositories of a listing of the visible tree.
//! * [`create`], [`delete`], [`list`] and [`relocate`] write a [`script`]
//!   for each command: the changes to make and the lines to print.
//!   [`plan`] judges a batch of moves before anything is changed.
//! * [`dispatch`] decides which command a line asks for, [`shell`] edits
//!   the line at the prompt, [`prune`] and [`home`] say where things lie.
//! * [`state`] says what a script means on the trees, and [`tree`] carries
//!   scripts out in memory. [`effects`], [`lifecycle`] and [`safety`] prove
//!   what the commands do to trees that are in order.
//! * [`registry`] holds the rules of the simpler flat registry.


pub mod create;
pub mod delete;
pub mod dispatch;
pub mod effects;
pub mod error;
pub mod glob;
pub mod home;
pub mod lifecycle;
pub mod list;
pub mod path;
pub mod plan;
pub mod prune;
pub mod registry;
pub mod relocate;
pub mod safety;
pub mod script;
pub mod shell;
pub mod state;
pub mod text;
pub mod tree;
pub mod validate;
pub mod walk;

pub use crate::dispatch::invoke_command;
pub use crate::error::ValidationError;
pub use crate::glob::{make_glob_set, parse_repo_glob, GlobPattern, PatternSet};
pub use crate::home::{get_repo_home, BASE_REPO_PATH};
pub use crate::path::{can_represent_repo, represents_repo};
pub use crate::prune::clean_empty_parent_folders;
pub use crate::registry::parse_path;
pub use crate::script::{Action, Place, Script, Step};
pub use crate::shell::Shell;
pub use crate::validate::{
    enforce_git_suffix, parse_command, parse_repo_path, parse_repo_path_or_folder,
};
pub use crate::walk::{filter_repos, t_filter_repos, Entry, EntryKind, FilterRepos};

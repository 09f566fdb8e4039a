//! Why an argument was refused.

use vstd::prelude::*;

verus! {

/// The reason a path, pattern or command name was refused. Nothing is
/// touched on disk once one of these is returned.
#[derive(Debug, Clone, PartialEq, Eq)]
pub enum ValidationError {
    /// The path is the empty string.
    EmptyPath,
    /// The path has more than 256 characters.
    PathTooLong,
    /// The path or pattern begins at the filesystem root.
    AbsolutePath,
    /// The path or pattern has a `..` segment.
    Backtracking,
    /// The path has more than 4 components.
    TooDeep,
    /// The path is not made of names of letters, digits, `_` and `-`.
    InvalidName,
    /// The path lies in the folder that holds the commands.
    ReservedFolder,
    /// A folder was given where one repository is needed.
    DirectoryNotAllowed,
    /// The pattern is the empty string.
    EmptyGlob,
    /// The pattern has more than 64 characters.
    GlobTooLong,
    /// The pattern does not compile; the text says why.
    BadGlob(String),
    /// The command name is the empty string.
    EmptyCommand,
    /// The command name is not made of lower-case letters.
    InvalidCommand,
    /// The repository name is not one name of letters, digits, `_` and `-`.
    InvalidRepoName,
    /// The repository name has more than 32 characters.
    RepoNameTooLong,
    /// The folder is not made of names of letters, digits, `_` and `-`.
    InvalidFolderName,
    /// The shell was handed the empty string as its command.
    MissingCommand,
}

impl ValidationError {
    /// The words shown to the operator for this error.
    pub open spec fn text(self) -> Seq<char> {
        match self {
            ValidationError::EmptyPath => "Path cannot be empty"@,
            ValidationError::PathTooLong => "Path cannot exceed 256 characters"@,
            ValidationError::AbsolutePath => "Absolute paths are not allowed"@,
            ValidationError::Backtracking => "Backtracking not allowed"@,
            ValidationError::TooDeep => "Nesting must not exceed a depth of 4"@,
            ValidationError::InvalidName => "Repository and folder names can only contain alphanumeric characters, hyphens, and underscores"@,
            ValidationError::ReservedFolder => "Folder name disallowed"@,
            ValidationError::DirectoryNotAllowed => "Directory not allowed"@,
            ValidationError::EmptyGlob => "Glob cannot be empty"@,
            ValidationError::GlobTooLong => "Glob cannot exceed 64 characters"@,
            ValidationError::BadGlob(why) => why@,
            ValidationError::EmptyCommand => "Command cannot be empty"@,
            ValidationError::InvalidCommand => "Invalid command"@,
            ValidationError::InvalidRepoName => "Names can only contain alphanumeric characters, hyphens, and underscores"@,
            ValidationError::RepoNameTooLong => "Repository name cannot exceed 32 characters"@,
            ValidationError::InvalidFolderName => "Folder names can only contain alphanumeric characters, hyphens, and underscores"@,
            ValidationError::MissingCommand => "command must not be empty"@,
        }
    }

    /// The words shown to the operator for this error.
    pub fn message(&self) -> (r: String)
        ensures
            r@ == self.text(),
    {
        match self {
            ValidationError::EmptyPath => "Path cannot be empty".to_string(),
            ValidationError::PathTooLong => "Path cannot exceed 256 characters".to_string(),
            ValidationError::AbsolutePath => "Absolute paths are not allowed".to_string(),
            ValidationError::Backtracking => "Backtracking not allowed".to_string(),
            ValidationError::TooDeep => "Nesting must not exceed a depth of 4".to_string(),
            ValidationError::InvalidName => "Repository and folder names can only contain alphanumeric characters, hyphens, and underscores".to_string(),
            ValidationError::ReservedFolder => "Folder name disallowed".to_string(),
            ValidationError::DirectoryNotAllowed => "Directory not allowed".to_string(),
            ValidationError::EmptyGlob => "Glob cannot be empty".to_string(),
            ValidationError::GlobTooLong => "Glob cannot exceed 64 characters".to_string(),
            ValidationError::BadGlob(why) => why.clone(),
            ValidationError::EmptyCommand => "Command cannot be empty".to_string(),
            ValidationError::InvalidCommand => "Invalid command".to_string(),
            ValidationError::InvalidRepoName => "Names can only contain alphanumeric characters, hyphens, and underscores".to_string(),
            ValidationError::RepoNameTooLong => "Repository name cannot exceed 32 characters".to_string(),
            ValidationError::InvalidFolderName => "Folder names can only contain alphanumeric characters, hyphens, and underscores".to_string(),
            ValidationError::MissingCommand => "command must not be empty".to_string(),
        }
    }
}

} // verus!

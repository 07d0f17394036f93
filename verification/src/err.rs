//! Errors.

use vstd::prelude::*;
use crate::keyword::KeyWord;

verus! {

/// What can go wrong.
#[derive(Clone, Debug, PartialEq, Eq)]
pub enum BashManError {
    /// The bash completions could not be made.
    Bash,
    /// The metadata command could not be run.
    Cargo,
    /// The credits could not be made.
    Credits,
    /// A directory is not there: what it is for, and its path.
    Dir(&'static str, String),
    /// A keyword occurs twice.
    DuplicateKeyWord(KeyWord),
    /// A text is no keyword.
    KeyWord(String),
    /// An argument of the command line is not understood.
    InvalidCli(String),
    /// The manual pages could not be made.
    Man,
    /// A command has several trailing arguments.
    MultipleArgs(String),
    /// There is nothing to do.
    Noop,
    /// A text is no package name.
    PackageName(String),
    /// The metadata could not be read.
    ParseCargoMetadata(String),
    /// A file could not be read.
    Read(String),
    /// The target is not known.
    Target,
    /// A (sub)command is not known.
    UnknownCommand(String),
    /// A file could not be written.
    Write(String),
    /// The help was asked for.
    PrintHelp,
    /// The list of targets was asked for.
    PrintTargets,
    /// The version was asked for.
    PrintVersion,
}

} // verus!

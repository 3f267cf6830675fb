//! The command line once parsed: which command runs, with which arguments,
//! and the checks made on them before anything is read from disk.
use vstd::prelude::*;
use crate::add::{parse_patterns, parsed_patterns, strings_view};
use crate::update::UpdateArgsError;

verus! {

/// A parsed command line.
pub enum Command {
    /// `add`: embed the repository at `link` into `folder`.
    Add {
        link: String,
        folder: String,
        allow_untracked: bool,
        rev: Option<String>,
        /// The comma-separated `--include` argument.
        include_arg: Option<String>,
        /// The comma-separated `--exclude` argument.
        exclude_arg: Option<String>,
    },
    /// `status`: report drift of the given embed folders (all when none).
    Status { folders: Vec<String>, quiet: bool },
    /// `update`: apply the pinned (or requested) revision to the given embed
    /// folders (all when none).
    Update { folders: Vec<String>, rev: Option<String>, force: bool, overwrite: bool, quiet: bool },
}

/// What runs for a command line.
pub enum Action {
    /// `add`, with its pattern arguments split into patterns.
    Add {
        link: String,
        folder: String,
        allow_untracked: bool,
        rev: Option<String>,
        include_patterns: Vec<String>,
        exclude_patterns: Vec<String>,
    },
    /// `status`.
    Status { folders: Vec<String>, quiet: bool },
    /// `update`, its flags checked.
    Update { folders: Vec<String>, rev: Option<String>, force: bool, overwrite: bool, quiet: bool },
}

/// The view of an optional argument.
pub open spec fn arg_view(arg: Option<String>) -> Option<Seq<char>> {
    match arg {
        Some(s) => Some(s@),
        None => None,
    }
}

/// Dispatch a parsed command line to the command that runs: `add` gets its
/// pattern lists split from the comma-separated arguments; `update` refuses
/// `--overwrite` without `--force` before anything else happens.
pub fn run(command: Command) -> (r: Result<Action, UpdateArgsError>)
    ensures
        match command {
            Command::Add { link, folder, allow_untracked, rev, include_arg, exclude_arg } => r matches Ok(
                Action::Add { link: l, folder: f, allow_untracked: a, rev: v, include_patterns: ip, exclude_patterns: ep },
            ) && l == link && f == folder && a == allow_untracked && v == rev && strings_view(ip@) == parsed_patterns(
                arg_view(include_arg),
            ) && strings_view(ep@) == parsed_patterns(arg_view(exclude_arg)),
            Command::Status { folders, quiet } => r == Ok::<Action, UpdateArgsError>(
                Action::Status { folders, quiet },
            ),
            Command::Update { folders, rev, force, overwrite, quiet } => if overwrite && !force {
                r == Err::<Action, UpdateArgsError>(UpdateArgsError::OverwriteWithoutForce)
            } else {
                r == Ok::<Action, UpdateArgsError>(Action::Update { folders, rev, force, overwrite, quiet })
            },
        },
{
    match command {
        Command::Add { link, folder, allow_untracked, rev, include_arg, exclude_arg } => {
            let include_patterns = parse_patterns(&include_arg);
            let exclude_patterns = parse_patterns(&exclude_arg);
            Ok(Action::Add { link, folder, allow_untracked, rev, include_patterns, exclude_patterns })
        },
        Command::Status { folders, quiet } => Ok(Action::Status { folders, quiet }),
        Command::Update { folders, rev, force, overwrite, quiet } => {
            if overwrite && !force {
                return Err(UpdateArgsError::OverwriteWithoutForce);
            }
            Ok(Action::Update { folders, rev, force, overwrite, quiet })
        },
    }
}

} // verus!

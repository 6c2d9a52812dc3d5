//! `treenotes`: content-versioned notes for the files, directories and declarations of a Git
//! repository.
//!
//! The library maps a Git-visible working tree to content hashes and pairs it with one-line notes
//! keyed by `(repository, repo-relative path, entry kind, content hash)`. Notes survive edits,
//! branch switches and linked worktrees because they are bound to content, not to a mutable path
//! alone. Everything here computes; reading the tree, running Git and talking to the database is
//! left to the program around it.
use vstd::prelude::*;

pub mod annotate;
pub mod ast;
pub mod clock;
pub mod commands;
pub mod digest;
pub mod drawing;
pub mod history;
pub mod inventory;
pub mod listing;
pub mod maps;
pub mod order;
pub mod output;
pub mod paths;
pub mod promises;
pub mod queries;
pub mod readback;
pub mod repo;
pub mod resolve;
pub mod scope;
pub mod state;
pub mod state_tables;
pub mod store;
pub mod tables;
pub mod text;
pub mod tree;
pub mod tree_changes;
pub mod tree_laws;

verus! {

/// Program name used in help output and JSON envelopes.
pub const PROGRAM: &'static str = "treenotes";

/// Version of the JSON envelope written by `--json` commands.
pub const JSON_VERSION: u32 = 3;

/// Version of the SQLite schema this build reads and writes.
pub const SCHEMA_VERSION: i64 = 3;

/// Exit code: success.
pub const EXIT_OK: u8 = 0;

/// Exit code: invalid input, invalid scope, failed validation, rejected record.
pub const EXIT_USAGE: u8 = 1;

/// Exit code: environment failure (git, filesystem, database, unsupported schema).
pub const EXIT_ENV: u8 = 2;

/// An error with a documented process exit code.
#[derive(Debug)]
pub struct CmdError {
    /// Process exit code: [`EXIT_USAGE`] or [`EXIT_ENV`].
    pub code: u8,
    /// Human readable message, printed to stderr as `error: <message>`.
    pub message: String,
}

/// Model of a [`CmdError`].
#[verifier::ext_equal]
pub struct CmdErrorModel {
    pub code: u8,
    pub message: Seq<char>,
}

impl DeepView for CmdError {
    type V = CmdErrorModel;

    open spec fn deep_view(&self) -> CmdErrorModel {
        CmdErrorModel { code: self.code, message: self.message@ }
    }
}

/// An error that blames the input.
pub open spec fn usage_error(message: Seq<char>) -> CmdErrorModel {
    CmdErrorModel { code: EXIT_USAGE, message }
}

/// An error that blames the environment.
pub open spec fn env_error(message: Seq<char>) -> CmdErrorModel {
    CmdErrorModel { code: EXIT_ENV, message }
}

/// Model of what a command step hands back.
pub open spec fn outcome<T: DeepView>(r: Result<T, CmdError>) -> Result<T::V, CmdErrorModel> {
    match r {
        Ok(value) => Ok(value.deep_view()),
        Err(error) => Err(error.deep_view()),
    }
}

impl CmdError {
    /// Invalid input, rejected record, or invalid path scope.
    pub fn usage(message: &str) -> (r: CmdError)
        ensures
            r.deep_view() == usage_error(message@),
    {
        CmdError { code: EXIT_USAGE, message: message.to_owned() }
    }

    /// Repository, filesystem, or database failure.
    pub fn env(message: &str) -> (r: CmdError)
        ensures
            r.deep_view() == env_error(message@),
    {
        CmdError { code: EXIT_ENV, message: message.to_owned() }
    }

    /// Wrap the text of an arbitrary error as an environment failure.
    pub fn from_context(context: &str, err: &str) -> (r: CmdError)
        ensures
            r.deep_view() == env_error(context@ + ": "@ + err@),
    {
        let mut message = context.to_owned();
        message.append(": ");
        message.append(err);
        CmdError::env(message.as_str())
    }
}

} // verus!

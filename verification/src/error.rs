//! User-facing error type.
use std::path::PathBuf;
use vstd::prelude::*;

verus! {

/// `std::io::Error`, carried through opaquely as the source of an I/O failure.
#[verifier::external_type_specification]
#[verifier::external_body]
pub struct ExIoError(std::io::Error);

/// `std::path::PathBuf`, carried through opaquely as the path an error names.
#[verifier::external_type_specification]
#[verifier::external_body]
pub struct ExPathBuf(PathBuf);

/// Failures produced by the library and CLI.
#[derive(Debug)]
pub enum Error {
    /// The configured logbook does not exist.
    NotFound { path: PathBuf },
    /// A CLI date argument did not have the required shape.
    BadDate { flag: String, value: String },
    /// A filesystem operation failed.
    Io { action: String, path: PathBuf, source: std::io::Error },
    /// `git add` failed.
    Git(String),
    /// Another process held the append lock for too long.
    Locked(PathBuf),
    /// User input would produce a malformed canonical entry.
    InvalidEntry(String),
    /// Reading a piped decision reason failed.
    Stdin(std::io::Error),
    /// Writing command output failed.
    Output(std::io::Error),
    /// A source logbook failed structural validation.
    CheckFailed(usize),
    /// Neither `$EDITOR` nor `$VISUAL` is configured.
    NoEditor,
    /// The configured editor failed.
    Editor(String),
    /// The editor produced no decision reason.
    EmptyEntry,
    /// No entry exists on the requested date.
    SupersedeTargetMissing(String),
    /// More than one entry matches the supplied selector.
    SupersedeTargetAmbiguous(String),
    /// No entry on a date has the supplied title.
    SupersedeTitleMissing { date: String, title: String },
    /// The selected decision already has a successor.
    SupersedeTargetInactive(String),
    /// A dated title would duplicate an existing decision reference.
    DuplicateDecision(String),
}

/// Result type used throughout logbook.
pub type Result<T> = std::result::Result<T, Error>;

impl Error {
    /// A filesystem failure while performing `action` on `path`.
    pub fn io(action: String, path: PathBuf, source: std::io::Error) -> (e: Self)
        ensures
            e == (Error::Io { action, path, source }),
    {
        Error::Io { action, path, source }
    }
}

} // verus!

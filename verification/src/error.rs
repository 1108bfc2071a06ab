//! What can go wrong, and how it is told to the user.

use vstd::prelude::*;
use vstd::string::StringExecFns;
use crate::decimal::{decimal, push_decimal};

verus! {

/// `std::io::Error`, which the library carries along without looking
/// inside.
#[verifier::external_type_specification]
#[verifier::external_body]
pub struct ExIoError(std::io::Error);

/// How a change of the tree behind the planner's back showed itself.
#[derive(Debug)]
pub enum DetectedBy {
    /// A file that an operation reads is gone.
    FileNotFound(String),
    /// A path that an operation writes is occupied.
    FileExists(String),
}

/// The model of a [`DetectedBy`], with the path as a sequence of
/// characters.
pub enum Drift {
    Missing(Seq<char>),
    Occupied(Seq<char>),
}

impl View for DetectedBy {
    type V = Drift;

    open spec fn view(&self) -> Drift {
        match self {
            DetectedBy::FileNotFound(path) => Drift::Missing(path@),
            DetectedBy::FileExists(path) => Drift::Occupied(path@),
        }
    }
}

/// The failures of an edit.
#[derive(Debug)]
pub enum TreeEditError {
    /// Two entries of the new listing have this path.
    DuplicatePath(String),
    /// A line of the listing cannot be read.
    InvalidEntry(String),
    /// The new listing names an identifier that the old one lacks.
    InvalidFileId(u64),
    /// The tree is no longer what the plan was made for.
    FsChanged(DetectedBy),
    /// The editor ended with this failure code, or without one.
    EditorExitFailure(Option<i32>),
    /// None of the editors that were tried could be started.
    NoEditorAvailable,
    /// Reading or writing failed.
    IOError(std::io::Error),
}

/// The notation of the signed number `n`.
pub open spec fn signed_decimal(n: int) -> Seq<char> {
    if n < 0 {
        "-"@ + decimal((-n) as nat)
    } else {
        decimal(n as nat)
    }
}

impl DetectedBy {
    /// The text of [`DetectedBy::message`].
    pub open spec fn text(self) -> Seq<char> {
        match self {
            DetectedBy::FileNotFound(path) => "file not found "@ + path@,
            DetectedBy::FileExists(path) => "file already exists "@ + path@,
        }
    }

    /// A description for the user.
    pub fn message(&self) -> (message: String)
        ensures
            message@ == self.text(),
    {
        match self {
            DetectedBy::FileNotFound(path) => {
                String::from_str("file not found ").concat(path.as_str())
            },
            DetectedBy::FileExists(path) => {
                String::from_str("file already exists ").concat(path.as_str())
            },
        }
    }
}

/// The text that `Display::fmt` of `std::io::Error` writes for `source`.
/// Nothing is claimed of it.
#[verifier::external_body]
fn io_error_text(source: &std::io::Error) -> String {
    format!("{}", source)
}

impl TreeEditError {
    /// The text of [`TreeEditError::message`], for every failure but an
    /// I/O error, whose text is the standard library's.
    pub open spec fn text(self) -> Seq<char> {
        match self {
            TreeEditError::DuplicatePath(path) => "duplicate path "@ + path@,
            TreeEditError::InvalidEntry(entry) => "invalid entry "@ + entry@,
            TreeEditError::InvalidFileId(id) => "invalid file id "@ + decimal(id as nat),
            TreeEditError::FsChanged(detected_by) => "file system changed while editing: "@
                + detected_by.text(),
            TreeEditError::EditorExitFailure(Some(code)) => "editor exited with code "@
                + signed_decimal(code as int),
            TreeEditError::EditorExitFailure(None) => "editor exited without a code"@,
            TreeEditError::NoEditorAvailable => "no editor available"@,
            TreeEditError::IOError(_) => Seq::empty(),
        }
    }

    /// A description for the user.
    pub fn message(&self) -> (message: String)
        ensures
            !(self is IOError) ==> message@ == self.text(),
    {
        match self {
            TreeEditError::DuplicatePath(path) => {
                String::from_str("duplicate path ").concat(path.as_str())
            },
            TreeEditError::InvalidEntry(entry) => {
                String::from_str("invalid entry ").concat(entry.as_str())
            },
            TreeEditError::InvalidFileId(id) => {
                let mut message = String::from_str("invalid file id ");
                push_decimal(&mut message, *id);
                message
            },
            TreeEditError::FsChanged(detected_by) => {
                let detail = detected_by.message();
                String::from_str("file system changed while editing: ").concat(detail.as_str())
            },
            TreeEditError::EditorExitFailure(Some(code)) => {
                let mut message = String::from_str("editor exited with code ");
                let code: i32 = *code;
                if code < 0 {
                    message.append("-");
                    let magnitude: u64 = (-(code as i64)) as u64;
                    push_decimal(&mut message, magnitude);
                } else {
                    push_decimal(&mut message, code as u64);
                }
                message
            },
            TreeEditError::EditorExitFailure(None) => {
                String::from_str("editor exited without a code")
            },
            TreeEditError::NoEditorAvailable => String::from_str("no editor available"),
            TreeEditError::IOError(source) => io_error_text(source),
        }
    }
}

impl From<std::io::Error> for TreeEditError {
    fn from(source: std::io::Error) -> (error: TreeEditError) {
        TreeEditError::IOError(source)
    }
}

impl vstd::std_specs::convert::FromSpecImpl<std::io::Error> for TreeEditError {
    open spec fn obeys_from_spec() -> bool {
        true
    }

    open spec fn from_spec(source: std::io::Error) -> TreeEditError {
        TreeEditError::IOError(source)
    }
}

} // verus!

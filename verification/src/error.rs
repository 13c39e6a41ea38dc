//! The ways in which resolving, reading or running playbooks fails.

use crate::text::{decimal, decimal_string};
use vstd::prelude::*;

verus! {

/// A failure, with what it is about.
#[derive(Debug, Clone, PartialEq, Eq)]
pub enum PlaybookError {
    /// The directory, given by its path, could not be listed.
    DirectoryNotFound(String),
    /// No playbook of the index has this ordinal.
    OrdinalNotFound(u64),
    /// No playbook of the index has this file name.
    NameNotFound(String),
    /// A token with environment assignments is malformed; the payload is the
    /// segment that is at fault.
    MalformedEnvAssignment(String),
    /// The file at this path could not be opened or read.
    FileNotReadable(String),
    /// The file at this path does not hold a sequence of plays.
    NotParsable(String),
    /// The first play of the file at this path has no `name` that is a string.
    MissingNameField(String),
    /// The program of this name could not be started.
    ExecutionLaunchFailure(String),
}

/// What a `PlaybookError` says, over sequences of characters.
pub enum ErrorView {
    DirectoryNotFound(Seq<char>),
    OrdinalNotFound(u64),
    NameNotFound(Seq<char>),
    MalformedEnvAssignment(Seq<char>),
    FileNotReadable(Seq<char>),
    NotParsable(Seq<char>),
    MissingNameField(Seq<char>),
    ExecutionLaunchFailure(Seq<char>),
}

impl View for PlaybookError {
    type V = ErrorView;

    open spec fn view(&self) -> ErrorView {
        match *self {
            PlaybookError::DirectoryNotFound(p) => ErrorView::DirectoryNotFound(p@),
            PlaybookError::OrdinalNotFound(n) => ErrorView::OrdinalNotFound(n),
            PlaybookError::NameNotFound(n) => ErrorView::NameNotFound(n@),
            PlaybookError::MalformedEnvAssignment(s) => ErrorView::MalformedEnvAssignment(s@),
            PlaybookError::FileNotReadable(p) => ErrorView::FileNotReadable(p@),
            PlaybookError::NotParsable(p) => ErrorView::NotParsable(p@),
            PlaybookError::MissingNameField(p) => ErrorView::MissingNameField(p@),
            PlaybookError::ExecutionLaunchFailure(c) => ErrorView::ExecutionLaunchFailure(c@),
        }
    }
}

impl ErrorView {
    /// The sentence that reports this failure.
    pub open spec fn message(self) -> Seq<char> {
        match self {
            ErrorView::DirectoryNotFound(p) => "Directory "@ + p + " cannot be listed"@,
            ErrorView::OrdinalNotFound(n) => "No playbook has the number "@ + decimal(n as nat),
            ErrorView::NameNotFound(n) => "No playbook is named "@ + n,
            ErrorView::MalformedEnvAssignment(s) => {
                "Environment variable must be in the format KEY=VALUE: "@ + s
            },
            ErrorView::FileNotReadable(p) => "File "@ + p
                + " does not exist or is not readable"@,
            ErrorView::NotParsable(p) => "File "@ + p + " is not parsable"@,
            ErrorView::MissingNameField(p) => "File "@ + p + " has no name field"@,
            ErrorView::ExecutionLaunchFailure(c) => "Failed to execute command "@ + c,
        }
    }
}

impl PlaybookError {
    /// The sentence that reports this failure.
    pub fn message(&self) -> (r: String)
        ensures
            r@ == self@.message(),
    {
        match self {
            PlaybookError::DirectoryNotFound(p) => {
                let mut r = "Directory ".to_owned();
                r.append(p.as_str());
                r.append(" cannot be listed");
                r
            },
            PlaybookError::OrdinalNotFound(n) => {
                let mut r = "No playbook has the number ".to_owned();
                r.append(decimal_string(*n).as_str());
                r
            },
            PlaybookError::NameNotFound(n) => {
                let mut r = "No playbook is named ".to_owned();
                r.append(n.as_str());
                r
            },
            PlaybookError::MalformedEnvAssignment(s) => {
                let mut r = "Environment variable must be in the format KEY=VALUE: ".to_owned();
                r.append(s.as_str());
                r
            },
            PlaybookError::FileNotReadable(p) => {
                let mut r = "File ".to_owned();
                r.append(p.as_str());
                r.append(" does not exist or is not readable");
                r
            },
            PlaybookError::NotParsable(p) => {
                let mut r = "File ".to_owned();
                r.append(p.as_str());
                r.append(" is not parsable");
                r
            },
            PlaybookError::MissingNameField(p) => {
                let mut r = "File ".to_owned();
                r.append(p.as_str());
                r.append(" has no name field");
                r
            },
            PlaybookError::ExecutionLaunchFailure(c) => {
                let mut r = "Failed to execute command ".to_owned();
                r.append(c.as_str());
                r
            },
        }
    }
}

} // verus!

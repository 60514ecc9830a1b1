//! Errors of provenance operations and of the pre-commit hook.
use vstd::prelude::*;
use crate::entry::strings_view;
use crate::text::{join_strings, join_with};

verus! {

/// Errors that can occur during provenance operations.
#[derive(Debug, Clone, PartialEq)]
pub enum ProvenanceError {
    ValidationFailed(Vec<String>),
    ParseError(String),
    InvalidMarkdown(String),
}

/// Errors from the provenance hook (pre-commit enforcement).
#[derive(Debug, Clone, PartialEq)]
pub enum HookError {
    NoEntryFound,
    EntryInvalid(Vec<String>),
    NotStaged,
}

/// The human-readable message of a [`ProvenanceError`].
pub open spec fn provenance_error_message(e: ProvenanceError) -> Seq<char> {
    match e {
        ProvenanceError::ValidationFailed(errs) => "Validation failed: "@ + join_with(
            strings_view(errs@),
            ", "@,
        ),
        ProvenanceError::ParseError(msg) => "Parse error: "@ + msg@,
        ProvenanceError::InvalidMarkdown(msg) => "Invalid markdown: "@ + msg@,
    }
}

/// The human-readable message of a [`HookError`].
pub open spec fn hook_error_message(e: HookError) -> Seq<char> {
    match e {
        HookError::NoEntryFound => "No provenance entry found"@,
        HookError::EntryInvalid(errs) => "Entry invalid: "@ + join_with(strings_view(errs@), ", "@),
        HookError::NotStaged => "Files not staged"@,
    }
}

impl ProvenanceError {
    /// The human-readable message of this error.
    pub fn to_string(&self) -> (s: String)
        ensures
            s@ == provenance_error_message(*self),
    {
        match self {
            ProvenanceError::ValidationFailed(errs) => {
                let mut s = String::from_str("Validation failed: ");
                let joined = join_strings(errs, ", ");
                s.append(joined.as_str());
                s
            },
            ProvenanceError::ParseError(msg) => {
                let mut s = String::from_str("Parse error: ");
                s.append(msg.as_str());
                s
            },
            ProvenanceError::InvalidMarkdown(msg) => {
                let mut s = String::from_str("Invalid markdown: ");
                s.append(msg.as_str());
                s
            },
        }
    }
}

impl HookError {
    /// The human-readable message of this error.
    pub fn to_string(&self) -> (s: String)
        ensures
            s@ == hook_error_message(*self),
    {
        match self {
            HookError::NoEntryFound => String::from_str("No provenance entry found"),
            HookError::EntryInvalid(errs) => {
                let mut s = String::from_str("Entry invalid: ");
                let joined = join_strings(errs, ", ");
                s.append(joined.as_str());
                s
            },
            HookError::NotStaged => String::from_str("Files not staged"),
        }
    }
}

} // verus!

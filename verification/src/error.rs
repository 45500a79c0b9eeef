//! The errors of the library.

use vstd::prelude::*;
use vstd::string::StringExecFns;

verus! {

/// What can go wrong while counting, reporting and comparing.
#[derive(Debug, Clone)]
pub enum SlocError {
    /// An input path does not exist.
    FileNotFound { path: String },
    /// Reading or writing failed; the text is the system's message.
    Io(String),
    /// A configuration file or a language definition is malformed.
    InvalidConfig(String),
    /// A report could not be written in the chosen format.
    Serialization(String),
    /// A report could not be read in the chosen format.
    Deserialization(String),
    /// An argument or a pattern could not be parsed.
    Parse(String),
    InvalidPath { path: String },
    PermissionDenied { path: String },
    UnsupportedLanguage(String),
    InvalidReportFormat(String),
    Encoding(String),
}

/// The text that introduces the detail of an error.
pub open spec fn lead(error: SlocError) -> Seq<char> {
    match error {
        SlocError::FileNotFound { .. } => "File not found: "@,
        SlocError::Io(_) => "IO error: "@,
        SlocError::InvalidConfig(_) => "Invalid configuration: "@,
        SlocError::Serialization(_) => "Serialization error: "@,
        SlocError::Deserialization(_) => "Deserialization error: "@,
        SlocError::Parse(_) => "Parse error: "@,
        SlocError::InvalidPath { .. } => "Invalid path: "@,
        SlocError::PermissionDenied { .. } => "Permission denied: "@,
        SlocError::UnsupportedLanguage(_) => "Language not supported: "@,
        SlocError::InvalidReportFormat(_) => "Invalid report format: "@,
        SlocError::Encoding(_) => "Encoding error: "@,
    }
}

/// The path or the text that an error carries.
pub open spec fn detail(error: SlocError) -> Seq<char> {
    match error {
        SlocError::FileNotFound { path } => path@,
        SlocError::Io(text) => text@,
        SlocError::InvalidConfig(text) => text@,
        SlocError::Serialization(text) => text@,
        SlocError::Deserialization(text) => text@,
        SlocError::Parse(text) => text@,
        SlocError::InvalidPath { path } => path@,
        SlocError::PermissionDenied { path } => path@,
        SlocError::UnsupportedLanguage(text) => text@,
        SlocError::InvalidReportFormat(text) => text@,
        SlocError::Encoding(text) => text@,
    }
}

impl SlocError {
    /// The message of the error: what went wrong, then the path or the
    /// text that the error carries.
    pub fn message(&self) -> (text: String)
        ensures
            text@ == lead(*self) + detail(*self),
    {
        let (lead, detail): (&str, &String) = match self {
            SlocError::FileNotFound { path } => ("File not found: ", path),
            SlocError::Io(text) => ("IO error: ", text),
            SlocError::InvalidConfig(text) => ("Invalid configuration: ", text),
            SlocError::Serialization(text) => ("Serialization error: ", text),
            SlocError::Deserialization(text) => ("Deserialization error: ", text),
            SlocError::Parse(text) => ("Parse error: ", text),
            SlocError::InvalidPath { path } => ("Invalid path: ", path),
            SlocError::PermissionDenied { path } => ("Permission denied: ", path),
            SlocError::UnsupportedLanguage(text) => ("Language not supported: ", text),
            SlocError::InvalidReportFormat(text) => ("Invalid report format: ", text),
            SlocError::Encoding(text) => ("Encoding error: ", text),
        };
        let mut text = lead.to_owned();
        text.append(detail.as_str());
        text
    }
}

} // verus!

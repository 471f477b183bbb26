//! The error taxonomy of the engine, and the self-update failure codes
//! the surrounding application reports.

use vstd::prelude::*;
use vstd::string::StringExecFns;

verus! {

/// What can go wrong in the engine.  Variants that describe an outside
/// failure carry a human-readable detail line.
#[derive(Debug)]
pub enum Error {
    /// A file could not be read.
    IoError(String),
    /// A source could not be parsed as a PDF document.
    ParseError(String),
    /// A source file's extension names no supported kind of input.
    UnsupportedSourceType(String),
    /// No catalog or no page-tree root was found while composing.
    StructuralError(String),
    /// A selector names a source or a page that does not exist.  The
    /// payload is the position of the first offending selector.
    SelectorOutOfRange(usize),
    /// There are no sources to compose from.
    EmptySources,
    /// A page could not be rasterized for preview.
    RenderError(String),
    /// A document or an image could not be encoded.
    EncodeError(String),
}

/// The message a given error shows.
pub open spec fn error_message(e: Error) -> Seq<char> {
    match e {
        Error::IoError(d) => d@,
        Error::ParseError(d) => d@,
        Error::UnsupportedSourceType(d) => d@,
        Error::StructuralError(d) => d@,
        Error::SelectorOutOfRange(_) => "Selector out of range"@,
        Error::EmptySources => "No source files to export"@,
        Error::RenderError(d) => d@,
        Error::EncodeError(d) => d@,
    }
}

impl Error {
    /// A human-readable description of the error.
    pub fn message(&self) -> (r: String)
        ensures
            r@ == error_message(*self),
    {
        match self {
            Error::IoError(d) => String::from_str(d.as_str()),
            Error::ParseError(d) => String::from_str(d.as_str()),
            Error::UnsupportedSourceType(d) => String::from_str(d.as_str()),
            Error::StructuralError(d) => String::from_str(d.as_str()),
            Error::SelectorOutOfRange(_) => String::from_str("Selector out of range"),
            Error::EmptySources => String::from_str("No source files to export"),
            Error::RenderError(d) => String::from_str(d.as_str()),
            Error::EncodeError(d) => String::from_str(d.as_str()),
        }
    }
}

/// The outcomes of a failed application self-update, as stable codes.
#[derive(Debug, Clone, Copy, PartialEq, Eq, Structural, Hash)]
pub enum UpdateError {
    UpdateNotFound,
    EmptyEndpoints,
    Io,
    Semver,
    Serialization,
    ReleaseNotFound,
    UnsupportedArch,
    UnsupportedOs,
    FailedToDetermineExtractPath,
    UrlParse,
    Reqwest,
    TargetNotFound,
    Network,
    Minisign,
    Base64,
    SignatureUtf8,
    TempDirNotOnSameMountPoint,
    BinaryNotFoundInArchive,
    TempDirNotFound,
    AuthenticationFailed,
    DebInstallFailed,
    InvalidUpdaterFormat,
    Http,
    InvalidHeaderValue,
    InvalidHeaderName,
    FormatDate,
    InsecureTransportProtocol,
    Tauri,
    Other,
}

/// The numeric code of each self-update failure.
pub open spec fn update_error_code(e: UpdateError) -> int {
    match e {
        UpdateError::UpdateNotFound => 1,
        UpdateError::EmptyEndpoints => 2,
        UpdateError::Io => 3,
        UpdateError::Semver => 4,
        UpdateError::Serialization => 5,
        UpdateError::ReleaseNotFound => 6,
        UpdateError::UnsupportedArch => 7,
        UpdateError::UnsupportedOs => 8,
        UpdateError::FailedToDetermineExtractPath => 9,
        UpdateError::UrlParse => 10,
        UpdateError::Reqwest => 11,
        UpdateError::TargetNotFound => 12,
        UpdateError::Network => 13,
        UpdateError::Minisign => 14,
        UpdateError::Base64 => 15,
        UpdateError::SignatureUtf8 => 16,
        UpdateError::TempDirNotOnSameMountPoint => 17,
        UpdateError::BinaryNotFoundInArchive => 18,
        UpdateError::TempDirNotFound => 19,
        UpdateError::AuthenticationFailed => 20,
        UpdateError::DebInstallFailed => 21,
        UpdateError::InvalidUpdaterFormat => 22,
        UpdateError::Http => 23,
        UpdateError::InvalidHeaderValue => 24,
        UpdateError::InvalidHeaderName => 25,
        UpdateError::FormatDate => 26,
        UpdateError::InsecureTransportProtocol => 27,
        UpdateError::Tauri => 28,
        UpdateError::Other => 99,
    }
}

/// The message a given self-update failure shows.
pub open spec fn update_error_message(e: UpdateError) -> Seq<char> {
    match e {
        UpdateError::UpdateNotFound => "Error performing self-update: 1"@,
        UpdateError::EmptyEndpoints => "Error performing self-update: 2"@,
        UpdateError::Io => "Error performing self-update: 3"@,
        UpdateError::Semver => "Error performing self-update: 4"@,
        UpdateError::Serialization => "Error performing self-update: 5"@,
        UpdateError::ReleaseNotFound => "Error performing self-update: 6"@,
        UpdateError::UnsupportedArch => "Error performing self-update: 7"@,
        UpdateError::UnsupportedOs => "Error performing self-update: 8"@,
        UpdateError::FailedToDetermineExtractPath => "Error performing self-update: 9"@,
        UpdateError::UrlParse => "Error performing self-update: 10"@,
        UpdateError::Reqwest => "Error performing self-update: 11"@,
        UpdateError::TargetNotFound => "Error performing self-update: 12"@,
        UpdateError::Network => "Error performing self-update: 13"@,
        UpdateError::Minisign => "Error performing self-update: 14"@,
        UpdateError::Base64 => "Error performing self-update: 15"@,
        UpdateError::SignatureUtf8 => "Error performing self-update: 16"@,
        UpdateError::TempDirNotOnSameMountPoint => "Error performing self-update: 17"@,
        UpdateError::BinaryNotFoundInArchive => "Error performing self-update: 18"@,
        UpdateError::TempDirNotFound => "Error performing self-update: 19"@,
        UpdateError::AuthenticationFailed => "Error performing self-update: 20"@,
        UpdateError::DebInstallFailed => "Error performing self-update: 21"@,
        UpdateError::InvalidUpdaterFormat => "Error performing self-update: 22"@,
        UpdateError::Http => "Error performing self-update: 23"@,
        UpdateError::InvalidHeaderValue => "Error performing self-update: 24"@,
        UpdateError::InvalidHeaderName => "Error performing self-update: 25"@,
        UpdateError::FormatDate => "Error performing self-update: 26"@,
        UpdateError::InsecureTransportProtocol => "Error performing self-update: 27"@,
        UpdateError::Tauri => "Error performing self-update: 28"@,
        UpdateError::Other => "Error performing self-update: 99"@,
    }
}

impl UpdateError {
    /// The stable numeric code of this failure.
    pub fn code(&self) -> (r: i32)
        ensures
            r as int == update_error_code(*self),
    {
        match self {
        UpdateError::UpdateNotFound => 1,
        UpdateError::EmptyEndpoints => 2,
        UpdateError::Io => 3,
        UpdateError::Semver => 4,
        UpdateError::Serialization => 5,
        UpdateError::ReleaseNotFound => 6,
        UpdateError::UnsupportedArch => 7,
        UpdateError::UnsupportedOs => 8,
        UpdateError::FailedToDetermineExtractPath => 9,
        UpdateError::UrlParse => 10,
        UpdateError::Reqwest => 11,
        UpdateError::TargetNotFound => 12,
        UpdateError::Network => 13,
        UpdateError::Minisign => 14,
        UpdateError::Base64 => 15,
        UpdateError::SignatureUtf8 => 16,
        UpdateError::TempDirNotOnSameMountPoint => 17,
        UpdateError::BinaryNotFoundInArchive => 18,
        UpdateError::TempDirNotFound => 19,
        UpdateError::AuthenticationFailed => 20,
        UpdateError::DebInstallFailed => 21,
        UpdateError::InvalidUpdaterFormat => 22,
        UpdateError::Http => 23,
        UpdateError::InvalidHeaderValue => 24,
        UpdateError::InvalidHeaderName => 25,
        UpdateError::FormatDate => 26,
        UpdateError::InsecureTransportProtocol => 27,
        UpdateError::Tauri => 28,
        UpdateError::Other => 99,
        }
    }

    /// A human-readable description of this failure.
    pub fn message(&self) -> (r: String)
        ensures
            r@ == update_error_message(*self),
    {
        match self {
        UpdateError::UpdateNotFound => String::from_str("Error performing self-update: 1"),
        UpdateError::EmptyEndpoints => String::from_str("Error performing self-update: 2"),
        UpdateError::Io => String::from_str("Error performing self-update: 3"),
        UpdateError::Semver => String::from_str("Error performing self-update: 4"),
        UpdateError::Serialization => String::from_str("Error performing self-update: 5"),
        UpdateError::ReleaseNotFound => String::from_str("Error performing self-update: 6"),
        UpdateError::UnsupportedArch => String::from_str("Error performing self-update: 7"),
        UpdateError::UnsupportedOs => String::from_str("Error performing self-update: 8"),
        UpdateError::FailedToDetermineExtractPath => String::from_str("Error performing self-update: 9"),
        UpdateError::UrlParse => String::from_str("Error performing self-update: 10"),
        UpdateError::Reqwest => String::from_str("Error performing self-update: 11"),
        UpdateError::TargetNotFound => String::from_str("Error performing self-update: 12"),
        UpdateError::Network => String::from_str("Error performing self-update: 13"),
        UpdateError::Minisign => String::from_str("Error performing self-update: 14"),
        UpdateError::Base64 => String::from_str("Error performing self-update: 15"),
        UpdateError::SignatureUtf8 => String::from_str("Error performing self-update: 16"),
        UpdateError::TempDirNotOnSameMountPoint => String::from_str("Error performing self-update: 17"),
        UpdateError::BinaryNotFoundInArchive => String::from_str("Error performing self-update: 18"),
        UpdateError::TempDirNotFound => String::from_str("Error performing self-update: 19"),
        UpdateError::AuthenticationFailed => String::from_str("Error performing self-update: 20"),
        UpdateError::DebInstallFailed => String::from_str("Error performing self-update: 21"),
        UpdateError::InvalidUpdaterFormat => String::from_str("Error performing self-update: 22"),
        UpdateError::Http => String::from_str("Error performing self-update: 23"),
        UpdateError::InvalidHeaderValue => String::from_str("Error performing self-update: 24"),
        UpdateError::InvalidHeaderName => String::from_str("Error performing self-update: 25"),
        UpdateError::FormatDate => String::from_str("Error performing self-update: 26"),
        UpdateError::InsecureTransportProtocol => String::from_str("Error performing self-update: 27"),
        UpdateError::Tauri => String::from_str("Error performing self-update: 28"),
        UpdateError::Other => String::from_str("Error performing self-update: 99"),
        }
    }
}

} // verus!

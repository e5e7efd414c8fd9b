//! What can go wrong while audit data is extracted or a graph is normalized.

use vstd::prelude::*;
use vstd::string::*;

verus! {

/// Why no embedded segment could be taken from a binary.
#[derive(Debug, PartialEq, Eq, Structural, Copy, Clone)]
pub enum SegmentError {
    /// The binary was read, and it holds no audit data.
    NoAuditData,
    /// The input is not in any executable format that is understood.
    NotAnExecutable,
    /// The container refers to bytes beyond the end of the input.
    UnexpectedEof,
    /// The container does not follow its format.
    MalformedFile,
    /// The container has no symbols section.
    SymbolsSectionIsMissing,
    /// The container lacks a section that its format requires.
    SectionIsMissing,
    /// A section of the container has another type than its format requires.
    UnexpectedSectionType,
}

/// Why a compressed stream was not inflated.
#[derive(Debug, PartialEq, Eq, Structural, Copy, Clone)]
pub enum InflateError {
    /// The inflated data does not fit under the ceiling.
    LimitExceeded,
    /// The stream is truncated or is not valid compressed data.
    CorruptStream,
}

/// Every failure is returned to the caller as it is; nothing is retried and
/// no partial result is handed out.
#[derive(Debug, PartialEq, Eq, Structural, Copy, Clone)]
pub enum Error {
    /// The raw input holds more bytes than `Limits::input_file_size` allows.
    InputLimitExceeded,
    /// The compressed segment, or the text it inflates to, is larger than
    /// the ceiling on decompressed data.
    OutputLimitExceeded,
    /// The binary holds no embedded segment, or its container could not be
    /// read; the cause is kept as the segment finder reported it.
    ExtractionFailed(SegmentError),
    /// The compressed stream is corrupt.
    DecompressionFailed,
    /// The graph lacks its resolution or its root, holds a package that the
    /// resolution does not reach, or has an edge to a package it does not hold.
    InconsistentGraph,
}

impl SegmentError {
    /// The words for each cause.
    pub open spec fn spec_message(self) -> Seq<char> {
        match self {
            SegmentError::NoAuditData => "No audit data found in the executable"@,
            SegmentError::NotAnExecutable => "Not an executable file"@,
            SegmentError::UnexpectedEof => "Unexpected end of file"@,
            SegmentError::MalformedFile => "Malformed executable file"@,
            SegmentError::SymbolsSectionIsMissing => "Symbols section missing from executable"@,
            SegmentError::SectionIsMissing => "Section is missing from executable"@,
            SegmentError::UnexpectedSectionType => "Unexpected executable section type"@,
        }
    }

    /// A short phrase that names the cause.
    pub fn message(&self) -> (text: String)
        ensures
            text@ == self.spec_message(),
    {
        match self {
            SegmentError::NoAuditData => "No audit data found in the executable".to_owned(),
            SegmentError::NotAnExecutable => "Not an executable file".to_owned(),
            SegmentError::UnexpectedEof => "Unexpected end of file".to_owned(),
            SegmentError::MalformedFile => "Malformed executable file".to_owned(),
            SegmentError::SymbolsSectionIsMissing => {
                "Symbols section missing from executable".to_owned()
            },
            SegmentError::SectionIsMissing => "Section is missing from executable".to_owned(),
            SegmentError::UnexpectedSectionType => "Unexpected executable section type".to_owned(),
        }
    }
}

impl Error {
    /// The sentence for each failure.
    pub open spec fn spec_message(self) -> Seq<char> {
        match self {
            Error::InputLimitExceeded => {
                "The input file is too large. Increase the input size limit to scan it."@
            },
            Error::OutputLimitExceeded => {
                "Audit data size is over the specified limit. Increase the output size limit to scan it."@
            },
            Error::ExtractionFailed(cause) => "Failed to parse the binary: "@
                + cause.spec_message(),
            Error::DecompressionFailed => "Failed to decompress audit data"@,
            Error::InconsistentGraph => "The dependency graph is inconsistent"@,
        }
    }

    /// A sentence for the user that names the failure.
    pub fn message(&self) -> (text: String)
        ensures
            text@ == self.spec_message(),
    {
        match self {
            Error::InputLimitExceeded => {
                "The input file is too large. Increase the input size limit to scan it.".to_owned()
            },
            Error::OutputLimitExceeded => {
                "Audit data size is over the specified limit. Increase the output size limit to scan it.".to_owned()
            },
            Error::ExtractionFailed(cause) => {
                let head = "Failed to parse the binary: ".to_owned();
                head.concat(cause.message().as_str())
            },
            Error::DecompressionFailed => "Failed to decompress audit data".to_owned(),
            Error::InconsistentGraph => "The dependency graph is inconsistent".to_owned(),
        }
    }
}

} // verus!

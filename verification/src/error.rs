//! The ways a conversion request can fail.

use crate::format::{display_name, display_name_of, FileType};
use vstd::prelude::*;
use vstd::string::*;

verus! {

/// What is wrong with a request before any conversion is attempted.
#[derive(PartialEq, Eq, Structural, Clone, Copy, Debug)]
pub enum ConfigurationIssue {
    /// The source format was left unknown.
    SourceTypeUnknown,
    /// The target format was left unknown.
    TargetTypeUnknown,
    /// A chain of conversions needs an intermediate file beside its input,
    /// and the input path names no file.
    InputWithoutFileName,
}

/// Why a conversion did not take place or did not complete.
#[derive(Debug)]
pub enum ConvertError {
    /// The request itself is unusable.
    Configuration(ConfigurationIssue),
    /// No converter is registered for exactly this ordered pair.
    NoDirectConverter { from: FileType, to: FileType },
    /// No chain of registered converters links the two formats.
    NoConversionPath { from: FileType, to: FileType },
    /// A converter ran and reported this failure.
    ConversionFailure(String),
}

/// The message of a failure. One about a pair of formats names both.
pub open spec fn message_of(error: ConvertError) -> Seq<char> {
    match error {
        ConvertError::Configuration(ConfigurationIssue::SourceTypeUnknown) =>
            "Source file type not specified"@,
        ConvertError::Configuration(ConfigurationIssue::TargetTypeUnknown) =>
            "Target file type not specified"@,
        ConvertError::Configuration(ConfigurationIssue::InputWithoutFileName) =>
            "Input path names no file"@,
        ConvertError::NoDirectConverter { from, to } => "No converter available from "@
            + display_name_of(from) + " to "@ + display_name_of(to),
        ConvertError::NoConversionPath { from, to } => "No conversion path available from "@
            + display_name_of(from) + " to "@ + display_name_of(to),
        ConvertError::ConversionFailure(message) => message@,
    }
}

impl ConvertError {
    /// The failure in words.
    pub fn message(&self) -> (text: String)
        ensures
            text@ == message_of(*self),
    {
        match self {
            ConvertError::Configuration(ConfigurationIssue::SourceTypeUnknown) => String::from_str(
                "Source file type not specified",
            ),
            ConvertError::Configuration(ConfigurationIssue::TargetTypeUnknown) => String::from_str(
                "Target file type not specified",
            ),
            ConvertError::Configuration(ConfigurationIssue::InputWithoutFileName) => {
                String::from_str("Input path names no file")
            },
            ConvertError::NoDirectConverter { from, to } => String::from_str(
                "No converter available from ",
            ).concat(display_name(from)).concat(" to ").concat(display_name(to)),
            ConvertError::NoConversionPath { from, to } => String::from_str(
                "No conversion path available from ",
            ).concat(display_name(from)).concat(" to ").concat(display_name(to)),
            ConvertError::ConversionFailure(message) => message.clone(),
        }
    }
}

/// Turns what a converter returned into the library's result: success stays
/// success, and a failure keeps its message.
pub fn conversion_outcome(reported: Result<(), String>) -> (r: Result<(), ConvertError>)
    ensures
        reported is Ok ==> r is Ok,
        reported is Err ==> r == Err::<(), ConvertError>(
            ConvertError::ConversionFailure(reported->Err_0),
        ),
{
    match reported {
        Ok(()) => Ok(()),
        Err(message) => Err(ConvertError::ConversionFailure(message)),
    }
}

} // verus!

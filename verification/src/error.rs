//! The uniform error taxonomy produced by every validator.
//!
//! An error carries a kind tag, a human-readable message, an optional primary
//! byte span, and an optional secondary span with its own message (used for
//! "previously defined here" annotations). A spec-level model ([`ErrorModel`])
//! mirrors the executable type with mathematical strings, so that contracts
//! can pin every field of a returned error exactly.

use vstd::prelude::*;

use crate::positioned::Span;

verus! {

/// The kind of a validation failure.
#[derive(Clone, Copy, Debug, PartialEq, Eq, Structural)]
pub enum ErrorType {
    TomlParseError,
    IncorrectCompiler,
    UnsupportedCStandard,
    DuplicateDependencySource,
    DuplicateDependencyName,
    DuplicateDependencyIncludeName,
    CustomBuildMissing,
    ExtraFieldNonCustomBuild,
    InvalidPkgConfigQuery,
    DuplicateSubprojectName,
    InvalidSubprojectDependency,
    CircularDependency,
    OverrideNameConflict,
    DuplicateCustomBuildRuleName,
}

/// A secondary annotation: a span in the source text and a message for it.
#[derive(Clone, Debug)]
pub struct AdditionalInfo {
    pub span: Span,
    pub message: String,
}

/// A validation failure, ready for a diagnostic renderer.
#[derive(Clone, Debug)]
pub struct Error {
    pub error_type: ErrorType,
    pub message: String,
    pub span: Option<Span>,
    pub additional_info: Option<AdditionalInfo>,
}

/// Spec-level model of [`AdditionalInfo`].
pub struct InfoModel {
    pub span: Span,
    pub message: Seq<char>,
}

/// Spec-level model of [`Error`]: the same fields with messages as
/// mathematical character sequences.
pub struct ErrorModel {
    pub error_type: ErrorType,
    pub message: Seq<char>,
    pub span: Option<Span>,
    pub additional_info: Option<InfoModel>,
}

impl View for AdditionalInfo {
    type V = InfoModel;

    open spec fn view(&self) -> InfoModel {
        InfoModel { span: self.span, message: self.message@ }
    }
}

impl View for Error {
    type V = ErrorModel;

    open spec fn view(&self) -> ErrorModel {
        ErrorModel {
            error_type: self.error_type,
            message: self.message@,
            span: self.span,
            additional_info: match self.additional_info {
                Some(info) => Some(info@),
                None => None,
            },
        }
    }
}

impl Error {
    /// Builds an error with a primary span and no secondary annotation.
    pub fn new(error_type: ErrorType, message: String, span: Span) -> (e: Error)
        ensures
            e@ == (ErrorModel {
                error_type,
                message: message@,
                span: Some(span),
                additional_info: None,
            }),
    {
        Error { error_type, message, span: Some(span), additional_info: None }
    }

    /// Builds an error with a primary span and a secondary annotation.
    pub fn with_info(
        error_type: ErrorType,
        message: String,
        span: Span,
        info_span: Span,
        info_message: String,
    ) -> (e: Error)
        ensures
            e@ == (ErrorModel {
                error_type,
                message: message@,
                span: Some(span),
                additional_info: Some(InfoModel { span: info_span, message: info_message@ }),
            }),
    {
        Error {
            error_type,
            message,
            span: Some(span),
            additional_info: Some(AdditionalInfo { span: info_span, message: info_message }),
        }
    }
}

} // verus!

//! Global build settings and the settings validator.
//!
//! Whether the named compiler resolves to an executable, and whether it
//! accepts the requested language standard, can only be learnt by spawning
//! external processes; those probes run outside the library and hand their
//! outcomes in as plain booleans. The validator checks the compiler probe
//! first, so a missing compiler always wins over an unsupported standard.

use vstd::prelude::*;
use vstd::string::StringExecFns;

use crate::error::{Error, ErrorModel, ErrorType};
use crate::positioned::Positioned;

verus! {

/// The global build settings of a configuration.
#[derive(Clone, Debug)]
pub struct BuildSettings {
    pub version: String,
    pub c_standard: Positioned<String>,
    pub compiler: Positioned<String>,
    pub global_cflags: Option<String>,
    pub debug_flags: Option<String>,
    pub release_flags: Option<String>,
    pub parallel_jobs: Option<u32>,
}

/// The outcome of the settings validator, given the two probe outcomes:
/// the compiler must be on the search path, and it must accept the
/// requested language standard.
pub open spec fn settings_check_model(
    s: BuildSettings,
    compiler_found: bool,
    standard_ok: bool,
) -> Option<ErrorModel> {
    if !compiler_found {
        Some(
            ErrorModel {
                error_type: ErrorType::IncorrectCompiler,
                message: "Compiler not in path"@,
                span: Some(s.compiler.span),
                additional_info: None,
            },
        )
    } else if !standard_ok {
        Some(
            ErrorModel {
                error_type: ErrorType::UnsupportedCStandard,
                message: "Unsupported C standard"@,
                span: Some(s.c_standard.span),
                additional_info: None,
            },
        )
    } else {
        None
    }
}

impl BuildSettings {
    /// Judges the toolchain from the two probe outcomes: `compiler_found`
    /// reports whether the named compiler resolved to an executable on the
    /// search path, `standard_ok` whether invoking it with the requested
    /// language standard against an empty input compiled successfully.
    pub fn check_compiler_details(&self, compiler_found: bool, standard_ok: bool) -> (outcome:
        Result<(), Error>)
        ensures
            match outcome {
                Ok(()) => settings_check_model(*self, compiler_found, standard_ok) is None,
                Err(e) => Some(e@) == settings_check_model(*self, compiler_found, standard_ok),
            },
    {
        if !compiler_found {
            return Err(
                Error::new(
                    ErrorType::IncorrectCompiler,
                    String::from_str("Compiler not in path"),
                    self.compiler.span,
                ),
            );
        }
        if !standard_ok {
            return Err(
                Error::new(
                    ErrorType::UnsupportedCStandard,
                    String::from_str("Unsupported C standard"),
                    self.c_standard.span,
                ),
            );
        }
        Ok(())
    }
}

} // verus!


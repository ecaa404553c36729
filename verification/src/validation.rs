//! The verdict on an output of an environment.
use vstd::prelude::*;

verus! {

/// Whether an output is a correct answer to an input, and why not.
pub enum ValidationResult {
    CorrectTerminated,
    CorrectNonTerminated { iterations: u64 },
    Mismatch { reason: String },
    InvalidInput { input: String, error: String },
    InvalidOutput { output: String, expected_output_format: Option<String>, error: String },
    TimeOut,
}

} // verus!

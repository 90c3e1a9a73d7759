//! The ways in which a query can fail.

use vstd::prelude::*;

verus! {

/// Status code of a run that ended normally.
pub const STATUS_OK: i32 = 0;

/// Status code of a run that was refused because its configuration is
/// invalid: no worker or an unknown strategy.
pub const STATUS_INVALID_CONFIGURATION: i32 = 1;

/// Status code of a run that did not start because the text of the pattern
/// is malformed.
pub const STATUS_MALFORMED_PATTERN: i32 = 2;

/// Status code of a run that did not start because the text of the target
/// is malformed.
pub const STATUS_MALFORMED_TARGET: i32 = 3;

/// Errors that a call can end with. No partial result accompanies any of them.
#[derive(Debug)]
pub enum VF3Error {
    /// A query ended with a non-zero status code.
    ExecutionFailed {
        /// The status code: one of the constants of this module.
        code: i32,
    },
    /// The text handed to the loader is malformed.
    FormatError,
}

} // verus!

//! Limits shared across the modules.

use vstd::prelude::*;

verus! {

/// Shortest usable audio duration in microseconds: files and chapters shorter than this
/// are skipped as unusable.
pub const MIN_DURATION: i64 = 10_000;

} // verus!

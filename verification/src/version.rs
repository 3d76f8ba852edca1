//! Version constants for this crate
use vstd::prelude::*;

verus! {

/// Major version of this crate.
pub const MAJOR: u64 = 0;

/// Minor version of this crate.
pub const MINOR: u64 = 2;

/// Patch version of this crate.
pub const PATCH: u64 = 2;

} // verus!

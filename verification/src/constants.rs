//! Bounds of the TCP port space and the scanner's default settings.

use vstd::prelude::*;

verus! {

/// Smallest valid TCP port number.
pub const MIN_PORT: u32 = 0;

/// Largest valid TCP port number.
pub const MAX_PORT: u32 = 65535;

/// Number of worker threads used when none is requested.
pub const DEFAULT_THREADS: u32 = 8;

/// Seconds allowed for a single connect attempt when none is requested.
pub const DEFAULT_TIMEOUT: u64 = 1;

} // verus!

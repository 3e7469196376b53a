//! In-place differential synchronisation of two equal-length byte streams:
//! each window is compared unit by unit, and only the units that differ are
//! rewritten in the destination.
use vstd::prelude::*;

pub mod lemmas;
pub mod model;
pub mod session;
pub mod utils;

use crate::session::valid_config;

verus! {

/// Bytes compared and written per window.
pub const BLOCK_SIZE: usize = 1024 * 5;

/// Finest granularity at which bytes are compared and written.
pub const MIN_BLOCK_SIZE: usize = 512;

/// The built-in window and unit sizes are accepted by a session.
pub proof fn lemma_default_sizes_valid()
    ensures
        valid_config(BLOCK_SIZE as int, MIN_BLOCK_SIZE as int),
        BLOCK_SIZE % 2 == 0,
{
}

} // verus!

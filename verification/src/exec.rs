//! Placement of a cache block in the model-execution layer that drives the
//! matching core.

use vstd::prelude::*;

verus! {

/// Where a block of the paged cache lives.
#[derive(Debug, Clone, Copy)]
pub enum BlockLocation {
    GPU,
    CPU,
}

} // verus!

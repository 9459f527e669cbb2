//! Tasks and their scheduler.

use vstd::prelude::*;

verus! {

/// The scheduler of the kernel. It keeps no state yet.
pub struct Scheduler {}

} // verus!

//! The state shared by every action of one run.
use vstd::prelude::*;

verus! {

/// Settings of one run, fixed when it starts.
#[derive(Clone, Copy, Debug, PartialEq, Eq, Structural)]
pub struct ActionContext {
    /// When set, every step is decided as usual but no file is written.
    pub dry_run: bool,
}

impl ActionContext {
    pub fn new(dry_run: bool) -> (r: Self)
        ensures
            r.dry_run == dry_run,
    {
        Self { dry_run }
    }
}

} // verus!

//! The settings of a firefighter problem instance.
use vstd::prelude::*;

verus! {

/// Settings for a firefighter problem instance: the number of fire roots,
/// the number of nodes to defend per round of the strategy, and the number of
/// ticks from one round to the next.
#[derive(Debug)]
pub struct OSMFSettings {
    pub graph_name: String,
    pub strategy_name: String,
    pub num_roots: usize,
    pub num_ffs: usize,
    pub strategy_every: u64,
}

impl OSMFSettings {
    /// All counts are positive.
    pub open spec fn wf(&self) -> bool {
        &&& self.num_roots > 0
        &&& self.num_ffs > 0
        &&& self.strategy_every > 0
    }

    /// Decides whether all counts are positive.
    pub fn is_valid(&self) -> (valid: bool)
        ensures
            valid == self.wf(),
    {
        self.num_roots > 0 && self.num_ffs > 0 && self.strategy_every > 0
    }
}

} // verus!

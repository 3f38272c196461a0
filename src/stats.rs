use vstd::prelude::*;

verus! {

/// Counters of a search.
#[derive(Debug, Clone, Copy)]
pub struct Stats {
    pub propagations: u64,
    pub conflicts: u64,
    pub restarts: u64,
}

impl Stats {
    pub fn new() -> (r: Stats)
        ensures
            r.propagations == 0,
            r.conflicts == 0,
            r.restarts == 0,
    {
        Stats { propagations: 0, conflicts: 0, restarts: 0 }
    }
}

impl Default for Stats {
    fn default() -> (r: Stats)
        ensures
            r.propagations == 0,
            r.conflicts == 0,
            r.restarts == 0,
    {
        Stats::new()
    }
}

} // verus!

//! Simulation parameters.

use vstd::prelude::*;

use crate::random::Seed;

verus! {

/// Which end of the age range relocation prefers among its candidates.
#[derive(Clone, Copy, PartialEq, Eq, Structural, Debug)]
pub enum RelocationStrategy {
    OldestFirst,
    YoungestFirst,
}

/// Simulation parameters.
#[derive(Clone, Copy, PartialEq, Eq, Structural, Debug)]
pub struct Params {
    /// Seed for the random number generator.
    pub seed: Seed,
    /// Number of simulation iterations.
    pub num_iterations: u64,
    /// Number of nodes to form a complete group.
    pub group_size: usize,
    /// Age of a newly joined node.
    pub init_age: u64,
    /// Age at which a node becomes adult.
    pub adult_age: u64,
    /// Maximum number of nodes a section can have before the simulation fails.
    pub max_section_size: usize,
    /// Maximum number of relocation attempts after a `Live` event.
    pub max_relocation_attempts: usize,
    /// Maximum number of infants allowed in one section.
    pub max_infants_per_section: usize,
    /// Which candidate ages relocation prefers.
    pub relocation_strategy: RelocationStrategy,
}

impl Params {
    /// Bounds every use of the parameters relies on: a group has at least one
    /// member, ages start at one, and the split limit `2 * group_size` fits
    /// the machine word.
    pub open spec fn wf(self) -> bool {
        &&& 1 <= self.group_size
        &&& self.group_size <= usize::MAX / 2
        &&& 1 <= self.init_age
        &&& 1 <= self.adult_age
    }

    pub open spec fn spec_quorum(self) -> usize {
        (self.group_size / 2 + 1) as usize
    }

    /// Quorum size: a simple majority of the group.
    pub fn quorum(&self) -> (r: usize)
        ensures
            r == self.spec_quorum(),
    {
        self.group_size / 2 + 1
    }
}

impl Default for Params {
    /// The default parameters of the simulation.
    fn default() -> (r: Params)
        ensures
            r == (Params {
                seed: Seed(0, 0, 0, 0),
                num_iterations: 100000,
                group_size: 8,
                init_age: 4,
                adult_age: 5,
                max_section_size: 60,
                max_relocation_attempts: 5,
                max_infants_per_section: 1,
                relocation_strategy: RelocationStrategy::OldestFirst,
            }),
            r.wf(),
    {
        Params {
            seed: Seed(0, 0, 0, 0),
            num_iterations: 100000,
            group_size: 8,
            init_age: 4,
            adult_age: 5,
            max_section_size: 60,
            max_relocation_attempts: 5,
            max_infants_per_section: 1,
            relocation_strategy: RelocationStrategy::OldestFirst,
        }
    }
}

} // verus!

//! Configuration for the compatibility distance between genomes.
use vstd::prelude::*;

use crate::neuralnetwork::ONE_BITS;

verus! {

/// The weights of the compatibility-distance formula, as binary32 bit
/// patterns. The documented defaults are unit values, usable when no tuning
/// is performed.
#[derive(Debug, Clone, Copy, PartialEq, Eq, Structural)]
pub struct Config {
    /// How much the number of excess edges influences the distance.
    pub c1: u32,
    /// How much the number of disjoint edges influences the distance.
    pub c2: u32,
    /// How much the mean absolute weight difference of matching edges
    /// influences the distance.
    pub c3: u32,
}

impl Default for Config {
    /// The documented default: every weight is one.
    fn default() -> (r: Self)
        ensures
            r == (Config { c1: ONE_BITS, c2: ONE_BITS, c3: ONE_BITS }),
    {
        Config { c1: ONE_BITS, c2: ONE_BITS, c3: ONE_BITS }
    }
}

} // verus!

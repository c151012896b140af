//! A species: a representative genome plus the ids of the population members
//! currently within the compatibility threshold of it.
use vstd::prelude::*;

use crate::neuralnetwork::{GenomeView, NeuralNetwork};

verus! {

/// A cluster of genomes: the representative is a structural snapshot (not
/// necessarily a live population member), the members are `NeuralNetwork`
/// ids of the current population.
#[derive(Debug)]
pub struct Species {
    /// The snapshot every candidate is compared against.
    pub representative: NeuralNetwork,
    /// The ids of the population members assigned to this species.
    pub members: Vec<usize>,
}

/// What a species is, mathematically: the representative's view and the
/// member id sequence.
pub struct SpeciesView {
    /// The representative genome.
    pub representative: GenomeView,
    /// The member ids, in assignment order.
    pub members: Seq<usize>,
}

impl View for Species {
    type V = SpeciesView;

    open spec fn view(&self) -> SpeciesView {
        SpeciesView { representative: self.representative@, members: self.members@ }
    }
}

impl Species {
    /// A new species seeded with the given network: the network is the
    /// representative and its id the only member.
    pub fn new_with_network(nn: NeuralNetwork) -> (r: Self)
        ensures
            r.representative == nn,
            r.members@ =~= seq![nn.id],
    {
        let mut members: Vec<usize> = Vec::new();
        members.push(nn.id);
        Species { members, representative: nn }
    }

    /// Empty the membership; the representative is retained unchanged.
    pub fn clear(&mut self)
        ensures
            final(self).members@.len() == 0,
            final(self).representative == old(self).representative,
    {
        self.members.clear();
    }

    /// Whether the species lost every member in the last regrouping.
    pub fn is_unused(&self) -> (r: bool)
        ensures
            r == (self.members@.len() == 0),
    {
        self.members.is_empty()
    }
}

} // verus!

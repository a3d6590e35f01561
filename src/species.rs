use vstd::prelude::*;
use crate::genome::{Genome, GenomeView, distance};
use crate::settings::Settings;

verus! {

/// A cluster of compatible genomes: a representative, the indices of its
/// members in the population, and the members' summed shared fitness.
pub struct Species {
    /// Representative genome, a copy independent of the population.
    pub rep_genome: Genome,
    pub id: u32,
    pub population: Vec<u32>,
    /// Summed shared fitness of the members, in millionths.
    pub total_shared_fitness: i128,
}

/// `g` is compatible with the representative `rep`: closer than the threshold.
pub open spec fn compatible(rep: GenomeView, g: GenomeView, s: Settings) -> bool {
    distance(rep, g, s) < s.max_difference
}

/// What a copy of a genome for a new individual holds.
pub open spec fn copy_view(g: GenomeView) -> GenomeView {
    GenomeView { fitness: 0, adj_fitness: 0, ..g }
}

/// Fitness shared among `n` members: `f / n`, rounded toward zero.
pub open spec fn shared_fitness(f: int, n: int) -> int {
    if f >= 0 {
        f / n
    } else {
        -((-f) / n)
    }
}

impl Species {
    /// A new species with a copy of `rep_genome` as representative and no members.
    pub fn new(rep_genome: &Genome, id: u32) -> (r: Self)
        requires
            rep_genome.wf(),
        ensures
            r.rep_genome.wf(),
            r.rep_genome@ == copy_view(rep_genome@),
            r.rep_genome.phenotype() is None,
            r.id == id,
            r.population@ == Seq::<u32>::empty(),
            r.total_shared_fitness == 0,
    {
        Species { rep_genome: rep_genome.clone(), id, population: Vec::new(), total_shared_fitness: 0 }
    }

    /// Whether `other` is compatible with the representative.
    pub fn belongs(&self, other: &Genome, settings: &Settings) -> (r: bool)
        requires
            self.rep_genome.wf(),
            other.wf(),
        ensures
            r == compatible(self.rep_genome@, other@, *settings),
    {
        Genome::compute_difference(&self.rep_genome, other, settings) < settings.max_difference as u128
    }

    /// Replaces the representative by a copy of `new_rep`.
    pub fn set_new_rep_genome(&mut self, new_rep: &Genome)
        requires
            new_rep.wf(),
        ensures
            final(self).rep_genome.wf(),
            final(self).rep_genome@ == copy_view(new_rep@),
            final(self).rep_genome.phenotype() is None,
            final(self).id == old(self).id,
            final(self).population == old(self).population,
            final(self).total_shared_fitness == old(self).total_shared_fitness,
    {
        self.rep_genome = new_rep.clone();
    }

    /// Empties the member list and resets the shared fitness.
    pub fn prep_new_generation(&mut self)
        ensures
            final(self).population@ == Seq::<u32>::empty(),
            final(self).total_shared_fitness == 0,
            final(self).rep_genome == old(self).rep_genome,
            final(self).id == old(self).id,
    {
        self.population.clear();
        self.total_shared_fitness = 0;
    }

    pub fn get_id(&self) -> (r: u32)
        ensures
            r == self.id,
    {
        self.id
    }
}

/// `f / n` rounded toward zero.
pub fn share(f: i64, n: i64) -> (r: i64)
    requires
        n >= 1,
    ensures
        r == shared_fitness(f as int, n as int),
{
    f / n
}

} // verus!

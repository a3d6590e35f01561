use vstd::prelude::*;
use crate::genome::{Genome, GenomeView, is_mutation_of, scaffold_gene};
use crate::settings::Settings;
use crate::species::{Species, compatible, copy_view, share, shared_fitness};

verus! {

/// Genome `i` belongs to species `k`: it is a member of it, no earlier species
/// is compatible with it, and `k` is compatible with it or was founded on it.
pub open spec fn home(pop: Seq<GenomeView>, species: Seq<Species>, s: Settings, i: int, k: int) -> bool {
    &&& 0 <= k < species.len()
    &&& species[k].population@.contains(i as u32)
    &&& forall|k2: int| 0 <= k2 < k ==> !compatible(species[k2].rep_genome@, pop[i], s)
    &&& (compatible(species[k].rep_genome@, pop[i], s) || species[k].rep_genome@ == copy_view(pop[i]))
}

/// Member lists hold indices below `n`, without repetition, and no index is
/// in two species.
pub open spec fn members_ok(species: Seq<Species>, n: nat) -> bool {
    &&& forall|k: int, x: int|
        0 <= k < species.len() && 0 <= x < species[k].population@.len() ==> species[k].population@[x] < n
    &&& forall|k: int| 0 <= k < species.len() ==> species[k].population@.no_duplicates()
    &&& forall|k1: int, k2: int, i: u32|
        0 <= k1 < species.len() && 0 <= k2 < species.len() && species[k1].population@.contains(i)
            && species[k2].population@.contains(i) ==> k1 == k2
}

/// Every genome of the population has its home species.
pub open spec fn clustered(pop: Seq<GenomeView>, species: Seq<Species>, s: Settings) -> bool {
    &&& members_ok(species, pop.len())
    &&& forall|i: int| 0 <= i < pop.len() ==> #[trigger] has_home(pop, species, s, i)
}

/// Genome `i` has a home species.
pub open spec fn has_home(pop: Seq<GenomeView>, species: Seq<Species>, s: Settings, i: int) -> bool {
    exists|k: int| home(pop, species, s, i, k)
}

/// Every member list is strictly ascending.
pub open spec fn lists_ascending(species: Seq<Species>) -> bool {
    forall|k: int, a: int, c: int|
        0 <= k < species.len() && 0 <= a < c < species[k].population@.len() ==> species[k].population@[a]
            < species[k].population@[c]
}

/// Species `k` was founded by the first genome of its member list: its
/// representative is a copy of that genome, its total is 0, and no earlier
/// species is compatible with that genome.
pub open spec fn founded_by(pop: Seq<GenomeView>, species: Seq<Species>, s: Settings, k: int) -> bool {
    let f = species[k].population@[0];
    &&& species[k].population@.len() >= 1
    &&& species[k].total_shared_fitness == 0
    &&& species[k].rep_genome@ == copy_view(pop[f as int])
    &&& forall|k2: int| 0 <= k2 < k ==> !compatible(species[k2].rep_genome@, pop[f as int], s)
}

/// The species from index `first_new` on were founded in this pass, one per
/// founding genome, in the order of their founders; every other member of any
/// species is compatible with its representative.
pub open spec fn founded_in_order(pop: Seq<GenomeView>, species: Seq<Species>, s: Settings, first_new: int) -> bool {
    &&& forall|k: int| first_new <= k < species.len() ==> #[trigger] founded_by(pop, species, s, k)
    &&& forall|k1: int, k2: int|
        first_new <= k1 < k2 < species.len() ==> species[k1].population@[0] < species[k2].population@[0]
    &&& forall|k: int, x: int|
        0 <= k < species.len() && 0 <= x < species[k].population@.len() ==> compatible(
            species[k].rep_genome@,
            pop[species[k].population@[x] as int],
            s,
        ) || (k >= first_new && x == 0)
}

/// `next` after `count` further identifiers were handed out from `start`.
pub open spec fn id_after(start: u32, count: int) -> int {
    (start as int + count) % 0x1_0000_0000
}

proof fn lemma_id_step(x: u32, start: u32, count: int)
    requires
        count >= 0,
        x as int == id_after(start, count),
    ensures
        (if x < u32::MAX { x as int + 1 } else { 0 }) == id_after(start, count + 1),
{
    let y = start as int + count;
    let q = y / 0x1_0000_0000;
    vstd::arithmetic::div_mod::lemma_fundamental_div_mod(y, 0x1_0000_0000);
    if x < u32::MAX {
        vstd::arithmetic::div_mod::lemma_fundamental_div_mod_converse(y + 1, 0x1_0000_0000, q, x + 1);
    } else {
        vstd::arithmetic::div_mod::lemma_fundamental_div_mod_converse(y + 1, 0x1_0000_0000, q + 1, 0);
    }
}

/// Raw fitness of each genome.
pub open spec fn fitness_of(pop: Seq<GenomeView>) -> Seq<i64> {
    pop.map_values(|g: GenomeView| g.fitness)
}

/// First member with the highest raw fitness.
pub open spec fn best_member(fits: Seq<i64>, members: Seq<u32>) -> u32
    decreases members.len(),
{
    if members.len() <= 1 {
        members[0]
    } else {
        let b = best_member(fits, members.drop_last());
        if fits[b as int] < fits[members.last() as int] {
            members.last()
        } else {
            b
        }
    }
}

/// Summed shared fitness of the members, each sharing with `n` members.
pub open spec fn shared_total(fits: Seq<i64>, members: Seq<u32>, n: int) -> int
    decreases members.len(),
{
    if members.len() == 0 {
        0
    } else {
        shared_total(fits, members.drop_last(), n) + shared_fitness(fits[members.last() as int] as int, n)
    }
}

/// The population, its species, and the counters that name new ones.
pub struct NEAT {
    pop: Vec<Genome>,
    species: Vec<Species>,
    n_inputs: usize,
    n_outputs: usize,
    genome_next_id: u32,
    species_next_id: u32,
    generation: i32,
    settings: Settings,
}

impl NEAT {
    pub closed spec fn spec_pop(&self) -> Seq<GenomeView> {
        self.pop@.map_values(|g: Genome| g@)
    }

    pub closed spec fn spec_species(&self) -> Seq<Species> {
        self.species@
    }

    pub closed spec fn spec_generation(&self) -> i32 {
        self.generation
    }

    /// Identifier the next new species receives.
    pub closed spec fn spec_species_next_id(&self) -> u32 {
        self.species_next_id
    }

    pub closed spec fn spec_settings(&self) -> Settings {
        self.settings
    }

    pub closed spec fn wf(&self) -> bool {
        &&& self.pop.len() <= u32::MAX
        &&& forall|i: int| 0 <= i < self.pop.len() ==> (#[trigger] self.pop@[i]).wf()
        &&& forall|k: int| 0 <= k < self.species.len() ==> (#[trigger] self.species@[k]).rep_genome.wf()
        &&& members_ok(self.species@, self.pop.len() as nat)
    }

    /// A population of `pop_size` scaffold genomes with mutated weights,
    /// clustered into species.
    pub fn new(pop_size: usize, inputs: usize, outputs: usize, settings: Settings) -> (r: Self)
        requires
            inputs + outputs < u32::MAX,
            inputs * outputs <= 0x1_0000_0000,
            pop_size <= u32::MAX,
        ensures
            r.wf(),
            r.spec_settings() == settings,
            r.spec_generation() == 0,
            r.spec_pop().len() == pop_size,
            forall|i: int|
                #![trigger r.spec_pop()[i]]
                0 <= i < pop_size ==> r.spec_pop()[i].id == i && r.spec_pop()[i].n_inputs == inputs
                    && r.spec_pop()[i].n_outputs == outputs && r.spec_pop()[i].fitness == 0
                    && r.spec_pop()[i].genes.len() == inputs * outputs,
            forall|i: int, k: int|
                0 <= i < pop_size && 0 <= k < inputs * outputs ==> is_mutation_of(
                    #[trigger] r.spec_pop()[i].genes[k],
                    scaffold_gene(k, inputs as u32, outputs as u32),
                    settings,
                ),
            clustered(r.spec_pop(), r.spec_species(), settings),
            lists_ascending(r.spec_species()),
            founded_in_order(r.spec_pop(), r.spec_species(), settings, 0),
            forall|k: int| 0 <= k < r.spec_species().len() ==> (#[trigger] r.spec_species()[k]).id == id_after(0, k),
    {
        let mut neat = NEAT {
            pop: Vec::new(),
            species: Vec::new(),
            n_inputs: inputs,
            n_outputs: outputs,
            genome_next_id: 0,
            species_next_id: 0,
            generation: 0,
            settings,
        };
        neat.populate(pop_size);
        neat.mutate_initial_pop();
        neat.compute_new_pop_species();
        neat
    }

    fn get_next_genome_id(&mut self) -> (r: u32)
        ensures
            r == old(self).genome_next_id,
            old(self).genome_next_id < u32::MAX ==> final(self).genome_next_id == old(self).genome_next_id + 1,
            *final(self) == (NEAT { genome_next_id: final(self).genome_next_id, ..*old(self) }),
    {
        let id = self.genome_next_id;
        self.genome_next_id = if self.genome_next_id < u32::MAX {
            self.genome_next_id + 1
        } else {
            0
        };
        id
    }

    fn get_next_species_id(&mut self) -> (r: u32)
        ensures
            r == old(self).species_next_id,
            old(self).species_next_id < u32::MAX ==> final(self).species_next_id == old(self).species_next_id + 1,
            old(self).species_next_id == u32::MAX ==> final(self).species_next_id == 0,
            *final(self) == (NEAT { species_next_id: final(self).species_next_id, ..*old(self) }),
    {
        let id = self.species_next_id;
        self.species_next_id = if self.species_next_id < u32::MAX {
            self.species_next_id + 1
        } else {
            0
        };
        id
    }

    fn populate(&mut self, pop_size: usize)
        requires
            old(self).pop.len() == 0,
            old(self).species.len() == 0,
            old(self).genome_next_id == 0,
            old(self).n_inputs + old(self).n_outputs < u32::MAX,
            old(self).n_inputs * old(self).n_outputs <= 0x1_0000_0000,
            pop_size <= u32::MAX,
        ensures
            final(self).wf(),
            final(self).species.len() == 0,
            final(self).species_next_id == old(self).species_next_id,
            final(self).settings == old(self).settings,
            final(self).generation == old(self).generation,
            final(self).n_inputs == old(self).n_inputs,
            final(self).n_outputs == old(self).n_outputs,
            final(self).pop.len() == pop_size,
            forall|i: int|
                0 <= i < pop_size ==> (#[trigger] final(self).pop@[i]).phenotype() is None
                    && final(self).pop@[i]@.id == i && final(self).pop@[i]@.n_inputs == old(self).n_inputs
                    && final(self).pop@[i]@.n_outputs == old(self).n_outputs && final(self).pop@[i]@.fitness == 0
                    && final(self).pop@[i]@.genes.len() == old(self).n_inputs * old(self).n_outputs
                    && forall|k: int|
                    0 <= k < final(self).pop@[i]@.genes.len() ==> #[trigger] final(self).pop@[i]@.genes[k]
                        == scaffold_gene(k, old(self).n_inputs as u32, old(self).n_outputs as u32),
    {
        let mut k: usize = 0;
        while k < pop_size
            invariant
                0 <= k <= pop_size,
                pop_size <= u32::MAX,
                self.pop.len() == k,
                self.genome_next_id == k,
                self.species.len() == 0,
                self.species_next_id == old(self).species_next_id,
                self.settings == old(self).settings,
                self.generation == old(self).generation,
                self.n_inputs == old(self).n_inputs,
                self.n_outputs == old(self).n_outputs,
                self.n_inputs + self.n_outputs < u32::MAX,
                self.n_inputs * self.n_outputs <= 0x1_0000_0000,
                forall|i: int| 0 <= i < self.pop.len() ==> (#[trigger] self.pop@[i]).wf(),
                forall|i: int|
                    0 <= i < k ==> (#[trigger] self.pop@[i]).phenotype() is None && self.pop@[i]@.id == i
                        && self.pop@[i]@.n_inputs == old(self).n_inputs && self.pop@[i]@.n_outputs
                        == old(self).n_outputs && self.pop@[i]@.fitness == 0 && self.pop@[i]@.genes.len()
                        == old(self).n_inputs * old(self).n_outputs && forall|x: int|
                        0 <= x < self.pop@[i]@.genes.len() ==> #[trigger] self.pop@[i]@.genes[x]
                            == scaffold_gene(x, old(self).n_inputs as u32, old(self).n_outputs as u32),
            decreases pop_size - k,
        {
            let id = self.get_next_genome_id();
            let g = Genome::new(id, self.n_inputs as u32, self.n_outputs as u32);
            self.pop.push(g);
            k = k + 1;
        }
    }

    fn mutate_initial_pop(&mut self)
        requires
            old(self).wf(),
        ensures
            final(self).wf(),
            final(self).species == old(self).species,
            final(self).species_next_id == old(self).species_next_id,
            final(self).settings == old(self).settings,
            final(self).generation == old(self).generation,
            final(self).pop.len() == old(self).pop.len(),
            forall|i: int|
                #![trigger final(self).pop@[i]]
                0 <= i < old(self).pop.len() ==> final(self).pop@[i]@.genes.len() == old(self).pop@[i]@.genes.len()
                    && final(self).pop@[i]@ == (GenomeView {
                    genes: final(self).pop@[i]@.genes,
                    ..old(self).pop@[i]@
                }) && forall|x: int|
                    0 <= x < old(self).pop@[i]@.genes.len() ==> is_mutation_of(
                        #[trigger] final(self).pop@[i]@.genes[x],
                        old(self).pop@[i]@.genes[x],
                        old(self).settings,
                    ),
    {
        let mut k: usize = 0;
        while k < self.pop.len()
            invariant
                self.wf(),
                0 <= k <= self.pop.len(),
                self.species == old(self).species,
                self.species_next_id == old(self).species_next_id,
                self.settings == old(self).settings,
                self.generation == old(self).generation,
                self.pop.len() == old(self).pop.len(),
                forall|i: int| k <= i < self.pop.len() ==> self.pop@[i] == old(self).pop@[i],
                forall|i: int|
                    #![trigger self.pop@[i]]
                    0 <= i < k ==> self.pop@[i]@.genes.len() == old(self).pop@[i]@.genes.len()
                        && self.pop@[i]@ == (GenomeView { genes: self.pop@[i]@.genes, ..old(self).pop@[i]@ })
                        && forall|x: int|
                        0 <= x < old(self).pop@[i]@.genes.len() ==> is_mutation_of(
                            #[trigger] self.pop@[i]@.genes[x],
                            old(self).pop@[i]@.genes[x],
                            old(self).settings,
                        ),
            decreases self.pop.len() - k,
        {
            let settings = self.settings;
            self.pop[k].mutate_weights(&settings);
            k = k + 1;
        }
    }

    /// Index of the first species that `genome` is compatible with.
    fn get_genome_species(&self, genome: &Genome) -> (r: Option<usize>)
        requires
            forall|k: int| 0 <= k < self.species.len() ==> (#[trigger] self.species@[k]).rep_genome.wf(),
            genome.wf(),
        ensures
            match r {
                Some(k) => k < self.species.len() && compatible(self.species@[k as int].rep_genome@, genome@, self.settings)
                    && forall|k2: int| 0 <= k2 < k ==> !compatible(self.species@[k2].rep_genome@, genome@, self.settings),
                None => forall|k2: int|
                    0 <= k2 < self.species.len() ==> !compatible(self.species@[k2].rep_genome@, genome@, self.settings),
            },
    {
        let mut k: usize = 0;
        while k < self.species.len()
            invariant
                forall|k: int| 0 <= k < self.species.len() ==> (#[trigger] self.species@[k]).rep_genome.wf(),
                genome.wf(),
                0 <= k <= self.species.len(),
                forall|k2: int| 0 <= k2 < k ==> !compatible(self.species@[k2].rep_genome@, genome@, self.settings),
            decreases self.species.len() - k,
        {
            if self.species[k].belongs(genome, &self.settings) {
                return Some(k);
            }
            k = k + 1;
        }
        None
    }

    /// Clusters the population anew: every species loses its members, then
    /// each genome joins the first species it is compatible with, or founds a
    /// new one with a copy of itself as representative.
    pub fn compute_new_pop_species(&mut self)
        requires
            old(self).wf(),
        ensures
            final(self).wf(),
            final(self).spec_pop() == old(self).spec_pop(),
            final(self).spec_settings() == old(self).spec_settings(),
            final(self).spec_generation() == old(self).spec_generation(),
            final(self).spec_species().len() >= old(self).spec_species().len(),
            forall|k: int|
                0 <= k < old(self).spec_species().len() ==> (#[trigger] final(self).spec_species()[k]).rep_genome
                    == old(self).spec_species()[k].rep_genome && final(self).spec_species()[k].id
                    == old(self).spec_species()[k].id && final(self).spec_species()[k].total_shared_fitness == 0,
            clustered(final(self).spec_pop(), final(self).spec_species(), final(self).spec_settings()),
            lists_ascending(final(self).spec_species()),
            founded_in_order(
                final(self).spec_pop(),
                final(self).spec_species(),
                final(self).spec_settings(),
                old(self).spec_species().len() as int,
            ),
            forall|k: int|
                old(self).spec_species().len() <= k < final(self).spec_species().len() ==> (#[trigger] final(self).spec_species()[k]).id == id_after(
                    old(self).spec_species_next_id(),
                    k - old(self).spec_species().len(),
                ),
            final(self).spec_species_next_id() == id_after(
                old(self).spec_species_next_id(),
                final(self).spec_species().len() - old(self).spec_species().len(),
            ),
    {
        let mut k: usize = 0;
        while k < self.species.len()
            invariant
                0 <= k <= self.species.len(),
                self.pop == old(self).pop,
                self.settings == old(self).settings,
                self.generation == old(self).generation,
                self.species.len() == old(self).species.len(),
                forall|x: int|
                    #![trigger self.species@[x]]
                    0 <= x < self.species.len() ==> self.species@[x].rep_genome == old(self).species@[x].rep_genome
                        && self.species@[x].id == old(self).species@[x].id,
                forall|x: int|
                    #![trigger self.species@[x]]
                    0 <= x < k ==> self.species@[x].population@.len() == 0
                        && self.species@[x].total_shared_fitness == 0,
                forall|x: int| k <= x < self.species.len() ==> self.species@[x] == old(self).species@[x],
                self.species_next_id == old(self).species_next_id,
            decreases self.species.len() - k,
        {
            self.species[k].prep_new_generation();
            k = k + 1;
        }
        let ghost pv = self.spec_pop();
        let ghost old_count = self.species.len();
        assert(self.species_next_id as int == id_after(old(self).species_next_id, 0));
        let n = self.pop.len();
        let mut i: usize = 0;
        while i < n
            invariant
                0 <= i <= n,
                n == self.pop.len(),
                n <= u32::MAX,
                pv == self.spec_pop(),
                self.pop == old(self).pop,
                self.settings == old(self).settings,
                self.generation == old(self).generation,
                forall|x: int| 0 <= x < self.pop.len() ==> (#[trigger] self.pop@[x]).wf(),
                forall|x: int| 0 <= x < self.species.len() ==> (#[trigger] self.species@[x]).rep_genome.wf(),
                self.species.len() >= old_count,
                old_count == old(self).species.len(),
                forall|x: int|
                    #![trigger self.species@[x]]
                    0 <= x < old_count ==> self.species@[x].rep_genome == old(self).species@[x].rep_genome
                        && self.species@[x].id == old(self).species@[x].id
                        && self.species@[x].total_shared_fitness == 0,
                members_ok(self.species@, i as nat),
                forall|x: int| 0 <= x < i ==> #[trigger] has_home(pv, self.species@, self.settings, x),
                lists_ascending(self.species@),
                founded_in_order(pv, self.species@, self.settings, old_count as int),
                forall|k: int|
                    old_count <= k < self.species.len() ==> (#[trigger] self.species@[k]).id == id_after(
                        old(self).species_next_id,
                        k - old_count,
                    ),
                self.species_next_id == id_after(old(self).species_next_id, self.species.len() - old_count),
            decreases n - i,
        {
            assert(pv[i as int] == self.pop@[i as int]@);
            let found = self.get_genome_species(&self.pop[i]);
            let ghost before = self.species@;
            match found {
                Some(idx) => {
                    self.species[idx].population.push(i as u32);
                    proof {
                        let sp = self.species@;
                        assert(sp[idx as int].population@ == before[idx as int].population@.push(i as u32));
                        assert forall|x: int| 0 <= x < sp.len() && x != idx implies sp[x] == before[x] by {}
                        assert(!before[idx as int].population@.contains(i as u32));
                        assert forall|x: int, y: int|
                            0 <= x < sp.len() && 0 <= y < sp[x].population@.len() implies sp[x].population@[y] < i + 1 by {
                            if x == idx && y < before[x].population@.len() {
                                assert(sp[x].population@[y] == before[x].population@[y]);
                            }
                        }
                        assert forall|x: int| 0 <= x < sp.len() implies sp[x].population@.no_duplicates() by {
                            if x == idx {
                                assert forall|a: int, c: int| 0 <= a < c < sp[x].population@.len()
                                    implies sp[x].population@[a] != sp[x].population@[c] by {
                                    if c == sp[x].population@.len() - 1 {
                                        assert(before[x].population@[a] < i);
                                    }
                                }
                            }
                        }
                        assert forall|k1: int, k2: int, m: u32|
                            0 <= k1 < sp.len() && 0 <= k2 < sp.len() && sp[k1].population@.contains(m)
                                && sp[k2].population@.contains(m) implies k1 == k2 by {
                            lemma_push_contains(before[idx as int].population@, i as u32, m);
                            if m != i as u32 {
                                assert(before[k1].population@.contains(m));
                                assert(before[k2].population@.contains(m));
                            } else {
                                if k1 != idx {
                                    let y = choose|y: int| 0 <= y < before[k1].population@.len() && before[k1].population@[y] == m;
                                    assert(before[k1].population@[y] < i);
                                }
                                if k2 != idx {
                                    let y = choose|y: int| 0 <= y < before[k2].population@.len() && before[k2].population@[y] == m;
                                    assert(before[k2].population@[y] < i);
                                }
                            }
                        }
                        assert forall|k: int, a: int, c: int|
                            0 <= k < sp.len() && 0 <= a < c < sp[k].population@.len() implies sp[k].population@[a]
                            < sp[k].population@[c] by {
                            if k == idx {
                                assert(before[k].population@[a] < i);
                            }
                        }
                        assert forall|k: int| old_count <= k < sp.len() implies #[trigger] founded_by(pv, sp, self.settings, k) by {
                            assert(founded_by(pv, before, self.settings, k));
                            if k == idx {
                                assert(sp[k].population@[0] == before[k].population@[0]);
                            }
                        }
                        assert forall|k1: int, k2: int| old_count <= k1 < k2 < sp.len() implies sp[k1].population@[0]
                            < sp[k2].population@[0] by {
                            assert(founded_by(pv, before, self.settings, k1));
                            assert(founded_by(pv, before, self.settings, k2));
                            assert(sp[k1].population@[0] == before[k1].population@[0]);
                            assert(sp[k2].population@[0] == before[k2].population@[0]);
                        }
                        assert forall|k: int, x: int|
                            0 <= k < sp.len() && 0 <= x < sp[k].population@.len() implies compatible(
                            sp[k].rep_genome@,
                            pv[sp[k].population@[x] as int],
                            self.settings,
                        ) || (k >= old_count && x == 0) by {
                            if k == idx && x < before[k].population@.len() {
                                assert(sp[k].population@[x] == before[k].population@[x]);
                            }
                        }
                        assert forall|k: int| old_count <= k < sp.len() implies (#[trigger] sp[k]).id == id_after(
                            old(self).species_next_id,
                            k - old_count,
                        ) by {
                            assert(before[k].id == id_after(old(self).species_next_id, k - old_count));
                        }
                        assert forall|x: int| 0 <= x < i + 1 implies #[trigger] has_home(pv, sp, self.settings, x) by {
                            if x < i {
                                assert(has_home(pv, before, self.settings, x));
                                let k = choose|k: int| home(pv, before, self.settings, x, k);
                                lemma_push_contains(before[idx as int].population@, i as u32, x as u32);
                                assert(home(pv, sp, self.settings, x, k));
                            } else {
                                assert(sp[idx as int].population@.last() == i as u32);
                                assert(home(pv, sp, self.settings, x, idx as int));
                            }
                        }
                    }
                },
                None => {
                    let ghost next_before = self.species_next_id;
                    proof {
                        lemma_id_step(next_before, old(self).species_next_id, self.species.len() - old_count);
                    }
                    let id = self.get_next_species_id();
                    let mut sp = Species::new(&self.pop[i], id);
                    sp.population.push(i as u32);
                    self.species.push(sp);
                    proof {
                        let sv = self.species@;
                        let last = sv.len() - 1;
                        assert(sv[last].population@ == seq![i as u32]);
                        assert forall|x: int| 0 <= x < last implies sv[x] == before[x] by {}
                        assert(founded_by(pv, sv, self.settings, last));
                        assert forall|k: int| old_count <= k < sv.len() implies #[trigger] founded_by(pv, sv, self.settings, k) by {
                            if k < last {
                                assert(founded_by(pv, before, self.settings, k));
                            }
                        }
                        assert forall|k1: int, k2: int| old_count <= k1 < k2 < sv.len() implies sv[k1].population@[0]
                            < sv[k2].population@[0] by {
                            assert(founded_by(pv, before, self.settings, k1));
                            if k2 == last {
                                assert(sv[k1].population@[0] < i);
                            }
                        }
                        assert forall|k: int| old_count <= k < sv.len() implies (#[trigger] sv[k]).id == id_after(
                            old(self).species_next_id,
                            k - old_count,
                        ) by {
                            if k < last {
                                assert(before[k].id == id_after(old(self).species_next_id, k - old_count));
                            }
                        }
                        assert forall|x: int, y: int|
                            0 <= x < sv.len() && 0 <= y < sv[x].population@.len() implies sv[x].population@[y] < i + 1 by {
                            if x < last {
                                assert(sv[x].population@[y] < i);
                            }
                        }
                        assert forall|k1: int, k2: int, m: u32|
                            0 <= k1 < sv.len() && 0 <= k2 < sv.len() && sv[k1].population@.contains(m)
                                && sv[k2].population@.contains(m) implies k1 == k2 by {
                            if k1 < last && k2 == last {
                                let y = choose|y: int| 0 <= y < sv[k1].population@.len() && sv[k1].population@[y] == m;
                                assert(sv[k1].population@[y] < i);
                                assert(sv[last].population@[0] == m);
                            }
                            if k2 < last && k1 == last {
                                let y = choose|y: int| 0 <= y < sv[k2].population@.len() && sv[k2].population@[y] == m;
                                assert(sv[k2].population@[y] < i);
                                assert(sv[last].population@[0] == m);
                            }
                        }
                        assert forall|x: int| 0 <= x < i + 1 implies #[trigger] has_home(pv, sv, self.settings, x) by {
                            if x < i {
                                assert(has_home(pv, before, self.settings, x));
                                let k = choose|k: int| home(pv, before, self.settings, x, k);
                                assert(home(pv, sv, self.settings, x, k));
                            } else {
                                assert(sv[last].population@[0] == i as u32);
                                assert(home(pv, sv, self.settings, x, last));
                            }
                        }
                    }
                },
            }
            i = i + 1;
        }
    }
}

proof fn lemma_push_contains(s: Seq<u32>, v: u32, m: u32)
    ensures
        s.push(v).contains(m) <==> (s.contains(m) || m == v),
{
    if s.contains(m) {
        let y = choose|y: int| 0 <= y < s.len() && s[y] == m;
        assert(s.push(v)[y] == m);
    }
    if m == v {
        assert(s.push(v)[s.len() as int] == m);
    }
    if s.push(v).contains(m) && m != v {
        let y = choose|y: int| 0 <= y < s.push(v).len() && s.push(v)[y] == m;
        assert(s[y] == m);
    }
}


proof fn lemma_unique_home(species: Seq<Species>, n: nat, k1: int, k2: int, i: u32)
    requires
        members_ok(species, n),
        0 <= k1 < species.len(),
        0 <= k2 < species.len(),
        species[k1].population@.contains(i),
        species[k2].population@.contains(i),
    ensures
        k1 == k2,
{
}

proof fn lemma_best_is_member(fits: Seq<i64>, members: Seq<u32>)
    requires
        members.len() >= 1,
    ensures
        members.contains(best_member(fits, members)),
    decreases members.len(),
{
    if members.len() > 1 {
        lemma_best_is_member(fits, members.drop_last());
        let b = best_member(fits, members.drop_last());
        let y = choose|y: int| 0 <= y < members.drop_last().len() && members.drop_last()[y] == b;
        assert(members[y] == b);
        assert(members[members.len() - 1] == members.last());
    } else {
        assert(members[0] == best_member(fits, members));
    }
}

/// A list of distinct numbers below `n` has at most `n` entries.
proof fn lemma_distinct_below(s: Seq<u32>, n: nat)
    requires
        s.no_duplicates(),
        forall|x: int| 0 <= x < s.len() ==> s[x] < n,
    ensures
        s.len() <= n,
    decreases n,
{
    if n == 0 {
        if s.len() > 0 {
            assert(s[0] < 0);
        }
    } else {
        let top = (n - 1) as u32;
        if s.contains(top) {
            let i = choose|i: int| 0 <= i < s.len() && s[i] == top;
            let s2 = s.remove(i);
            assert forall|x: int| 0 <= x < s2.len() implies s2[x] < n - 1 by {
                if x < i {
                    assert(s2[x] == s[x]);
                } else {
                    assert(s2[x] == s[x + 1]);
                }
            }
            assert(s2.no_duplicates()) by {
                assert forall|a: int, c: int| 0 <= a < c < s2.len() implies s2[a] != s2[c] by {
                    let a1 = if a < i { a } else { a + 1 };
                    let c1 = if c < i { c } else { c + 1 };
                    assert(s2[a] == s[a1] && s2[c] == s[c1]);
                }
            }
            lemma_distinct_below(s2, (n - 1) as nat);
        } else {
            assert forall|x: int| 0 <= x < s.len() implies s[x] < n - 1 by {
                assert(s[x] != top);
            }
            lemma_distinct_below(s, (n - 1) as nat);
        }
    }
}

/// Sets each member's shared fitness; returns the first member with the
/// highest raw fitness and the members' summed shared fitness.
fn settle_members(pop: &mut Vec<Genome>, members: &Vec<u32>) -> (r: (u32, i128))
    requires
        members.len() >= 1,
        members.len() <= u32::MAX,
        old(pop).len() <= u32::MAX,
        forall|x: int| 0 <= x < members.len() ==> members@[x] < old(pop).len(),
        members@.no_duplicates(),
        forall|i: int| 0 <= i < old(pop).len() ==> (#[trigger] old(pop)@[i]).wf(),
    ensures
        final(pop).len() == old(pop).len(),
        forall|i: int| 0 <= i < final(pop).len() ==> (#[trigger] final(pop)@[i]).wf(),
        r.0 == best_member(fitness_of(old(pop)@.map_values(|g: Genome| g@)), members@),
        r.1 == shared_total(fitness_of(old(pop)@.map_values(|g: Genome| g@)), members@, members.len() as int),
        forall|i: int|
            0 <= i < final(pop).len() && members@.contains(i as u32) ==> (#[trigger] final(pop)@[i])@
                == (GenomeView {
                adj_fitness: shared_fitness(old(pop)@[i]@.fitness as int, members.len() as int) as i64,
                ..old(pop)@[i]@
            }),
        forall|i: int|
            0 <= i < final(pop).len() && !members@.contains(i as u32) ==> #[trigger] final(pop)@[i] == old(pop)@[i],
{
    let ghost fits = fitness_of(old(pop)@.map_values(|g: Genome| g@));
    let n: i64 = members.len() as i64;
    let mut best: u32 = members[0];
    let mut best_fitness: i64 = pop[members[0] as usize].fitness();
    let mut total: i128 = 0;
    let mut t: usize = 0;
    assert(members@.take(1).drop_last() =~= Seq::<u32>::empty());
    while t < members.len()
        invariant
            n == members.len(),
            1 <= n <= u32::MAX,
            pop.len() <= u32::MAX,
            0 <= t <= members.len(),
            pop.len() == old(pop).len(),
            forall|x: int| 0 <= x < members.len() ==> members@[x] < pop.len(),
            members@.no_duplicates(),
            forall|i: int| 0 <= i < pop.len() ==> (#[trigger] pop@[i]).wf(),
            forall|i: int| 0 <= i < pop.len() ==> (#[trigger] pop@[i])@.fitness == old(pop)@[i]@.fitness,
            fits == fitness_of(old(pop)@.map_values(|g: Genome| g@)),
            fits.len() == pop.len(),
            best == best_member(fits, members@.take(if t == 0 { 1 } else { t as int })),
            best_fitness == fits[best as int],
            total == shared_total(fits, members@.take(t as int), n as int),
            -0x8000_0000_0000_0000 * t <= total <= 0x7FFF_FFFF_FFFF_FFFF * t,
            forall|i: int|
                0 <= i < pop.len() && members@.take(t as int).contains(i as u32) ==> (#[trigger] pop@[i])@
                    == (GenomeView {
                    adj_fitness: shared_fitness(old(pop)@[i]@.fitness as int, n as int) as i64,
                    ..old(pop)@[i]@
                }),
            forall|i: int|
                0 <= i < pop.len() && !members@.take(t as int).contains(i as u32) ==> #[trigger] pop@[i] == old(pop)@[i],
        decreases members.len() - t,
    {
        let m = members[t];
        let f = pop[m as usize].fitness();
        let ghost mi = m as int;
        assert(fits[mi] == old(pop)@[mi]@.fitness);
        assert(!members@.take(t as int).contains(m)) by {
            if members@.take(t as int).contains(m) {
                let y = choose|y: int| 0 <= y < t && members@.take(t as int)[y] == m;
                assert(members@[y] == members@[t as int]);
            }
        }
        assert(pop@[mi] == old(pop)@[mi]);
        if t > 0 && best_fitness < f {
            best = m;
            best_fitness = f;
        }
        let adj = share(f, n);
        proof {
            if f >= 0 {
                vstd::arithmetic::div_mod::lemma_div_is_ordered(f as int, 0x7FFF_FFFF_FFFF_FFFF, n as int);
                vstd::arithmetic::div_mod::lemma_div_is_ordered(0, f as int, n as int);
            } else {
                vstd::arithmetic::div_mod::lemma_div_is_ordered(-(f as int), 0x8000_0000_0000_0000, n as int);
                vstd::arithmetic::div_mod::lemma_div_is_ordered(0, -(f as int), n as int);
            }
            assert(0x7FFF_FFFF_FFFF_FFFFint / (n as int) <= 0x7FFF_FFFF_FFFF_FFFF) by (nonlinear_arith)
                requires
                    n >= 1,
            ;
            assert(0x8000_0000_0000_0000int / (n as int) <= 0x8000_0000_0000_0000) by (nonlinear_arith)
                requires
                    n >= 1,
            ;
        }
        total = total + adj as i128;
        let ghost before = pop@;
        pop[m as usize].set_adj_fitness(adj);
        proof {
            let tk = members@.take(t + 1);
            assert(tk.drop_last() =~= members@.take(t as int));
            assert(tk.last() == m);
            if t > 0 {
                assert(members@.take(t as int).len() >= 1);
            } else {
                assert(members@.take(1) =~= seq![m]);
            }
            assert forall|i: int| 0 <= i < pop.len() implies (#[trigger] pop@[i])@.fitness == old(pop)@[i]@.fitness by {
                if i != mi {
                    assert(pop@[i] == before[i]);
                }
            }
            assert forall|i: int| 0 <= i < pop.len() && tk.contains(i as u32) implies (#[trigger] pop@[i])@
                == (GenomeView {
                    adj_fitness: shared_fitness(old(pop)@[i]@.fitness as int, n as int) as i64,
                    ..old(pop)@[i]@
                }) by {
                if i != mi {
                    assert(pop@[i] == before[i]);
                    let y = choose|y: int| 0 <= y < tk.len() && tk[y] == i as u32;
                    assert(tk[t as int] == m);
                    assert(y < t);
                    assert(members@.take(t as int)[y] == i as u32);
                }
            }
            assert forall|i: int| 0 <= i < pop.len() && !tk.contains(i as u32) implies #[trigger] pop@[i]
                == old(pop)@[i] by {
                assert(tk[t as int] == m);
                if i != mi {
                    assert(pop@[i] == before[i]);
                    if members@.take(t as int).contains(i as u32) {
                        let y = choose|y: int| 0 <= y < t && members@.take(t as int)[y] == i as u32;
                        assert(tk[y] == i as u32);
                    }
                }
            }
            assert forall|i: int| 0 <= i < pop.len() implies (#[trigger] pop@[i]).wf() by {
                if i != mi {
                    assert(pop@[i] == before[i]);
                }
            }
        }
        t = t + 1;
    }
    assert(members@.take(members.len() as int) =~= members@);
    (best, total)
}

impl NEAT {
    /// Fitness sharing: in every species with members, each member's shared
    /// fitness becomes its raw fitness divided by the member count (rounded
    /// toward zero), the species' total becomes the sum of those, and its
    /// representative becomes a copy of its first member of highest fitness.
    pub fn prepare_species_next_gen(&mut self)
        requires
            old(self).wf(),
        ensures
            final(self).wf(),
            final(self).spec_settings() == old(self).spec_settings(),
            final(self).spec_generation() == old(self).spec_generation(),
            final(self).spec_species().len() == old(self).spec_species().len(),
            final(self).spec_pop().len() == old(self).spec_pop().len(),
            forall|k: int|
                0 <= k < old(self).spec_species().len() && old(self).spec_species()[k].population@.len() == 0
                    ==> #[trigger] final(self).spec_species()[k] == old(self).spec_species()[k],
            forall|k: int|
                #![trigger final(self).spec_species()[k]]
                0 <= k < old(self).spec_species().len() && old(self).spec_species()[k].population@.len() > 0 ==> {
                    let members = old(self).spec_species()[k].population@;
                    let fits = fitness_of(old(self).spec_pop());
                    &&& final(self).spec_species()[k].population == old(self).spec_species()[k].population
                    &&& final(self).spec_species()[k].id == old(self).spec_species()[k].id
                    &&& final(self).spec_species()[k].rep_genome@ == copy_view(
                        old(self).spec_pop()[best_member(fits, members) as int],
                    )
                    &&& final(self).spec_species()[k].rep_genome.phenotype() is None
                    &&& final(self).spec_species()[k].total_shared_fitness == shared_total(
                        fits,
                        members,
                        members.len() as int,
                    )
                },
            forall|i: int, k: int|
                0 <= i < old(self).spec_pop().len() && 0 <= k < old(self).spec_species().len()
                    && #[trigger] old(self).spec_species()[k].population@.contains(i as u32) ==> #[trigger] final(self).spec_pop()[i]
                    == (GenomeView {
                    adj_fitness: shared_fitness(
                        old(self).spec_pop()[i].fitness as int,
                        old(self).spec_species()[k].population@.len() as int,
                    ) as i64,
                    ..old(self).spec_pop()[i]
                }),
            forall|i: int|
                0 <= i < old(self).spec_pop().len() && (forall|k: int|
                    0 <= k < old(self).spec_species().len() ==> !(#[trigger] old(self).spec_species()[k].population@.contains(
                        i as u32,
                    ))) ==> #[trigger] final(self).spec_pop()[i] == old(self).spec_pop()[i],
    {
        let ghost pv0 = self.spec_pop();
        let ghost fits = fitness_of(pv0);
        let mut k: usize = 0;
        while k < self.species.len()
            invariant
                self.wf(),
                0 <= k <= self.species.len(),
                self.settings == old(self).settings,
                self.generation == old(self).generation,
                self.species.len() == old(self).species.len(),
                self.pop.len() == old(self).pop.len(),
                pv0 == old(self).spec_pop(),
                fits == fitness_of(pv0),
                fitness_of(self.spec_pop()) == fits,
                forall|x: int| 0 <= x < self.species.len() ==> (#[trigger] self.species@[x]).population == old(self).species@[x].population,
                forall|x: int| k <= x < self.species.len() ==> self.species@[x] == old(self).species@[x],
                forall|x: int|
                    0 <= x < k && old(self).species@[x].population@.len() == 0 ==> #[trigger] self.species@[x] == old(self).species@[x],
                forall|x: int|
                    #![trigger self.species@[x]]
                    0 <= x < k && old(self).species@[x].population@.len() > 0 ==> {
                        let members = old(self).species@[x].population@;
                        &&& self.species@[x].id == old(self).species@[x].id
                        &&& self.species@[x].rep_genome@ == copy_view(pv0[best_member(fits, members) as int])
                        &&& self.species@[x].rep_genome.phenotype() is None
                        &&& self.species@[x].total_shared_fitness == shared_total(fits, members, members.len() as int)
                    },
                forall|i: int, x: int|
                    0 <= i < self.pop.len() && 0 <= x < k && #[trigger] old(self).species@[x].population@.contains(i as u32)
                        ==> #[trigger] self.spec_pop()[i] == (GenomeView {
                        adj_fitness: shared_fitness(pv0[i].fitness as int, old(self).species@[x].population@.len() as int) as i64,
                        ..pv0[i]
                    }),
                forall|i: int|
                    0 <= i < self.pop.len() && (forall|x: int|
                        0 <= x < k ==> !(#[trigger] old(self).species@[x].population@.contains(i as u32)))
                        ==> #[trigger] self.spec_pop()[i] == pv0[i],
            decreases self.species.len() - k,
        {
            if self.species[k].population.len() > 0 {
                proof {
                    lemma_distinct_below(self.species@[k as int].population@, self.pop.len() as nat);
                }
                let ghost pv = self.spec_pop();
                let ghost before_pop = self.pop@;
                let (best, total) = settle_members(&mut self.pop, &self.species[k].population);
                proof {
                    assert(before_pop.map_values(|g: Genome| g@) =~= pv);
                    assert(fitness_of(pv) == fits);
                }
                let ghost members = self.species@[k as int].population@;
                let ghost mid = self.pop@;
                let ghost sp_before = self.species@;
                proof {
                    lemma_best_is_member(fits, members);
                }
                let rep = self.pop[best as usize].clone();
                self.species[k].rep_genome = rep;
                self.species[k].total_shared_fitness = total;
                proof {
                    let sp = self.species@;
                    assert(members == old(self).species@[k as int].population@);
                    assert(pv[best as int] == pv0[best as int]) by {
                        assert(members.contains(best));
                        assert forall|x: int| 0 <= x < k implies !(#[trigger] old(self).species@[x].population@.contains(best)) by {
                            if old(self).species@[x].population@.contains(best) {
                                lemma_unique_home(sp_before, self.pop.len() as nat, x, k as int, best);
                            }
                        }
                    }
                    assert(self.spec_pop()[best as int] == mid[best as int]@);
                    assert forall|x: int| 0 <= x < self.species.len() implies (#[trigger] self.species@[x]).population
                        == old(self).species@[x].population by {
                        if x != k {
                            assert(sp[x] == sp_before[x]);
                        }
                    }
                    assert(members_ok(self.species@, self.pop.len() as nat)) by {
                        assert forall|x: int| 0 <= x < self.species.len() implies (#[trigger] self.species@[x]).population@
                            == sp_before[x].population@ by {}
                    }
                    assert forall|x: int| 0 <= x < self.species.len() implies (#[trigger] self.species@[x]).rep_genome.wf() by {
                        if x != k {
                            assert(sp[x] == sp_before[x]);
                        }
                    }
                    assert forall|i: int| 0 <= i < self.pop.len() implies (#[trigger] self.pop@[i]).wf() by {}
                    assert(fitness_of(self.spec_pop()) =~= fits) by {
                        assert forall|i: int| 0 <= i < self.pop.len() implies self.spec_pop()[i].fitness == fits[i] by {
                            if members.contains(i as u32) {
                                assert(self.pop@[i]@ == (GenomeView {
                                    adj_fitness: shared_fitness(mid[i]@.fitness as int, members.len() as int) as i64,
                                    ..before_pop[i]@
                                }));
                            } else {
                                assert(self.pop@[i] == before_pop[i]);
                            }
                        }
                    }
                    assert forall|x: int| k + 1 <= x < self.species.len() implies self.species@[x] == old(self).species@[x] by {
                        assert(sp[x] == sp_before[x]);
                    }
                    assert forall|x: int|
                        0 <= x < k + 1 && old(self).species@[x].population@.len() == 0 implies #[trigger] self.species@[x]
                        == old(self).species@[x] by {
                        if x != k {
                            assert(sp[x] == sp_before[x]);
                        }
                    }
                    assert forall|x: int|
                        #![trigger self.species@[x]]
                        0 <= x < k + 1 && old(self).species@[x].population@.len() > 0 implies {
                            let mb = old(self).species@[x].population@;
                            &&& self.species@[x].id == old(self).species@[x].id
                            &&& self.species@[x].rep_genome@ == copy_view(pv0[best_member(fits, mb) as int])
                            &&& self.species@[x].rep_genome.phenotype() is None
                            &&& self.species@[x].total_shared_fitness == shared_total(fits, mb, mb.len() as int)
                        } by {
                        if x != k {
                            assert(sp[x] == sp_before[x]);
                        }
                    }
                    assert forall|i: int, x: int|
                        0 <= i < self.pop.len() && 0 <= x < k + 1 && #[trigger] old(self).species@[x].population@.contains(i as u32)
                        implies #[trigger] self.spec_pop()[i] == (GenomeView {
                            adj_fitness: shared_fitness(pv0[i].fitness as int, old(self).species@[x].population@.len() as int) as i64,
                            ..pv0[i]
                        }) by {
                        if x == k {
                            assert forall|x2: int| 0 <= x2 < k implies !(#[trigger] old(self).species@[x2].population@.contains(i as u32)) by {
                                if old(self).species@[x2].population@.contains(i as u32) {
                                    lemma_unique_home(sp_before, self.pop.len() as nat, x2, k as int, i as u32);
                                }
                            }
                            assert(pv[i] == pv0[i]);
                        } else {
                            assert(!members.contains(i as u32)) by {
                                assert(sp_before[x].population@.contains(i as u32));
                            }
                            assert(self.pop@[i] == before_pop[i]);
                            assert(pv[i] == before_pop[i]@);
                        }
                    }
                    assert forall|i: int|
                        0 <= i < self.pop.len() && (forall|x: int|
                            0 <= x < k + 1 ==> !(#[trigger] old(self).species@[x].population@.contains(i as u32)))
                        implies #[trigger] self.spec_pop()[i] == pv0[i] by {
                        assert(!old(self).species@[k as int].population@.contains(i as u32));
                        assert(self.pop@[i] == before_pop[i]);
                        assert(forall|x: int| 0 <= x < k ==> !(#[trigger] old(self).species@[x].population@.contains(i as u32)));
                        assert(pv[i] == pv0[i]);
                    }
                }
            }
            k = k + 1;
        }
        proof {
            assert forall|i: int|
                0 <= i < old(self).spec_pop().len() && (forall|x: int|
                    0 <= x < old(self).spec_species().len() ==> !(#[trigger] old(self).spec_species()[x].population@.contains(
                        i as u32,
                    ))) implies #[trigger] self.spec_pop()[i] == old(self).spec_pop()[i] by {
                assert(k == old(self).species.len());
                assert forall|x: int| 0 <= x < k implies !(#[trigger] old(self).species@[x].population@.contains(i as u32)) by {
                    assert(old(self).spec_species()[x] == old(self).species@[x]);
                    assert(!old(self).spec_species()[x].population@.contains(i as u32));
                }
            }
        }
    }
}


impl NEAT {
    /// Records one generation's raw fitness values, one per genome in
    /// population order, and advances the generation counter.
    pub fn record_fitness(&mut self, fitness: &Vec<i64>)
        requires
            old(self).wf(),
            fitness.len() == old(self).spec_pop().len(),
            old(self).spec_generation() < i32::MAX,
        ensures
            final(self).wf(),
            final(self).spec_settings() == old(self).spec_settings(),
            final(self).spec_species() == old(self).spec_species(),
            final(self).spec_generation() == old(self).spec_generation() + 1,
            final(self).spec_pop().len() == old(self).spec_pop().len(),
            forall|i: int|
                0 <= i < fitness.len() ==> #[trigger] final(self).spec_pop()[i] == (GenomeView {
                    fitness: fitness@[i],
                    ..old(self).spec_pop()[i]
                }),
    {
        let mut i: usize = 0;
        while i < self.pop.len()
            invariant
                self.wf(),
                0 <= i <= self.pop.len(),
                fitness.len() == self.pop.len(),
                self.pop.len() == old(self).pop.len(),
                self.species == old(self).species,
                self.settings == old(self).settings,
                self.generation == old(self).generation,
                forall|x: int| 0 <= x < i ==> #[trigger] self.pop@[x]@ == (GenomeView {
                    fitness: fitness@[x],
                    ..old(self).pop@[x]@
                }),
                forall|x: int| i <= x < self.pop.len() ==> self.pop@[x] == old(self).pop@[x],
            decreases self.pop.len() - i,
        {
            let ghost before = self.pop@;
            self.pop[i].set_fitness(fitness[i]);
            proof {
                assert forall|x: int| 0 <= x < self.pop.len() && x != i implies self.pop@[x] == before[x] by {}
            }
            i = i + 1;
        }
        self.generation = self.generation + 1;
    }

    /// Number of genomes.
    pub fn pop_len(&self) -> (r: usize)
        ensures
            r == self.spec_pop().len(),
    {
        self.pop.len()
    }

    /// The genome at index `i` of the population.
    pub fn genome(&self, i: usize) -> (r: &Genome)
        requires
            self.wf(),
            i < self.spec_pop().len(),
        ensures
            r.wf(),
            r@ == self.spec_pop()[i as int],
    {
        &self.pop[i]
    }

    /// The species, in order of creation.
    pub fn species(&self) -> (r: &Vec<Species>)
        ensures
            r@ == self.spec_species(),
    {
        &self.species
    }

    pub fn generation(&self) -> (r: i32)
        ensures
            r == self.spec_generation(),
    {
        self.generation
    }

    pub fn settings(&self) -> (r: Settings)
        ensures
            r == self.spec_settings(),
    {
        self.settings
    }

    /// Identifier and member count of each species, in order of creation.
    pub fn species_info(&self) -> (r: Vec<(u32, usize)>)
        ensures
            r.len() == self.spec_species().len(),
            forall|k: int|
                0 <= k < r.len() ==> #[trigger] r@[k] == (self.spec_species()[k].id, self.spec_species()[k].population@.len() as usize),
    {
        let mut r: Vec<(u32, usize)> = Vec::new();
        let mut k: usize = 0;
        while k < self.species.len()
            invariant
                0 <= k <= self.species.len(),
                r.len() == k,
                forall|x: int| 0 <= x < k ==> #[trigger] r@[x] == (self.species@[x].id, self.species@[x].population@.len() as usize),
            decreases self.species.len() - k,
        {
            r.push((self.species[k].id, self.species[k].population.len()));
            k = k + 1;
        }
        r
    }
}

} // verus!

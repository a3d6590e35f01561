use vstd::prelude::*;

verus! {

/// Configuration of the engine, passed explicitly to the operations that read
/// it. Real-valued entries are in millionths.
#[derive(Clone, Copy, PartialEq, Eq, Structural, Debug)]
pub struct Settings {
    /// Steepness of the sigmoid activation, in millionths.
    pub sigmoid_steepness: u32,
    /// Genomes with at most this many nodes are not normalised by size.
    pub small_genome_size: u32,
    /// Weight of excess genes in the compatibility distance, in millionths.
    pub similarity_c1: u32,
    /// Weight of disjoint genes in the compatibility distance, in millionths.
    pub similarity_c2: u32,
    /// Weight of the summed weight difference, in millionths.
    pub similarity_c3: u32,
    /// Compatibility threshold of a species, in millionths.
    pub max_difference: u64,
    /// Chance that a weight is drawn anew rather than perturbed, in millionths.
    pub reassign_probability: u32,
    /// Bound of a freshly drawn weight, in millionths.
    pub reassign_scale: u32,
    /// Bound of a weight perturbation, in millionths.
    pub perturb_scale: u32,
}

impl Default for Settings {
    fn default() -> (r: Self)
        ensures
            r == (Settings {
                sigmoid_steepness: 4_900_000,
                small_genome_size: 19,
                similarity_c1: 1_000_000,
                similarity_c2: 1_000_000,
                similarity_c3: 400_000,
                max_difference: 3_000_000,
                reassign_probability: 100_000,
                reassign_scale: 1_000_000,
                perturb_scale: 100_000,
            }),
    {
        Settings {
            sigmoid_steepness: 4_900_000,
            small_genome_size: 19,
            similarity_c1: 1_000_000,
            similarity_c2: 1_000_000,
            similarity_c3: 400_000,
            max_difference: 3_000_000,
            reassign_probability: 100_000,
            reassign_scale: 1_000_000,
            perturb_scale: 100_000,
        }
    }
}

} // verus!

use vstd::prelude::*;
use crate::align::{disjoint_count, excess_count, get_difference_values, weight_diff};
use crate::error::NeatError;
use crate::gene::{Gene, SCALE, has_hm, sorted_by_hm};
use crate::network::{
    Network, NetView, acyclic, build_network, build_view, drawn_link, node_count, same_shape,
    valid_new_link,
};
use crate::settings::Settings;
use crate::random::random_u32;

verus! {

/// A genome: its genes in ascending order of historical marking, the number
/// of inputs and outputs, its fitness and, once compiled, its network.
pub struct Genome {
    id: u32,
    genes: Vec<Gene>,
    n_inputs: u32,
    n_outputs: u32,
    /// Raw fitness, in millionths.
    fitness: i64,
    /// Fitness shared within the genome's species, in millionths.
    adj_fitness: i64,
    network: Option<Network>,
}

pub ghost struct GenomeView {
    pub id: u32,
    pub genes: Seq<Gene>,
    pub n_inputs: u32,
    pub n_outputs: u32,
    pub fitness: i64,
    pub adj_fitness: i64,
}

impl View for Genome {
    type V = GenomeView;

    closed spec fn view(&self) -> GenomeView {
        GenomeView {
            id: self.id,
            genes: self.genes@,
            n_inputs: self.n_inputs,
            n_outputs: self.n_outputs,
            fitness: self.fitness,
            adj_fitness: self.adj_fitness,
        }
    }
}

/// The gene at row-major position `k` of the fully connected scaffold from
/// inputs 1..=n_in to outputs n_in+1..=n_in+n_out.
pub open spec fn scaffold_gene(k: int, n_in: u32, n_out: u32) -> Gene {
    Gene {
        hm: k as u32,
        enabled: true,
        from: (1 + k / (n_out as int)) as u32,
        to: (n_in + 1 + k % (n_out as int)) as u32,
        weight: 0,
    }
}

/// The valid genomes: genes sorted by marking, identifiers that fit.
pub open spec fn valid_view(g: GenomeView) -> bool {
    sorted_by_hm(g.genes) && g.n_inputs + g.n_outputs < u32::MAX
}

/// Number of nodes of a genome's phenotype.
pub open spec fn genome_nodes(g: GenomeView) -> nat {
    node_count(g.genes, g.n_inputs, g.n_outputs)
}

/// The size by which gene counts are normalised: the larger node count, or 1
/// for small genomes.
pub open spec fn normalizer(a: GenomeView, b: GenomeView, s: Settings) -> nat {
    let n = if genome_nodes(a) >= genome_nodes(b) {
        genome_nodes(a)
    } else {
        genome_nodes(b)
    };
    if n <= s.small_genome_size {
        1
    } else {
        n
    }
}

/// Compatibility distance in millionths, each term rounded down:
/// `(c1 * excess + c2 * disjoint) / N + c3 * weight_diff`.
pub open spec fn compatibility(excess: nat, disjoint: nat, w_diff: nat, n: nat, s: Settings) -> nat {
    ((s.similarity_c1 as nat) * excess + (s.similarity_c2 as nat) * disjoint) / n + ((
    s.similarity_c3 as nat) * w_diff) / (SCALE as nat)
}

/// Compatibility distance of two genomes, in millionths.
pub open spec fn distance(a: GenomeView, b: GenomeView, s: Settings) -> nat {
    compatibility(
        excess_count(a.genes, b.genes),
        disjoint_count(a.genes, b.genes),
        weight_diff(a.genes, b.genes),
        normalizer(a, b, s),
        s,
    )
}

impl Genome {
    /// Well-formed: the view is valid, and a compiled network, if any, is the
    /// layered compilation of the current genes.
    pub closed spec fn wf(&self) -> bool {
        &&& valid_view(self@)
        &&& match self.network {
            Some(net) => net.wf() && same_shape(net@, build_view(self.genes@, self.n_inputs, self.n_outputs))
                && net.spec_n_inputs() == self.n_inputs && net.spec_n_outputs() == self.n_outputs,
            None => true,
        }
    }

    /// The compiled network, if there is one.
    pub closed spec fn phenotype(&self) -> Option<NetView> {
        match self.network {
            Some(net) => Some(net@),
            None => None,
        }
    }

    /// Builds the fully connected scaffold: one enabled gene of weight 0 for
    /// each (input, output) pair, input-major, with markings 0, 1, 2, ...
    pub fn new(id: u32, n_inputs: u32, n_outputs: u32) -> (r: Self)
        requires
            n_inputs + n_outputs < u32::MAX,
            n_inputs * n_outputs <= 0x1_0000_0000,
        ensures
            r.wf(),
            r.phenotype() is None,
            r@.id == id,
            r@.n_inputs == n_inputs,
            r@.n_outputs == n_outputs,
            r@.fitness == 0,
            r@.adj_fitness == 0,
            r@.genes.len() == n_inputs * n_outputs,
            forall|k: int| 0 <= k < r@.genes.len() ==> r@.genes[k] == scaffold_gene(k, n_inputs, n_outputs),
    {
        let genes = Self::build_genome(n_inputs, n_outputs);
        Genome { id, genes, n_inputs, n_outputs, fitness: 0, adj_fitness: 0, network: None }
    }

    fn build_genome(n_inputs: u32, n_outputs: u32) -> (genes: Vec<Gene>)
        requires
            n_inputs + n_outputs < u32::MAX,
            n_inputs * n_outputs <= 0x1_0000_0000,
        ensures
            sorted_by_hm(genes@),
            genes@.len() == n_inputs * n_outputs,
            forall|k: int| 0 <= k < genes@.len() ==> genes@[k] == scaffold_gene(k, n_inputs, n_outputs),
    {
        let mut genes: Vec<Gene> = Vec::new();
        let mut i: u32 = 1;
        while i <= n_inputs
            invariant
                n_inputs + n_outputs < u32::MAX,
                n_inputs * n_outputs <= 0x1_0000_0000,
                1 <= i <= n_inputs + 1,
                genes@.len() == (i - 1) * n_outputs,
                forall|k: int| 0 <= k < genes@.len() ==> genes@[k] == scaffold_gene(k, n_inputs, n_outputs),
            decreases n_inputs + 1 - i,
        {
            let mut j: u32 = n_inputs + 1;
            while j <= n_inputs + n_outputs
                invariant
                    n_inputs + n_outputs < u32::MAX,
                    n_inputs * n_outputs <= 0x1_0000_0000,
                    1 <= i <= n_inputs,
                    n_inputs + 1 <= j <= n_inputs + n_outputs + 1,
                    genes@.len() == (i - 1) * n_outputs + (j - n_inputs - 1),
                    forall|k: int| 0 <= k < genes@.len() ==> genes@[k] == scaffold_gene(k, n_inputs, n_outputs),
                decreases n_inputs + n_outputs + 1 - j,
            {
                let ghost k = genes@.len() as int;
                proof {
                    assert((i - 1) * n_outputs + n_outputs <= n_inputs * n_outputs) by (nonlinear_arith)
                        requires
                            1 <= i <= n_inputs,
                    ;
                    vstd::arithmetic::div_mod::lemma_fundamental_div_mod_converse(
                        k,
                        n_outputs as int,
                        (i - 1) as int,
                        (j - n_inputs - 1) as int,
                    );
                }
                let hm = genes.len() as u32;
                genes.push(Gene { hm, enabled: true, from: i, to: j, weight: 0 });
                j = j + 1;
            }
            proof {
                assert((i - 1) * n_outputs + n_outputs == i * n_outputs) by (nonlinear_arith);
            }
            i = i + 1;
        }
        genes
    }

    /// The genes, in ascending order of marking.
    pub fn genes(&self) -> (r: &Vec<Gene>)
        ensures
            r@ == self@.genes,
    {
        &self.genes
    }

    pub fn id(&self) -> (r: u32)
        ensures
            r == self@.id,
    {
        self.id
    }

    /// Raw fitness, in millionths.
    pub fn fitness(&self) -> (r: i64)
        ensures
            r == self@.fitness,
    {
        self.fitness
    }

    /// Shared fitness, in millionths.
    pub fn adj_fitness(&self) -> (r: i64)
        ensures
            r == self@.adj_fitness,
    {
        self.adj_fitness
    }

    pub fn set_fitness(&mut self, fitness: i64)
        requires
            old(self).wf(),
        ensures
            final(self).wf(),
            final(self)@ == (GenomeView { fitness, ..old(self)@ }),
            final(self).phenotype() == old(self).phenotype(),
    {
        self.fitness = fitness;
    }

    pub fn set_adj_fitness(&mut self, adj_fitness: i64)
        requires
            old(self).wf(),
        ensures
            final(self).wf(),
            final(self)@ == (GenomeView { adj_fitness, ..old(self)@ }),
            final(self).phenotype() == old(self).phenotype(),
    {
        self.adj_fitness = adj_fitness;
    }

    pub fn n_inputs(&self) -> (r: u32)
        ensures
            r == self@.n_inputs,
    {
        self.n_inputs
    }

    pub fn n_outputs(&self) -> (r: u32)
        ensures
            r == self@.n_outputs,
    {
        self.n_outputs
    }

    /// The compiled network, if one has been built since the genes last changed.
    pub fn network(&self) -> (r: Option<&Network>)
        requires
            self.wf(),
        ensures
            match r {
                Some(net) => self.phenotype() == Some(net@) && net.wf() && same_shape(
                    net@,
                    build_view(self@.genes, self@.n_inputs, self@.n_outputs),
                ) && net.spec_n_inputs() == self@.n_inputs,
                None => self.phenotype() is None,
            },
    {
        match &self.network {
            Some(net) => Some(net),
            None => None,
        }
    }

    /// Inserts a gene at the place its marking gives it. Returns `false`, and
    /// changes nothing, when a gene with that marking is already present.
    pub fn insert_gene(&mut self, gene: Gene) -> (r: bool)
        requires
            old(self).wf(),
        ensures
            final(self).wf(),
            r == !has_hm(old(self)@.genes, gene.hm),
            !r ==> *final(self) == *old(self),
            r ==> final(self).phenotype() is None && exists|k: int|
                0 <= k <= old(self)@.genes.len() && final(self)@.genes == old(self)@.genes.insert(k, gene),
            final(self)@.id == old(self)@.id,
            final(self)@.n_inputs == old(self)@.n_inputs,
            final(self)@.n_outputs == old(self)@.n_outputs,
            final(self)@.fitness == old(self)@.fitness,
            final(self)@.adj_fitness == old(self)@.adj_fitness,
    {
        let mut k: usize = 0;
        while k < self.genes.len() && self.genes[k].hm < gene.hm
            invariant
                self.wf(),
                0 <= k <= self.genes.len(),
                forall|x: int| 0 <= x < k ==> self.genes@[x].hm < gene.hm,
            decreases self.genes.len() - k,
        {
            k = k + 1;
        }
        if k < self.genes.len() && self.genes[k].hm == gene.hm {
            return false;
        }
        proof {
            assert forall|x: int| 0 <= x < self.genes@.len() implies self.genes@[x].hm != gene.hm by {
                if x > k {
                    assert(self.genes@[k as int].hm < self.genes@[x].hm);
                }
            }
        }
        let ghost before = self.genes@;
        self.network = None;
        self.genes.insert(k, gene);
        proof {
            assert(sorted_by_hm(self.genes@)) by {
                assert forall|a: int, c: int| 0 <= a < c < self.genes@.len() implies self.genes@[a].hm
                    < self.genes@[c].hm by {
                    if c < k {
                    } else if c == k {
                    } else if a < k {
                        assert(before[k as int].hm >= gene.hm);
                        if c - 1 > k {
                            assert(before[k as int].hm < before[c - 1].hm);
                        }
                    } else if a == k {
                        assert(before[k as int].hm >= gene.hm);
                        if c - 1 > k {
                            assert(before[k as int].hm < before[c - 1].hm);
                        }
                    } else {
                        assert(before[a - 1].hm < before[c - 1].hm);
                    }
                }
            }
        }
        true
    }

    /// Sets the weight of the gene at `index`.
    pub fn set_weight(&mut self, index: usize, weight: i32)
        requires
            old(self).wf(),
            index < old(self)@.genes.len(),
        ensures
            final(self).wf(),
            final(self).phenotype() is None,
            final(self)@ == (GenomeView {
                genes: old(self)@.genes.update(index as int, Gene { weight, ..old(self)@.genes[index as int] }),
                ..old(self)@
            }),
    {
        let mut g = self.genes[index];
        g.weight = weight;
        self.network = None;
        self.genes.set(index, g);
    }

    /// Enables or disables the gene at `index`.
    pub fn set_enabled(&mut self, index: usize, enabled: bool)
        requires
            old(self).wf(),
            index < old(self)@.genes.len(),
        ensures
            final(self).wf(),
            final(self).phenotype() is None,
            final(self)@ == (GenomeView {
                genes: old(self)@.genes.update(index as int, Gene { enabled, ..old(self)@.genes[index as int] }),
                ..old(self)@
            }),
    {
        let mut g = self.genes[index];
        g.enabled = enabled;
        self.network = None;
        self.genes.set(index, g);
    }

    /// A copy for a new individual: same identifier and genes, no fitness and
    /// no compiled network.
    pub fn clone(&self) -> (r: Genome)
        requires
            self.wf(),
        ensures
            r.wf(),
            r.phenotype() is None,
            r@ == (GenomeView { fitness: 0, adj_fitness: 0, ..self@ }),
    {
        let mut genes: Vec<Gene> = Vec::new();
        let mut k: usize = 0;
        while k < self.genes.len()
            invariant
                0 <= k <= self.genes.len(),
                genes@ == self.genes@.take(k as int),
            decreases self.genes.len() - k,
        {
            genes.push(self.genes[k]);
            k = k + 1;
            assert(genes@ =~= self.genes@.take(k as int));
        }
        assert(genes@ =~= self.genes@);
        Genome {
            id: self.id,
            genes,
            n_inputs: self.n_inputs,
            n_outputs: self.n_outputs,
            fitness: 0,
            adj_fitness: 0,
            network: None,
        }
    }

    /// Compiles the network if there is none yet. Fails exactly when the
    /// enabled genes form a cycle; the genome is otherwise unchanged.
    pub fn build_network(&mut self) -> (r: Result<(), NeatError>)
        requires
            old(self).wf(),
        ensures
            final(self).wf(),
            final(self)@ == old(self)@,
            r is Ok <==> acyclic(build_view(old(self)@.genes, old(self)@.n_inputs, old(self)@.n_outputs)),
            r is Ok ==> final(self).phenotype() is Some,
            old(self).phenotype() is Some ==> final(self).phenotype() == old(self).phenotype(),
            r is Err ==> r == Err::<(), NeatError>(NeatError::InvalidTopology) && final(self).phenotype()
                is None,
    {
        if self.network.is_some() {
            proof {
                let net = self.network.unwrap();
                crate::network::lemma_wf_acyclic(&net);
                crate::network::lemma_acyclic_same_shape(
                    build_view(self.genes@, self.n_inputs, self.n_outputs),
                    net@,
                );
            }
            return Ok(());
        }
        match Network::from_genes(&self.genes, self.n_inputs, self.n_outputs) {
            Ok(net) => {
                self.network = Some(net);
                Ok(())
            },
            Err(e) => Err(e),
        }
    }

    /// Number of nodes of the genome's phenotype.
    pub fn node_count(&self) -> (r: usize)
        requires
            self.wf(),
        ensures
            r == genome_nodes(self@),
    {
        let (ids, _nodes) = build_network(&self.genes, self.n_inputs, self.n_outputs);
        ids.len()
    }

    /// Compatibility distance of two genomes, in millionths (see `distance`).
    pub fn compute_difference(a: &Genome, b: &Genome, settings: &Settings) -> (r: u128)
        requires
            a.wf(),
            b.wf(),
        ensures
            r == distance(a@, b@, *settings),
    {
        let na = a.node_count();
        let nb = b.node_count();
        let n_max = if na >= nb {
            na
        } else {
            nb
        };
        let n: u128 = if n_max as u128 <= settings.small_genome_size as u128 {
            1
        } else {
            n_max as u128
        };
        let (w_diff, disjoint, excess) = get_difference_values(&a.genes, &b.genes);
        let c1 = settings.similarity_c1 as u128;
        let c2 = settings.similarity_c2 as u128;
        let c3 = settings.similarity_c3 as u128;
        proof {
            assert(c1 * (excess as u128) <= 0xFFFF_FFFFu128 * 0xFFFF_FFFF_FFFF_FFFFu128) by (nonlinear_arith)
                requires
                    c1 <= 0xFFFF_FFFF,
                    excess <= 0xFFFF_FFFF_FFFF_FFFFu64,
            ;
            assert(c2 * (disjoint as u128) <= 0xFFFF_FFFFu128 * 0xFFFF_FFFF_FFFF_FFFFu128) by (nonlinear_arith)
                requires
                    c2 <= 0xFFFF_FFFF,
                    disjoint <= 0xFFFF_FFFF_FFFF_FFFFu64,
            ;
            assert(c3 * (w_diff as u128) <= 0xFFFF_FFFFu128 * 0xFFFF_FFFF_FFFF_FFFFu128) by (nonlinear_arith)
                requires
                    c3 <= 0xFFFF_FFFF,
                    w_diff <= 0xFFFF_FFFF_FFFF_FFFFu64,
            ;
        }
        let counted = c1 * (excess as u128) + c2 * (disjoint as u128);
        let t1 = counted / n;
        let t2 = (c3 * (w_diff as u128)) / (SCALE as u128);
        proof {
            assert(t1 <= counted) by (nonlinear_arith)
                requires
                    t1 == counted / n,
                    n >= 1,
            ;
        }
        t1 + t2
    }
}

} // verus!

verus! {

/// A well-formed genome has a valid view, so the laws below apply to it.
pub proof fn lemma_wf_valid(g: &Genome)
    requires
        g.wf(),
    ensures
        valid_view(g@),
{
}

/// A genome is at distance 0 from itself.
pub proof fn lemma_distance_self(g: GenomeView, s: Settings)
    requires
        valid_view(g),
    ensures
        distance(g, g, s) == 0,
{
    crate::align::lemma_align_self(g.genes);
    assert(normalizer(g, g, s) >= 1);
}

/// Distance is symmetric.
pub proof fn lemma_distance_symmetric(a: GenomeView, b: GenomeView, s: Settings)
    requires
        valid_view(a),
        valid_view(b),
    ensures
        distance(a, b, s) == distance(b, a, s),
{
    crate::align::lemma_align_symmetric(a.genes, b.genes);
    assert(normalizer(a, b, s) == normalizer(b, a, s));
}

/// Two genomes whose genes carry the same markings, position by position,
/// and the same weights except at index `k`, are at distance
/// `c3 * |weight difference at k|` (in millionths, rounded down), whatever
/// else differs.
pub proof fn lemma_distance_weights_differ_at(a: GenomeView, b: GenomeView, k: int, s: Settings)
    requires
        valid_view(a),
        valid_view(b),
        a.genes.len() == b.genes.len(),
        forall|x: int| 0 <= x < a.genes.len() ==> a.genes[x].hm == b.genes[x].hm,
        0 <= k < a.genes.len(),
        forall|x: int| 0 <= x < a.genes.len() && x != k ==> a.genes[x].weight == b.genes[x].weight,
    ensures
        distance(a, b, s) == ((s.similarity_c3 as nat) * crate::align::abs_diff(
            a.genes[k].weight as int,
            b.genes[k].weight as int,
        )) / (SCALE as nat),
{
    crate::align::lemma_align_weights_differ_at(a.genes, b.genes, k);
    let n = normalizer(a, b, s);
    assert(n >= 1);
    assert(((s.similarity_c1 as nat) * 0 + (s.similarity_c2 as nat) * 0) / n == 0) by (nonlinear_arith)
        requires
            n >= 1,
    ;
}

/// Changing the weight of one gene, and nothing else, puts the genome at
/// distance `c3 * |change|` from what it was (in millionths, rounded down),
/// where it was at distance 0.
pub proof fn lemma_distance_one_weight(a: GenomeView, k: int, w: i32, s: Settings)
    requires
        valid_view(a),
        0 <= k < a.genes.len(),
    ensures
        distance(a, a, s) == 0,
        distance(a, GenomeView { genes: a.genes.update(k, Gene { weight: w, ..a.genes[k] }), ..a }, s)
            == ((s.similarity_c3 as nat) * crate::align::abs_diff(a.genes[k].weight as int, w as int))
            / (SCALE as nat),
{
    lemma_distance_self(a, s);
    crate::align::lemma_align_one_weight(a.genes, k, w);
    let b = GenomeView { genes: a.genes.update(k, Gene { weight: w, ..a.genes[k] }), ..a };
    let n = normalizer(a, b, s);
    assert(n >= 1);
    assert(((s.similarity_c1 as nat) * 0 + (s.similarity_c2 as nat) * 0) / n == 0) by (nonlinear_arith)
        requires
            n >= 1,
    ;
}

} // verus!

verus! {

/// `x` forced into the range of `i32`.
pub open spec fn clamp_weight(x: int) -> i32 {
    if x < i32::MIN {
        i32::MIN
    } else if x > i32::MAX {
        i32::MAX
    } else {
        x as i32
    }
}

/// A value of `U(-1, 1) * scale` (in millionths) read from a draw `r`.
pub open spec fn scaled_draw(r: u32, scale: u32) -> int {
    ((r as int % (2 * SCALE + 1)) * (scale as int)) / (SCALE as int) - scale as int
}

/// Weight after mutation, given two draws: with probability
/// `reassign_probability` (read from `r_choice`) a fresh value within
/// `reassign_scale`; otherwise the old weight moved by at most `perturb_scale`.
pub open spec fn mutated_weight(w: i32, r_choice: u32, r_value: u32, s: Settings) -> i32 {
    if (r_choice as int % (SCALE as int)) < s.reassign_probability as int {
        clamp_weight(scaled_draw(r_value, s.reassign_scale))
    } else {
        clamp_weight(w as int + scaled_draw(r_value, s.perturb_scale))
    }
}

/// `g` with its weight mutated for the draws `r_choice` and `r_value`.
pub open spec fn mutated_gene(g: Gene, r_choice: u32, r_value: u32, s: Settings) -> Gene {
    Gene { weight: mutated_weight(g.weight, r_choice, r_value, s), ..g }
}

/// `new` is `old` with its weight mutated for some draws.
pub open spec fn is_mutation_of(new: Gene, old: Gene, s: Settings) -> bool {
    exists|r_choice: u32, r_value: u32| new == #[trigger] mutated_gene(old, r_choice, r_value, s)
}

/// The arena index `t` steps after `start`, wrapping around at `len`.
pub open spec fn cyclic_index(start: int, t: int, len: int) -> int {
    if start + t < len {
        start + t
    } else {
        start + t - len
    }
}

fn scaled(r: u32, scale: u32) -> (v: i64)
    ensures
        v == scaled_draw(r, scale),
        -(scale as int) <= v <= scale as int,
{
    let u: u64 = (r as u64) % (2 * SCALE as u64 + 1);
    proof {
        assert(u * (scale as u64) <= 2_000_000 * 0xFFFF_FFFFu64) by (nonlinear_arith)
            requires
                u <= 2_000_000,
                scale <= 0xFFFF_FFFFu32,
        ;
        assert((u as int * scale as int) / 1_000_000int <= 2 * scale as int) by (nonlinear_arith)
            requires
                0 <= u <= 2_000_000,
                scale >= 0,
        ;
    }
    let m: u64 = (u * (scale as u64)) / (SCALE as u64);
    m as i64 - scale as i64
}

fn clamp(x: i64) -> (r: i32)
    ensures
        r == clamp_weight(x as int),
{
    if x < i32::MIN as i64 {
        i32::MIN
    } else if x > i32::MAX as i64 {
        i32::MAX
    } else {
        x as i32
    }
}

/// The weight that mutation gives `w` for the draws `r_choice` and `r_value`.
pub fn mutate_weight(w: i32, r_choice: u32, r_value: u32, settings: &Settings) -> (r: i32)
    ensures
        r == mutated_weight(w, r_choice, r_value, *settings),
{
    if r_choice % SCALE < settings.reassign_probability {
        clamp(scaled(r_value, settings.reassign_scale))
    } else {
        clamp(w as i64 + scaled(r_value, settings.perturb_scale))
    }
}

impl Genome {
    /// Mutates every gene's weight: each is drawn anew or perturbed (see
    /// `mutated_weight`). Always returns `true`.
    pub fn mutate_weights(&mut self, settings: &Settings) -> (r: bool)
        requires
            old(self).wf(),
        ensures
            r,
            final(self).wf(),
            final(self).phenotype() is None,
            final(self)@.genes.len() == old(self)@.genes.len(),
            forall|k: int|
                0 <= k < old(self)@.genes.len() ==> is_mutation_of(
                    #[trigger] final(self)@.genes[k],
                    old(self)@.genes[k],
                    *settings,
                ),
            final(self)@ == (GenomeView { genes: final(self)@.genes, ..old(self)@ }),
    {
        self.network = None;
        let mut k: usize = 0;
        while k < self.genes.len()
            invariant
                self.wf(),
                self.network is None,
                0 <= k <= self.genes.len(),
                self.genes@.len() == old(self)@.genes.len(),
                forall|x: int| k <= x < self.genes@.len() ==> self.genes@[x] == old(self)@.genes[x],
                forall|x: int|
                    0 <= x < k ==> is_mutation_of(#[trigger] self.genes@[x], old(self)@.genes[x], *settings),
                self@ == (GenomeView { genes: self@.genes, ..old(self)@ }),
            decreases self.genes.len() - k,
        {
            let draw_choice = random_u32();
            let draw_value = random_u32();
            let mut g = self.genes[k];
            g.weight = mutate_weight(g.weight, draw_choice, draw_value, settings);
            let ghost before = self.genes@;
            self.genes.set(k, g);
            proof {
                assert(self.genes@[k as int] == mutated_gene(old(self)@.genes[k as int], draw_choice, draw_value, *settings));
                assert(is_mutation_of(self.genes@[k as int], old(self)@.genes[k as int], *settings));
                assert forall|x: int| 0 <= x < k implies is_mutation_of(#[trigger] self.genes@[x], old(self)@.genes[x], *settings) by {
                    assert(self.genes@[x] == before[x]);
                }
            }
            k = k + 1;
        }
        true
    }

    /// The endpoints of the first enabled gene at or after index `start`,
    /// wrapping around; `None` when no gene is enabled.
    pub fn linked_from(&self, start: usize) -> (r: Option<(u32, u32)>)
        requires
            start < self@.genes.len(),
        ensures
            match r {
                Some((f, t)) => exists|s: int|
                    0 <= s < self@.genes.len()
                    && #[trigger] self@.genes[cyclic_index(start as int, s, self@.genes.len() as int)].enabled
                    && f == self@.genes[cyclic_index(start as int, s, self@.genes.len() as int)].from
                    && t == self@.genes[cyclic_index(start as int, s, self@.genes.len() as int)].to
                    && forall|s2: int| 0 <= s2 < s ==> !self@.genes[cyclic_index(start as int, s2, self@.genes.len() as int)].enabled,
                None => forall|k: int| 0 <= k < self@.genes.len() ==> !self@.genes[k].enabled,
            },
    {
        let len = self.genes.len();
        let mut s: usize = 0;
        while s < len
            invariant
                len == self.genes@.len(),
                start < len,
                0 <= s <= len,
                forall|s2: int| 0 <= s2 < s ==> !self@.genes[cyclic_index(start as int, s2, len as int)].enabled,
            decreases len - s,
        {
            let i = if s < len - start {
                start + s
            } else {
                s - (len - start)
            };
            let g = self.genes[i];
            if g.enabled {
                assert(i == cyclic_index(start as int, s as int, len as int));
                assert(0 <= s < self@.genes.len()
                    && self@.genes[cyclic_index(start as int, s as int, len as int)].enabled);
                return Some((g.from, g.to));
            }
            s = s + 1;
        }
        proof {
            assert forall|k: int| 0 <= k < len implies !self@.genes[k].enabled by {
                let s2 = if k >= start {
                    k - start
                } else {
                    k + len - start
                };
                assert(cyclic_index(start as int, s2, len as int) == k);
            }
        }
        None
    }

    /// The endpoints of an enabled gene, searching from a random index;
    /// `None` when no gene is enabled.
    pub fn get_linked_nodes(&self) -> (r: Option<(u32, u32)>)
        ensures
            r is None <==> forall|k: int| 0 <= k < self@.genes.len() ==> !self@.genes[k].enabled,
            r matches Some((f, t)) ==> exists|k: int|
                0 <= k < self@.genes.len() && #[trigger] self@.genes[k].enabled && self@.genes[k].from == f
                    && self@.genes[k].to == t,
    {
        if self.genes.len() == 0 {
            return None;
        }
        let start = (random_u32() as usize) % self.genes.len();
        let r = self.linked_from(start);
        proof {
            if let Some((f, t)) = r {
                let s = choose|s: int|
                    0 <= s < self@.genes.len()
                    && #[trigger] self@.genes[cyclic_index(start as int, s, self@.genes.len() as int)].enabled
                    && f == self@.genes[cyclic_index(start as int, s, self@.genes.len() as int)].from
                    && t == self@.genes[cyclic_index(start as int, s, self@.genes.len() as int)].to
                    && forall|s2: int| 0 <= s2 < s ==> !self@.genes[cyclic_index(start as int, s2, self@.genes.len() as int)].enabled;
                let k = cyclic_index(start as int, s, self@.genes.len() as int);
                assert(0 <= k < self@.genes.len() && self@.genes[k].enabled);
            }
        }
        r
    }

    /// Identifier of the node at arena position `node_order` of the compiled
    /// network: the reserved nodes are their own positions.
    pub fn get_nth_node(&self, node_order: u32) -> (r: u32)
        requires
            self.wf(),
            self.phenotype() matches Some(v) && node_order < v.ids.len(),
        ensures
            r == self.phenotype()->Some_0.ids[node_order as int],
    {
        match &self.network {
            Some(net) => net.node_id(node_order as usize),
            None => 0,
        }
    }
}

} // verus!

verus! {

/// Attempts at finding a new link when the caller names no number.
pub const MAX_TRIES_MUTATIONS: i32 = 10;

/// Every pair of draws yields a link in `v`.
pub open spec fn always_linkable(v: NetView, n_in: u32, n_out: u32) -> bool {
    forall|r_from: u32, r_to: u32| #[trigger] drawn_link(v, n_in, n_out, r_from, r_to) is Some
}

/// No pair of draws yields a link in `v`.
pub open spec fn never_linkable(v: NetView, n_in: u32, n_out: u32) -> bool {
    forall|r_from: u32, r_to: u32| #[trigger] drawn_link(v, n_in, n_out, r_from, r_to) is None
}

impl Genome {
    /// Proposes a new link `(from, to)` for a structural mutation, compiling
    /// the network first if needed. Each attempt draws a source among the
    /// nodes that are not outputs and a target among the nodes it may link to
    /// (see `Network::pick_link`); after `tries` (default 10) attempts without
    /// a target, or when the genes form a cycle, there is no candidate.
    pub fn get_linkable_nodes(&mut self, tries: Option<i32>) -> (r: Option<(u32, u32)>)
        requires
            old(self).wf(),
        ensures
            final(self).wf(),
            final(self)@ == old(self)@,
            final(self).phenotype() is Some <==> acyclic(
                build_view(old(self)@.genes, old(self)@.n_inputs, old(self)@.n_outputs),
            ),
            old(self).phenotype() is Some ==> final(self).phenotype() == old(self).phenotype(),
            r matches Some((a, b)) ==> (final(self).phenotype() matches Some(v) && valid_new_link(v, a, b)
                && exists|r_from: u32, r_to: u32|
                drawn_link(v, final(self)@.n_inputs, final(self)@.n_outputs, r_from, r_to) == r),
            (final(self).phenotype() matches Some(v) && always_linkable(
                v,
                final(self)@.n_inputs,
                final(self)@.n_outputs,
            ) && (match tries {
                Some(t) => t,
                None => MAX_TRIES_MUTATIONS,
            }) >= 1) ==> (r is Some),
            (final(self).phenotype() matches Some(v) ==> never_linkable(
                v,
                final(self)@.n_inputs,
                final(self)@.n_outputs,
            )) ==> (r is None),
    {
        let tries = match tries {
            Some(t) => t,
            None => MAX_TRIES_MUTATIONS,
        };
        if self.build_network().is_err() {
            return None;
        }
        let net = match &self.network {
            Some(net) => net,
            None => {
                return None;
            },
        };
        proof {
            crate::network::lemma_drawn_link_valid(net, self.genes@, 0, 0);
        }
        let ghost v = net@;
        let mut attempt: i32 = 0;
        while attempt < tries
            invariant
                self.wf(),
                self@ == old(self)@,
                self.network == Some(*net),
                net.wf(),
                v == net@,
                same_shape(net@, build_view(self.genes@, self.n_inputs, self.n_outputs)),
                net.spec_n_inputs() == self.n_inputs,
                net.spec_n_outputs() == self.n_outputs,
                net@.ids.len() >= net.spec_n_inputs() + net.spec_n_outputs() + 1,
                attempt <= tries || tries < 0,
                old(self).phenotype() is Some ==> self.phenotype() == old(self).phenotype(),
                acyclic(build_view(old(self)@.genes, old(self)@.n_inputs, old(self)@.n_outputs)),
                attempt >= 0,
                always_linkable(v, self.n_inputs, self.n_outputs) ==> attempt == 0,
            decreases tries - attempt,
        {
            let r_from = random_u32();
            let r_to = random_u32();
            let pick = net.pick_link(r_from, r_to);
            if pick.is_some() {
                proof {
                    crate::network::lemma_drawn_link_valid(net, self.genes@, r_from, r_to);
                    assert(v == self.phenotype()->Some_0);
                }
                return pick;
            }
            proof {
                if always_linkable(v, self.n_inputs, self.n_outputs) {
                    assert(drawn_link(v, self.n_inputs, self.n_outputs, r_from, r_to) is Some);
                }
            }
            attempt = attempt + 1;
        }
        None
    }
}

} // verus!

use rust_neat::{get_difference_values, Gene, Genome, Settings, SCALE};

fn gene(hm: u32, from: u32, to: u32, weight: i32) -> Gene {
    Gene { hm, enabled: true, from, to, weight }
}

#[test]
fn check_genes_on_build() {
    let genome = Genome::new(0, 5, 6);
    let mut i = 0;
    for from in 1..=5 {
        for to in 6..=11 {
            assert_eq!(genome.genes()[i].from, from);
            assert_eq!(genome.genes()[i].to, to);
            i += 1;
        }
    }
    assert_eq!(genome.node_count(), 5 + 6 + 1);
}

#[test]
fn compute_difference() {
    let settings = Settings::default();
    let mut g1 = Genome::new(0, 2, 2);
    let mut g2 = Genome::new(1, 2, 2);

    assert_eq!(Genome::compute_difference(&g1, &g2, &settings), 0);

    let w = g2.genes()[0].weight;
    g2.set_weight(0, w + SCALE as i32);
    assert_eq!(Genome::compute_difference(&g1, &g2, &settings), settings.similarity_c3 as u128);

    let w = g2.genes()[0].weight;
    g2.set_weight(0, w - SCALE as i32);
    assert!(g2.insert_gene(gene(100, 0, 1, SCALE as i32)));
    assert_eq!(Genome::compute_difference(&g1, &g2, &settings), settings.similarity_c1 as u128);

    assert!(g1.insert_gene(gene(99, 0, 1, SCALE as i32)));
    assert_eq!(
        Genome::compute_difference(&g1, &g2, &settings),
        (settings.similarity_c1 + settings.similarity_c2) as u128
    );
}

#[test]
fn scaffold_is_row_major_cartesian_product() {
    let g = Genome::new(7, 3, 4);
    assert_eq!(g.id(), 7);
    assert_eq!(g.genes().len(), 12);
    for (k, gene) in g.genes().iter().enumerate() {
        assert_eq!(gene.hm, k as u32);
        assert_eq!(gene.from, 1 + (k as u32) / 4);
        assert_eq!(gene.to, 4 + (k as u32) % 4);
        assert_eq!(gene.weight, 0);
        assert!(gene.enabled);
    }
}

#[test]
fn empty_scaffold_without_inputs() {
    let g = Genome::new(0, 0, 3);
    assert_eq!(g.genes().len(), 0);
    assert_eq!(g.node_count(), 4);
    let other = Genome::new(1, 0, 3);
    assert_eq!(Genome::compute_difference(&g, &other, &Settings::default()), 0);
}

#[test]
fn distance_to_itself_is_zero() {
    let settings = Settings::default();
    let mut g = Genome::new(0, 4, 3);
    g.mutate_weights(&settings);
    assert!(g.insert_gene(gene(40, 1, 30, 123_456)));
    assert_eq!(Genome::compute_difference(&g, &g, &settings), 0);
}

#[test]
fn distance_is_symmetric() {
    let settings = Settings::default();
    let mut a = Genome::new(0, 3, 3);
    let mut b = Genome::new(1, 3, 3);
    a.mutate_weights(&settings);
    b.mutate_weights(&settings);
    assert!(a.insert_gene(gene(20, 1, 50, 5)));
    assert!(b.insert_gene(gene(15, 2, 51, -7)));
    assert!(b.insert_gene(gene(30, 51, 4, 9)));
    assert_eq!(
        Genome::compute_difference(&a, &b, &settings),
        Genome::compute_difference(&b, &a, &settings)
    );
    assert_eq!(get_difference_values(a.genes(), b.genes()), get_difference_values(b.genes(), a.genes()));
}

#[test]
fn one_weight_change_costs_c3_times_delta() {
    let settings = Settings::default();
    let a = Genome::new(0, 2, 3);
    let mut b = a.clone();
    b.set_weight(4, 2_500_000);
    // 0.4 * 2.5 = 1.0
    assert_eq!(Genome::compute_difference(&a, &b, &settings), 1_000_000);
    b.set_weight(4, -1_000_000);
    assert_eq!(Genome::compute_difference(&a, &b, &settings), 400_000);
}

#[test]
fn trailing_gene_is_one_more_excess() {
    let a = Genome::new(0, 2, 2);
    let b = Genome::new(1, 2, 2);
    let (_, disjoint, excess) = get_difference_values(a.genes(), b.genes());
    let mut a2 = a.clone();
    assert!(a2.insert_gene(gene(50, 1, 3, 0)));
    let (_, disjoint2, excess2) = get_difference_values(a2.genes(), b.genes());
    assert_eq!(excess2, excess + 1);
    assert_eq!(disjoint2, disjoint);
}

#[test]
fn inner_gene_is_one_more_disjoint() {
    let mut a = Genome::new(0, 2, 2);
    let mut b = Genome::new(1, 2, 2);
    assert!(a.insert_gene(gene(10, 1, 20, 0)));
    assert!(b.insert_gene(gene(10, 1, 20, 0)));
    let (_, disjoint, excess) = get_difference_values(a.genes(), b.genes());
    assert!(a.insert_gene(gene(7, 2, 21, 0)));
    assert_eq!(a.genes()[4].hm, 7);
    let (_, disjoint2, excess2) = get_difference_values(a.genes(), b.genes());
    assert_eq!(disjoint2, disjoint + 1);
    assert_eq!(excess2, excess);
}

#[test]
fn difference_values_exact() {
    let mut a = Genome::new(0, 1, 1);
    let mut b = Genome::new(1, 1, 1);
    a.set_weight(0, 300_000);
    b.set_weight(0, -200_000);
    assert!(a.insert_gene(gene(2, 1, 9, 0)));
    assert!(a.insert_gene(gene(8, 9, 2, 0)));
    assert!(b.insert_gene(gene(5, 1, 9, 0)));
    // 2 lies below b's largest marking 5: disjoint; 5 lies below a's 8: disjoint; 8 is excess.
    assert_eq!(get_difference_values(a.genes(), b.genes()), (500_000, 2, 1));
}

#[test]
fn small_genomes_are_not_normalised() {
    let mut settings = Settings::default();
    let mut a = Genome::new(0, 2, 2);
    let b = Genome::new(1, 2, 2);
    for h in 0..10u32 {
        assert!(a.insert_gene(gene(10 + h, 1, 100 + h, 0)));
    }
    // 15 nodes, 10 excess genes, c1 = 1.0
    assert_eq!(a.node_count(), 15);
    assert_eq!(Genome::compute_difference(&a, &b, &settings), 10_000_000);
    settings.small_genome_size = 4;
    // normalised by 15 nodes
    assert_eq!(Genome::compute_difference(&a, &b, &settings), 10_000_000 / 15);
}

#[test]
fn duplicate_marking_is_refused() {
    let mut g = Genome::new(0, 2, 2);
    let before = g.genes().clone();
    assert!(!g.insert_gene(gene(1, 1, 50, 5)));
    assert_eq!(g.genes(), &before);
}

#[test]
fn insertion_keeps_markings_sorted() {
    let mut g = Genome::new(0, 1, 1);
    assert!(g.insert_gene(gene(9, 1, 5, 0)));
    assert!(g.insert_gene(gene(4, 5, 2, 0)));
    let hms: Vec<u32> = g.genes().iter().map(|x| x.hm).collect();
    assert_eq!(hms, vec![0, 4, 9]);
}

#[test]
fn mutated_weight_reassigns_or_perturbs() {
    let s = Settings::default();
    // reassign: draw fraction 0 < 0.1; value draw 2_000_000 -> +1.0 * reassign_scale
    assert_eq!(rust_neat::mutate_weight(123, 0, 2_000_000, &s), 1_000_000);
    // reassign with the lowest value draw -> -1.0
    assert_eq!(rust_neat::mutate_weight(123, 5, 0, &s), -1_000_000);
    // perturb: fraction 0.5; value draw 1_500_000 -> +0.5 * perturb_scale = 50_000
    assert_eq!(rust_neat::mutate_weight(123, 500_000, 1_500_000, &s), 123 + 50_000);
    // perturbation saturates at the range of the weight
    assert_eq!(rust_neat::mutate_weight(i32::MAX, 500_000, 2_000_000, &s), i32::MAX);
}

#[test]
fn mutate_weights_stays_within_bounds() {
    let s = Settings::default();
    let mut g = Genome::new(0, 3, 3);
    assert!(g.mutate_weights(&s));
    for gene in g.genes() {
        // from 0, either reassigned within 1.0 or perturbed within 0.1
        assert!(gene.weight.abs() <= 1_000_000);
    }
    assert_eq!(g.genes().len(), 9);
}

#[test]
fn linked_nodes_skip_disabled_genes() {
    let mut g = Genome::new(0, 2, 1);
    g.set_enabled(0, false);
    assert_eq!(g.linked_from(0), Some((2, 3)));
    assert_eq!(g.linked_from(1), Some((2, 3)));
    assert_eq!(g.get_linked_nodes(), Some((2, 3)));
    g.set_enabled(1, false);
    assert_eq!(g.linked_from(0), None);
    assert_eq!(g.get_linked_nodes(), None);
    let empty = Genome::new(0, 0, 2);
    assert_eq!(empty.get_linked_nodes(), None);
}

#[test]
fn clone_drops_fitness_and_network() {
    let mut g = Genome::new(3, 2, 2);
    g.set_fitness(5);
    assert!(g.build_network().is_ok());
    let c = g.clone();
    assert_eq!(c.fitness(), 0);
    assert!(c.network().is_none());
    assert_eq!(c.genes(), g.genes());
    assert_eq!(c.id(), 3);
}

use rust_neat::{Gene, Genome, Settings, Species, NEAT};

#[test]
fn species_belongs_by_threshold() {
    let settings = Settings::default();
    let rep = Genome::new(0, 2, 2);
    let species = Species::new(&rep, 4);
    assert_eq!(species.get_id(), 4);
    assert!(species.population.is_empty());
    let mut close = Genome::new(1, 2, 2);
    close.set_weight(0, 2_000_000); // 0.4 * 2.0 = 0.8 < 3.0
    assert!(species.belongs(&close, &settings));
    let mut far = Genome::new(2, 2, 2);
    for h in 0..3u32 {
        assert!(far.insert_gene(Gene { hm: 10 + h, enabled: true, from: 1, to: 20 + h, weight: 0 }));
    }
    // three excess genes: 3.0, not below the threshold
    assert!(!species.belongs(&far, &settings));
}

#[test]
fn species_reset_and_new_representative() {
    let rep = Genome::new(0, 2, 2);
    let mut species = Species::new(&rep, 1);
    species.population.push(3);
    species.total_shared_fitness = 9;
    species.prep_new_generation();
    assert!(species.population.is_empty());
    assert_eq!(species.total_shared_fitness, 0);
    let mut other = Genome::new(5, 2, 2);
    other.set_fitness(77);
    species.set_new_rep_genome(&other);
    assert_eq!(species.rep_genome.id(), 5);
    assert_eq!(species.rep_genome.fitness(), 0);
}

#[test]
fn population_is_clustered() {
    let settings = Settings::default();
    let neat = NEAT::new(20, 3, 2, settings);
    assert_eq!(neat.pop_len(), 20);
    assert_eq!(neat.generation(), 0);
    let mut seen = vec![0; 20];
    for species in neat.species() {
        for m in &species.population {
            seen[*m as usize] += 1;
        }
    }
    assert!(seen.iter().all(|c| *c == 1));
    // every genome sits in the first species it is compatible with
    for (k, species) in neat.species().iter().enumerate() {
        for m in &species.population {
            let g = neat.genome(*m as usize);
            for earlier in &neat.species()[..k] {
                assert!(!earlier.belongs(g, &settings));
            }
        }
    }
    for i in 0..20 {
        assert_eq!(neat.genome(i).id(), i as u32);
    }
}

#[test]
fn fitness_is_shared_within_species() {
    let settings = Settings::default();
    let mut neat = NEAT::new(6, 2, 2, settings);
    let fitness: Vec<i64> = vec![10, -7, 30, 30, 5, 0];
    neat.record_fitness(&fitness);
    assert_eq!(neat.generation(), 1);
    neat.prepare_species_next_gen();
    for species in neat.species() {
        let n = species.population.len() as i64;
        if n == 0 {
            continue;
        }
        let mut total: i128 = 0;
        let mut best = species.population[0] as usize;
        for m in &species.population {
            let g = neat.genome(*m as usize);
            assert_eq!(g.adj_fitness(), fitness[*m as usize] / n);
            total += g.adj_fitness() as i128;
            if fitness[best] < fitness[*m as usize] {
                best = *m as usize;
            }
        }
        assert_eq!(species.total_shared_fitness, total);
        assert_eq!(species.rep_genome.id(), best as u32);
        assert_eq!(species.rep_genome.genes(), neat.genome(best).genes());
    }
    let info = neat.species_info();
    assert_eq!(info.len(), neat.species().len());
    assert_eq!(info.iter().map(|(_, n)| n).sum::<usize>(), 6);
}

#[test]
fn identical_genomes_share_one_species() {
    let mut settings = Settings::default();
    settings.reassign_probability = 0;
    settings.perturb_scale = 0;
    let mut neat = NEAT::new(5, 2, 2, settings);
    assert_eq!(neat.species().len(), 1);
    assert_eq!(neat.species()[0].population, vec![0, 1, 2, 3, 4]);
    neat.record_fitness(&vec![1, 9, 9, 3, 2]);
    neat.prepare_species_next_gen();
    assert_eq!(neat.species()[0].rep_genome.id(), 1);
    assert_eq!(neat.species()[0].total_shared_fitness, 0 + 1 + 1 + 0 + 0);
    neat.compute_new_pop_species();
    assert_eq!(neat.species().len(), 1);
    assert_eq!(neat.species()[0].population, vec![0, 1, 2, 3, 4]);
}

#[test]
fn founded_species_start_clean_and_in_order() {
    let settings = Settings::default();
    let mut neat = NEAT::new(25, 3, 2, settings);
    let count = neat.species().len();
    let mut founders = Vec::new();
    for (k, species) in neat.species().iter().enumerate() {
        assert_eq!(species.id, k as u32);
        assert_eq!(species.total_shared_fitness, 0);
        assert!(!species.population.is_empty());
        assert!(species.population.windows(2).all(|w| w[0] < w[1]));
        assert!(species.rep_genome.network().is_none());
        let founder = species.population[0] as usize;
        assert_eq!(species.rep_genome.genes(), neat.genome(founder).genes());
        founders.push(founder);
    }
    assert!(founders.windows(2).all(|w| w[0] < w[1]));
    // A second pass keeps the old species and numbers any new one after them.
    neat.compute_new_pop_species();
    assert!(neat.species().len() >= count);
    for (k, species) in neat.species().iter().enumerate() {
        assert_eq!(species.id, k as u32);
        assert_eq!(species.total_shared_fitness, 0);
    }
}

#[test]
fn representative_copy_has_no_network() {
    let mut g = Genome::new(0, 2, 2);
    assert!(g.build_network().is_ok());
    let mut species = Species::new(&g, 0);
    assert!(species.rep_genome.network().is_none());
    species.set_new_rep_genome(&g);
    assert!(species.rep_genome.network().is_none());
}

use neat::speciation::{speciate, Species};

fn distance_by_value(threshold: i64) -> impl Fn(usize, usize) -> Option<i64> {
    move |a: usize, b: usize| {
        let d = (a as i64 / 10 - b as i64 / 10).abs();
        if d <= threshold {
            Some(d)
        } else {
            None
        }
    }
}

fn closer(a: i64, b: i64) -> bool {
    a < b
}

fn species_of(species: &[Species], genome: usize) -> Vec<usize> {
    species
        .iter()
        .filter(|s| s.members.contains(&genome))
        .map(|s| s.id)
        .collect()
}

#[test]
fn every_genome_lands_in_exactly_one_species() {
    let genomes = vec![10, 11, 12, 30, 31, 50];
    let (species, next) = speciate(&vec![], &genomes, 1, 0, &distance_by_value(0), &closer);

    assert_eq!(species.len(), 3);
    assert_eq!(next, 3);
    for g in &genomes {
        assert_eq!(species_of(&species, *g).len(), 1);
    }
    for s in &species {
        assert_eq!(s.members[0], s.representative);
        assert_eq!(s.created, 1);
    }
}

#[test]
fn existing_species_keep_their_ids_and_take_the_closest_representative() {
    let previous = vec![Species {
        id: 7,
        created: 2,
        representative: 33,
        members: vec![33],
    }];
    let genomes = vec![10, 41, 30];
    let (species, next) = speciate(&previous, &genomes, 5, 8, &distance_by_value(1), &closer);

    assert_eq!(species[0].id, 7);
    assert_eq!(species[0].created, 2);
    assert_eq!(species[0].representative, 30);
    assert_eq!(species_of(&species, 41), vec![7]);
    assert_eq!(species_of(&species, 10), vec![8]);
    assert_eq!(next, 9);
}

#[test]
fn a_species_without_a_compatible_genome_is_dropped() {
    let previous = vec![Species {
        id: 4,
        created: 0,
        representative: 90,
        members: vec![90],
    }];
    let (species, next) = speciate(&previous, &vec![10], 3, 5, &distance_by_value(0), &closer);

    assert_eq!(species.len(), 1);
    assert_eq!(species[0].id, 5);
    assert_eq!(next, 6);
}

#[test]
fn threshold_decides_between_one_and_two_species() {
    let genomes = vec![10, 20];
    let (apart, _) = speciate(&vec![], &genomes, 1, 0, &distance_by_value(0), &closer);
    assert_eq!(apart.len(), 2);

    let (together, _) = speciate(&vec![], &genomes, 1, 0, &distance_by_value(100), &closer);
    assert_eq!(together.len(), 1);
    assert_eq!(together[0].members, vec![10, 20]);
}

fn uniform() -> f64 {
    rand::random::<f64>() * 2. - 1.
}

fn genomic_distance(a: &neat::genome::Genome<f64>, b: &neat::genome::Genome<f64>) -> f64 {
    let alignment = neat::alignment::align(a, b);
    let weights: f64 = alignment
        .common
        .iter()
        .map(|(i, j)| (a.connections()[*i].weight - b.connections()[*j].weight).abs() * 0.5)
        .sum();
    let biases: f64 = (0..alignment.shared_nodes)
        .map(|v| (a.nodes()[v].bias - b.nodes()[v].bias).abs() * 0.33)
        .sum();
    biases
        + 0.33 * (alignment.activation_differences + alignment.aggregation_differences) as f64
        + (weights + alignment.disjoint as f64) / a.connections().len().max(b.connections().len()) as f64
}

fn speciate_two(threshold: f64) -> usize {
    let genomes = vec![
        neat::genome::Genome::new(2, 1, &uniform),
        neat::genome::Genome::new(2, 1, &uniform),
    ];
    let distance = |g: usize, r: usize| -> Option<f64> {
        let d = genomic_distance(&genomes[g], &genomes[r]);
        if d <= threshold {
            Some(d)
        } else {
            None
        }
    };
    let (species, _) = speciate(&vec![], &vec![0, 1], 1, 0, &distance, &|a: f64, b: f64| a < b);
    species.len()
}

#[test]
fn compatibility_threshold_separates_random_genomes() {
    assert_eq!(speciate_two(0.), 2);
    assert_eq!(speciate_two(1000.), 1);
}

use neat::genome::Genome;
use neat::reproduction::offspring_budgets;
use neat::speciation::{retire_stagnant, Species};

fn uniform() -> f64 {
    rand::random::<f64>() * 2. - 1.
}

#[test]
fn budgets_share_the_population_by_weight() {
    assert_eq!(offspring_budgets(&vec![1, 1, 2], 150), Some(vec![37, 37, 75]));
    assert_eq!(offspring_budgets(&vec![5], 150), Some(vec![150]));
    assert_eq!(offspring_budgets(&vec![0, 3], 10), Some(vec![0, 10]));
}

#[test]
fn budgets_lose_less_than_one_place_per_species() {
    let weights = vec![7, 13, 29, 31, 1];
    let budgets = offspring_budgets(&weights, 150).unwrap();
    let sum: usize = budgets.iter().sum();
    assert!(sum <= 150);
    assert!(sum > 150 - weights.len());
}

#[test]
fn budgets_need_a_positive_weight() {
    assert_eq!(offspring_budgets(&vec![0, 0], 150), None);
    assert_eq!(offspring_budgets(&vec![], 150), None);
}

#[test]
fn stagnant_species_beyond_the_protected_ones_retire() {
    let species: Vec<Species> = (0..5).map(|id| Species::new(id, 0, 100 + id)).collect();
    // species 3, 1 and 4 are stagnant, 3 with the highest adjusted fitness
    let kept = retire_stagnant(&species, &vec![3, 1, 4], 1);
    let ids: Vec<usize> = kept.iter().map(|s| s.id).collect();
    assert_eq!(ids, vec![0, 2, 3]);

    let kept = retire_stagnant(&species, &vec![3, 1, 4], 3);
    assert_eq!(kept.len(), 5);
}

#[test]
fn species_start_with_their_representative() {
    let s = Species::new(4, 9, 17);
    assert_eq!(s.id, 4);
    assert_eq!(s.created, 9);
    assert_eq!(s.representative, 17);
    assert_eq!(s.members, vec![17]);
}

#[test]
fn add_many_connections_reports_each_outcome() {
    let mut g = Genome::new(1, 1, &uniform);
    let h = g.add_node(&uniform);
    let results = g.add_many_connections(&vec![(0, h), (h, 1), (1, h)], &uniform);

    assert!(results[0].is_ok());
    assert!(results[1].is_ok());
    assert!(results[2].is_err());
    assert_eq!(g.connections().len(), 3);
}

#[test]
fn disable_many_connections_disables_the_listed_ones() {
    let mut g = Genome::new(2, 2, &uniform);
    g.disable_many_connections(&vec![0, 3]);
    let disabled: Vec<bool> = g.connections().iter().map(|c| c.disabled).collect();
    assert_eq!(disabled, vec![true, false, false, true]);
}

#[test]
fn alignment_counts_shared_and_disjoint_genes() {
    let a = Genome::new(2, 1, &|| 0.5);
    let mut b = Genome::new(2, 1, &|| 0.5);
    let h = b.add_node(&|| 0.5);
    b.add_connection(0, h, &|| 0.5).unwrap();

    let alignment = neat::alignment::align(&a, &b);
    assert_eq!(alignment.common, vec![(0, 0), (1, 1)]);
    assert_eq!(alignment.disjoint, 1);
    assert_eq!(alignment.shared_nodes, 3);
    assert!(alignment.activation_differences <= 1);
}

#[test]
fn well_formedness_is_checked() {
    let mut g = Genome::new(2, 1, &uniform);
    assert!(g.is_well_formed());
    g.connection_genes[0].to = 0;
    assert!(!g.is_well_formed());

    let mut cyclic = Genome::new(1, 1, &uniform);
    let h1 = cyclic.add_node(&uniform);
    let h2 = cyclic.add_node(&uniform);
    cyclic.connection_genes.push(neat::genome::ConnectionGene::new(h1, h2, 0.1));
    cyclic.connection_genes.push(neat::genome::ConnectionGene::new(h2, h1, 0.1));
    assert!(!cyclic.is_well_formed());
}

use neat::crossover::crossover;
use neat::genome::{ConnectionGene, EditError, Genome, NodeGene};
use neat::node::NodeKind;

fn uniform() -> f64 {
    rand::random::<f64>() * 2. - 1.
}

fn push_node(g: &mut Genome<f64>, kind: NodeKind) {
    g.node_genes.push(NodeGene::new(kind, &uniform));
}

fn chain() -> Genome<f64> {
    let mut g: Genome<f64> = Genome::empty(1, 1);

    push_node(&mut g, NodeKind::Input);
    push_node(&mut g, NodeKind::Hidden);
    push_node(&mut g, NodeKind::Hidden);
    push_node(&mut g, NodeKind::Output);

    g.connection_genes.push(ConnectionGene::new(0, 1, uniform()));
    g.connection_genes.push(ConnectionGene::new(1, 2, uniform()));
    g.connection_genes.push(ConnectionGene::new(2, 3, uniform()));
    g
}

fn diamond() -> Genome<f64> {
    let mut g: Genome<f64> = Genome::empty(1, 1);

    push_node(&mut g, NodeKind::Input);
    push_node(&mut g, NodeKind::Output);
    push_node(&mut g, NodeKind::Hidden);
    push_node(&mut g, NodeKind::Hidden);
    push_node(&mut g, NodeKind::Hidden);

    g.connection_genes.push(ConnectionGene::new(0, 2, uniform()));
    g.connection_genes.push(ConnectionGene::new(0, 3, uniform()));
    g.connection_genes.push(ConnectionGene::new(2, 4, uniform()));
    g.connection_genes.push(ConnectionGene::new(3, 4, uniform()));
    g.connection_genes.push(ConnectionGene::new(4, 1, uniform()));
    g
}

fn two_inputs_three_hidden() -> Genome<f64> {
    let mut g: Genome<f64> = Genome::empty(2, 1);

    push_node(&mut g, NodeKind::Input);
    push_node(&mut g, NodeKind::Input);
    push_node(&mut g, NodeKind::Output);
    push_node(&mut g, NodeKind::Hidden);
    push_node(&mut g, NodeKind::Hidden);
    push_node(&mut g, NodeKind::Hidden);
    g
}

#[test]
fn mod_initialize() {
    Genome::new(2, 2, &uniform);
}

#[test]
fn genome_initialize() {
    let g = Genome::new(2, 2, &uniform);
    assert_eq!(g.nodes().len(), 4);
    assert_eq!(g.connections().len(), 4);
    assert!(g.node_order().is_some());
}

#[test]
fn mod_add_node_does_not_change_connections() {
    let mut g = Genome::new(1, 2, &uniform);

    g.add_node(&uniform);

    let first_connection = g.connection_genes.get(0).unwrap();
    assert_eq!(first_connection.from, 0);
    assert_eq!(first_connection.to, 1);

    let second_connection = g.connection_genes.get(1).unwrap();
    assert_eq!(second_connection.from, 0);
    assert_eq!(second_connection.to, 2);
}

#[test]
fn mod_is_projecting_directly() {
    let g = Genome::new(2, 2, &uniform);

    assert!(g.is_projecting_directly(0, 2));
    assert!(g.is_projecting_directly(0, 3));
    assert!(g.is_projecting_directly(1, 2));
    assert!(g.is_projecting_directly(1, 3));

    assert!(!g.is_projecting_directly(2, 0));
    assert!(!g.is_projecting_directly(3, 0));
    assert!(!g.is_projecting_directly(2, 1));
    assert!(!g.is_projecting_directly(3, 1));
}

#[test]
fn genome_is_projecting_directly() {
    let g = Genome::new(2, 2, &uniform);

    assert!(g.is_projecting_directly(0, 2));
    assert!(g.is_projecting_directly(1, 3));
    assert!(!g.is_projecting_directly(2, 0));
    assert!(!g.is_projecting_directly(3, 1));
}

#[test]
fn mod_is_projected_directly() {
    let g = Genome::new(2, 2, &uniform);

    assert!(g.is_projected_directly(2, 0));
    assert!(g.is_projected_directly(3, 0));
    assert!(g.is_projected_directly(2, 1));
    assert!(g.is_projected_directly(3, 1));

    assert!(!g.is_projected_directly(0, 2));
    assert!(!g.is_projected_directly(0, 3));
    assert!(!g.is_projected_directly(1, 2));
    assert!(!g.is_projected_directly(1, 3));
}

#[test]
fn genome_is_projected_directly() {
    let g = Genome::new(2, 2, &uniform);

    assert!(g.is_projected_directly(2, 0));
    assert!(g.is_projected_directly(3, 1));
    assert!(!g.is_projected_directly(0, 2));
    assert!(!g.is_projected_directly(1, 3));
}

#[test]
fn is_projecting() {
    let g = chain();

    assert!(g.is_projecting(0, 3));
    assert!(g.is_projecting(1, 3));
    assert!(g.is_projecting(2, 3));

    assert!(!g.is_projecting(3, 0));
    assert!(!g.is_projecting(3, 1));
    assert!(!g.is_projecting(3, 2));
}

#[test]
fn is_projected() {
    let g = chain();

    assert!(g.is_projected(3, 0));
    assert!(g.is_projected(3, 1));
    assert!(g.is_projected(3, 2));

    assert!(!g.is_projected(0, 3));
    assert!(!g.is_projected(1, 3));
    assert!(!g.is_projected(2, 3));
}

#[test]
fn mod_can_connect() {
    let g = diamond();
    assert!(g.is_well_formed());

    assert!(g.can_connect(2, 3));
    assert!(g.can_connect(3, 2));

    assert!(!g.can_connect(4, 2));
    assert!(!g.can_connect(4, 3));
    assert!(!g.can_connect(1, 2));
    assert!(!g.can_connect(1, 3));
}

#[test]
fn genome_can_connect() {
    let g = diamond();

    assert!(g.can_connect(2, 3));
    assert!(!g.can_connect(4, 2));
    assert!(!g.can_connect(1, 3));
}

#[test]
fn get_node_order() {
    let mut g = two_inputs_three_hidden();

    g.add_connection(0, 2, &uniform).unwrap();
    g.add_connection(1, 3, &uniform).unwrap();
    g.add_connection(1, 4, &uniform).unwrap();
    g.add_connection(1, 5, &uniform).unwrap();
    g.add_connection(3, 2, &uniform).unwrap();
    g.add_connection(4, 3, &uniform).unwrap();
    g.add_connection(5, 4, &uniform).unwrap();

    assert!(g.node_order().is_some());
    assert!(g
        .node_order_with(vec![ConnectionGene::new(3, 5, uniform())])
        .is_none());
}

#[test]
fn no_recurrent_connections() {
    let mut g = two_inputs_three_hidden();

    g.add_connection(0, 2, &uniform).unwrap();
    g.add_connection(1, 3, &uniform).unwrap();
    g.add_connection(1, 4, &uniform).unwrap();
    g.add_connection(1, 5, &uniform).unwrap();
    g.add_connection(3, 2, &uniform).unwrap();
    g.add_connection(4, 3, &uniform).unwrap();
    g.add_connection(5, 4, &uniform).unwrap();

    assert!(g.add_connection(3, 5, &uniform).is_err());
}

#[test]
fn node_distances_simple() {
    let g = Genome::new(2, 1, &uniform);

    assert_eq!(g.node_distances(), vec![Some(0), Some(0), Some(1)]);
}

#[test]
fn node_distances_block_recurrent_connections() {
    let mut g = two_inputs_three_hidden();

    g.add_connection(0, 3, &uniform).unwrap();
    g.add_connection(1, 3, &uniform).unwrap();
    g.add_connection(3, 4, &uniform).unwrap();
    g.add_connection(4, 5, &uniform).unwrap();
    g.add_connection(4, 2, &uniform).unwrap();
    g.add_connection(5, 2, &uniform).unwrap();

    assert_eq!(
        g.node_distances(),
        vec![Some(0), Some(0), Some(4), Some(1), Some(2), Some(3)]
    );
    assert_eq!(g.add_connection(5, 3, &uniform), Err(EditError::Forbidden));
}

#[test]
fn node_order_lists_inputs_first_and_sources_before_targets() {
    let mut g = two_inputs_three_hidden();

    g.add_connection(1, 5, &uniform).unwrap();
    g.add_connection(5, 3, &uniform).unwrap();
    g.add_connection(3, 2, &uniform).unwrap();

    assert_eq!(g.node_order(), Some(vec![0, 1, 4, 5, 3, 2]));
}

#[test]
fn cycle_is_prevented_along_a_chain() {
    let mut g: Genome<f64> = Genome::empty(1, 1);
    push_node(&mut g, NodeKind::Input);
    push_node(&mut g, NodeKind::Output);
    let h1 = g.add_node(&uniform);
    let h2 = g.add_node(&uniform);

    g.add_connection(0, h1, &uniform).unwrap();
    g.add_connection(h1, h2, &uniform).unwrap();
    g.add_connection(h2, 1, &uniform).unwrap();

    assert_eq!(g.add_connection(h2, h1, &uniform), Err(EditError::Forbidden));
    assert_eq!(g.connections().len(), 3);
}

#[test]
fn disabled_connection_is_enabled_again() {
    let mut g = Genome::new(2, 2, &uniform);
    let index = g
        .connections()
        .iter()
        .position(|c| c.from == 0 && c.to == 2)
        .unwrap();
    let weight = g.connections()[index].weight;

    g.disable_connection(index);
    assert!(g.connections()[index].disabled);

    assert_eq!(g.add_connection(0, 2, &uniform), Ok(index));
    assert_eq!(g.connections().len(), 4);
    assert!(!g.connections()[index].disabled);
    assert_eq!(g.connections()[index].weight, weight);
}

#[test]
fn innovation_numbers_follow_the_pairing() {
    assert_eq!(ConnectionGene::new(0, 0, 0.5).innovation_number(), 0);
    assert_eq!(ConnectionGene::new(0, 2, 0.5).innovation_number(), 5);
    assert_eq!(ConnectionGene::new(2, 0, 0.5).innovation_number(), 3);
    assert_eq!(ConnectionGene::new(3, 4, 0.5).innovation_number(), 32);
}

#[test]
fn innovation_numbers_differ_between_pairs() {
    let mut seen = std::collections::HashSet::new();
    for from in 0..30 {
        for to in 0..30 {
            assert!(seen.insert(ConnectionGene::new(from, to, 0.).innovation_number()));
        }
    }
}

#[test]
fn genome_crossover() {
    let a = Genome::new(2, 2, &uniform);
    let b = Genome::new(2, 2, &uniform);

    let child = crossover(&b, &a).unwrap();
    assert_eq!(child.nodes().len(), 4);
    assert_eq!(child.connections().len(), 4);
}

#[test]
fn mod_crossover() {
    let a = Genome::new(2, 2, &uniform);
    let b = Genome::new(2, 2, &uniform);

    assert!(crossover(&b, &a).is_some());
}

#[test]
fn crossover_takes_either_weight_of_a_shared_edge() {
    let a = Genome::new(2, 2, &|| 0.3);
    let b = Genome::new(2, 2, &|| -0.7);

    let mut from_a = 0;
    let mut from_b = 0;
    for _ in 0..1000 {
        let child = crossover(&a, &b).unwrap();
        let edge = child
            .connections()
            .iter()
            .find(|c| c.from == 0 && c.to == 2)
            .unwrap();
        if edge.weight == 0.3 {
            from_a += 1;
        } else {
            assert_eq!(edge.weight, -0.7);
            from_b += 1;
        }
    }
    assert_eq!(from_a + from_b, 1000);
    assert!(from_a > 400 && from_b > 400);
}

#[test]
fn crossover_keeps_the_excess_genes_of_the_fitter_parent() {
    let mut a = Genome::new(1, 1, &|| 0.3);
    let b = Genome::new(1, 1, &|| -0.7);
    let h = a.add_node(&|| 0.3);
    a.add_connection(0, h, &|| 0.9).unwrap();
    a.add_connection(h, 1, &|| 0.9).unwrap();

    let child = crossover(&a, &b).unwrap();
    assert_eq!(child.nodes().len(), 3);
    assert_eq!(child.connections().len(), 3);
    assert_eq!(child.connections()[1].weight, 0.9);
    assert_eq!(child.connections()[2].weight, 0.9);

    let child = crossover(&b, &a).unwrap();
    assert_eq!(child.nodes().len(), 2);
    assert_eq!(child.connections().len(), 1);
}

#[test]
fn recombination_follows_the_choices() {
    let a = Genome::new(2, 2, &|| 0.3);
    let b = Genome::new(2, 2, &|| -0.7);

    let child = neat::crossover::recombine_with(&a, &b, &vec![true, false, true, false], &vec![false; 4]);
    let weights: Vec<f64> = child.connections().iter().map(|c| c.weight).collect();
    assert_eq!(weights, vec![-0.7, 0.3, -0.7, 0.3]);
    assert!(child.nodes().iter().skip(2).all(|n| n.bias == 0.3));

    let child = neat::crossover::recombine_with(&a, &b, &vec![], &vec![true; 4]);
    assert!(child.connections().iter().all(|c| c.weight == 0.3));
    assert!(child.nodes().iter().skip(2).all(|n| n.bias == -0.7));
}

use neat::configuration::{default_mutation_kinds, pick_mutation};
use neat::genome::Genome;
use neat::mutation::{
    add_connection, add_node, change_activation, change_bias, change_weight, disable_connection, mutate,
    remove_node, MutationKind,
};

fn uniform() -> f64 {
    rand::random::<f64>() * 2. - 1.
}

fn resample(_: f64) -> f64 {
    uniform()
}

fn enabled_count(g: &Genome<f64>) -> usize {
    g.connections().iter().filter(|c| !c.disabled).count()
}

#[test]
fn mutation_add_connection_adds_missing_connection() {
    let mut g = Genome::new(1, 2, &uniform);

    g.add_node(&uniform);
    g.add_connection(0, 3, &uniform).unwrap();
    g.add_connection(3, 2, &uniform).unwrap();

    assert!(!g.connections().iter().any(|c| c.from == 3 && c.to == 1));
    assert_eq!(add_connection(&mut g, &uniform), Some((3, 1)));
    assert!(g.connections().iter().any(|c| c.from == 3 && c.to == 1));
}

#[test]
fn mutation_add_connection_doesnt_add_unecessary_connections() {
    let mut g = Genome::new(1, 2, &uniform);

    g.add_node(&uniform);
    g.add_connection(0, 3, &uniform).unwrap();
    g.add_connection(3, 2, &uniform).unwrap();

    // This will add the last missing connection
    assert_eq!(g.connections().len(), 4);
    add_connection(&mut g, &uniform);
    assert_eq!(g.connections().len(), 5);

    // There should be no new connections
    assert_eq!(add_connection(&mut g, &uniform), None);
    assert_eq!(g.connections().len(), 5);
}

#[test]
fn mutation_remove_connection_doesnt_remove_last_connection_of_a_node() {
    let mut g = Genome::new(1, 2, &uniform);
    assert_eq!(enabled_count(&g), 2);

    assert_eq!(disable_connection(&mut g), None);
    assert_eq!(enabled_count(&g), 2);
}

#[test]
fn remove_connection_disables_a_redundant_connection() {
    let mut g = Genome::new(2, 2, &uniform);
    assert_eq!(enabled_count(&g), 4);

    assert!(disable_connection(&mut g).is_some());
    assert_eq!(enabled_count(&g), 3);
    assert_eq!(g.connections().len(), 4);

    // Only the connection that shares neither end with the first remains removable
    assert!(disable_connection(&mut g).is_some());
    assert_eq!(enabled_count(&g), 2);
    assert_eq!(disable_connection(&mut g), None);
    assert_eq!(enabled_count(&g), 2);
}

#[test]
fn mutation_add_node_doesnt_change_existing_connections() {
    let mut g = Genome::new(1, 1, &uniform);
    let initial_connections = g.connections().to_vec();

    let h = add_node(&mut g, &uniform).unwrap();
    assert_eq!(h, 2);

    let initial_connections_not_modified = initial_connections
        .iter()
        .filter(|oc| {
            g.connections()
                .iter()
                .any(|c| c.from == oc.from && c.to == oc.to && c.disabled == oc.disabled)
        })
        .count();

    // When adding a node, a connection is selected to be disabled and replaced with a new node and two new
    // connections
    assert_eq!(
        initial_connections_not_modified,
        initial_connections.len() - 1
    );
    assert_eq!(g.connections()[1].weight, initial_connections[0].weight);
    assert!(g.node_order().is_some());
}

#[test]
fn mutation_remove_node_doesnt_mess_up_the_connections() {
    let mut g = Genome::new(1, 1, &uniform);
    let connection_enabled_initially = !g.connections().first().unwrap().disabled;

    add_node(&mut g, &uniform);
    let connection_disabled_after_add = g.connections().first().unwrap().disabled;

    assert_eq!(remove_node(&mut g, &uniform), Some(2));
    let connection_enabled_after_remove = !g.connections().first().unwrap().disabled;

    assert!(connection_enabled_initially);
    assert!(connection_disabled_after_add);
    assert!(connection_enabled_after_remove);
    assert!(g
        .connections()
        .iter()
        .filter(|c| c.from == 2 || c.to == 2)
        .all(|c| c.disabled));
}

#[test]
fn mutation_change_bias_doesnt_change_input_nodes() {
    let mut g = Genome::new(1, 1, &uniform);

    let input_bias = g.nodes()[0].bias;
    let output_bias = g.nodes()[1].bias;

    for _ in 0..10 {
        assert_eq!(change_bias(&mut g, &resample), Some(1));
    }

    let new_input_bias = g.nodes()[0].bias;
    let new_output_bias = g.nodes()[1].bias;

    assert!((input_bias - new_input_bias).abs() < f64::EPSILON);
    assert!((output_bias - new_output_bias).abs() > f64::EPSILON);
}

#[test]
fn mutation_change_activation_doesnt_change_input_nodes() {
    let mut g = Genome::new(1, 1, &uniform);

    let i_activation = g.nodes()[0].activation;
    let o_activation = g.nodes()[1].activation;

    let mut new_i_activations = vec![];
    let mut new_o_activations = vec![];

    for _ in 0..10 {
        change_activation(&mut g);

        new_i_activations.push(g.nodes()[0].activation);
        new_o_activations.push(g.nodes()[1].activation);
    }

    assert!(new_i_activations.iter().all(|a| *a == i_activation));
    assert!(new_o_activations.iter().any(|a| *a != o_activation));
}

#[test]
fn change_weight_applies_the_adjustment() {
    let mut g = Genome::new(1, 1, &|| 0.25);

    assert_eq!(change_weight(&mut g, &|w: f64| w * 2.), Some(0));
    assert_eq!(g.connections()[0].weight, 0.5);

    let mut empty: Genome<f64> = Genome::new(0, 1, &uniform);
    assert_eq!(change_weight(&mut empty, &|w: f64| w * 2.), None);
}

#[test]
fn mutation_mutate_genome() {
    let mut g = Genome::new(1, 1, &uniform);
    let kinds = default_mutation_kinds();

    for _ in 0..100 {
        let kind = pick_mutation(&kinds).unwrap();
        mutate(&kind, &mut g, &uniform, &resample);

        assert!(g.node_order().is_some());
        assert!(g
            .connections()
            .iter()
            .all(|c| c.from != c.to && c.from < g.nodes().len() && c.to < g.nodes().len()));
    }
}

#[test]
fn every_mutation_kind_keeps_a_genome_orderable() {
    let kinds = [
        MutationKind::AddConnection,
        MutationKind::RemoveConnection,
        MutationKind::AddNode,
        MutationKind::RemoveNode,
        MutationKind::ModifyWeight,
        MutationKind::ModifyBias,
        MutationKind::ModifyActivation,
        MutationKind::ModifyAggregation,
    ];
    let mut g = Genome::new(2, 2, &uniform);
    for round in 0..200 {
        g.mutate(&kinds[round % kinds.len()], &uniform, &resample);
        assert!(g.node_order().is_some());
        for (i, a) in g.connections().iter().enumerate() {
            for b in &g.connections()[i + 1..] {
                assert!(a.from != b.from || a.to != b.to);
            }
        }
    }
}

#[test]
fn mutation_without_candidates_changes_nothing() {
    let mut g = Genome::new(1, 1, &uniform);
    let before: Vec<(usize, usize, bool, u64)> = g
        .connections()
        .iter()
        .map(|c| (c.from, c.to, c.disabled, c.weight.to_bits()))
        .collect();

    mutate(&MutationKind::RemoveConnection, &mut g, &uniform, &resample);
    mutate(&MutationKind::RemoveNode, &mut g, &uniform, &resample);

    let after: Vec<(usize, usize, bool, u64)> = g
        .connections()
        .iter()
        .map(|c| (c.from, c.to, c.disabled, c.weight.to_bits()))
        .collect();
    assert_eq!(before, after);
    assert_eq!(g.nodes().len(), 2);
}

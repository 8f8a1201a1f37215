use neat::activation::ActivationKind;
use neat::aggregations::Aggregation;
use neat::configuration::{configuration_error, default_mutation_kinds, pick_mutation, ConfigurationError};
use neat::mutation::MutationKind;

#[test]
fn default_mutation_kinds_weigh_every_kind_equally() {
    let kinds = default_mutation_kinds();
    assert_eq!(kinds.len(), 8);
    assert!(kinds.iter().all(|(_, w)| *w == 10));
    assert_eq!(kinds[0].0, MutationKind::AddConnection);
    assert_eq!(kinds[7].0, MutationKind::ModifyAggregation);
}

#[test]
fn pick_mutation_draws_only_weighted_kinds() {
    let kinds = vec![
        (MutationKind::AddNode, 0),
        (MutationKind::ModifyBias, 5),
        (MutationKind::RemoveNode, 0),
    ];
    for _ in 0..200 {
        assert_eq!(pick_mutation(&kinds), Some(MutationKind::ModifyBias));
    }
}

#[test]
fn pick_mutation_refuses_an_undrawable_table() {
    assert_eq!(pick_mutation(&vec![]), None);
    assert_eq!(pick_mutation(&vec![(MutationKind::AddNode, 0)]), None);
    assert_eq!(
        pick_mutation(&vec![(MutationKind::AddNode, usize::MAX), (MutationKind::RemoveNode, 1)]),
        None
    );
}

#[test]
fn configuration_errors_are_reported() {
    let kinds = default_mutation_kinds();
    assert_eq!(configuration_error(150, &kinds), None);
    assert_eq!(
        configuration_error(0, &kinds),
        Some(ConfigurationError::EmptyPopulation)
    );
    assert_eq!(
        configuration_error(150, &vec![]),
        Some(ConfigurationError::NoMutationKinds)
    );
    assert_eq!(
        configuration_error(150, &vec![(MutationKind::AddNode, 0)]),
        Some(ConfigurationError::NoMutationKinds)
    );
}

#[test]
fn draws_map_to_kinds() {
    assert_eq!(ActivationKind::from_index(0), ActivationKind::Tanh);
    assert_eq!(ActivationKind::from_index(10), ActivationKind::SELU);
    assert_eq!(ActivationKind::from_index(11), ActivationKind::Inverse);
    assert_eq!(Aggregation::from_index(0), Aggregation::Product);
    assert_eq!(Aggregation::from_index(6), Aggregation::Mean);
    for _ in 0..100 {
        assert_ne!(ActivationKind::random(), ActivationKind::Input);
    }
}

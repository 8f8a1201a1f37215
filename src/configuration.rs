use crate::mutation::MutationKind;
use vstd::prelude::*;

verus! {

/// Why the evolution refuses to start.
#[derive(Debug, Clone, Copy, PartialEq, Eq, Structural)]
pub enum ConfigurationError {
    /// The population would be empty.
    EmptyPopulation,
    /// No mutation kind can be drawn: the table is empty, too long, holds a
    /// weight too large for the table or only zero weights.
    NoMutationKinds,
}

/// The sampling weight that every mutation kind gets by default.
pub const DEFAULT_MUTATION_WEIGHT: usize = 10;

/// The weights of `kinds`, in order.
pub open spec fn weights_of(kinds: Seq<(MutationKind, usize)>) -> Seq<usize> {
    kinds.map_values(|k: (MutationKind, usize)| k.1)
}

/// A weighted table from which a draw can be made: between one and
/// `u32::MAX` entries, no weight above `usize::MAX` divided by their
/// number, and one weight above zero.
pub open spec fn drawable(weights: Seq<usize>) -> bool {
    &&& 0 < weights.len() <= u32::MAX
    &&& forall|k: int| 0 <= k < weights.len() ==> #[trigger] weights[k] <= (usize::MAX as int) / (weights.len() as int)
    &&& exists|k: int| 0 <= k < weights.len() && #[trigger] weights[k] > 0
}

/// Relies on `rand_distr::WeightedAliasIndex`: `new` builds the alias
/// table exactly for a drawable list of weights and fails otherwise, and a
/// draw from the table is an index into the list.
#[verifier::external_body]
fn draw_weighted(weights: Vec<usize>) -> (r: Option<usize>)
    ensures
        r is Some <==> drawable(weights@),
        r is Some ==> r->0 < weights@.len(),
{
    match rand_distr::WeightedAliasIndex::new(weights) {
        Ok(table) => Some(rand::distributions::Distribution::sample(&table, &mut rand::thread_rng())),
        Err(_) => None,
    }
}

/// Every mutation kind, each with the same weight.
pub fn default_mutation_kinds() -> (r: Vec<(MutationKind, usize)>)
    ensures
        r@ == seq![
            (MutationKind::AddConnection, DEFAULT_MUTATION_WEIGHT),
            (MutationKind::RemoveConnection, DEFAULT_MUTATION_WEIGHT),
            (MutationKind::AddNode, DEFAULT_MUTATION_WEIGHT),
            (MutationKind::RemoveNode, DEFAULT_MUTATION_WEIGHT),
            (MutationKind::ModifyWeight, DEFAULT_MUTATION_WEIGHT),
            (MutationKind::ModifyBias, DEFAULT_MUTATION_WEIGHT),
            (MutationKind::ModifyActivation, DEFAULT_MUTATION_WEIGHT),
            (MutationKind::ModifyAggregation, DEFAULT_MUTATION_WEIGHT),
        ],
{
    let mut kinds = Vec::new();
    kinds.push((MutationKind::AddConnection, DEFAULT_MUTATION_WEIGHT));
    kinds.push((MutationKind::RemoveConnection, DEFAULT_MUTATION_WEIGHT));
    kinds.push((MutationKind::AddNode, DEFAULT_MUTATION_WEIGHT));
    kinds.push((MutationKind::RemoveNode, DEFAULT_MUTATION_WEIGHT));
    kinds.push((MutationKind::ModifyWeight, DEFAULT_MUTATION_WEIGHT));
    kinds.push((MutationKind::ModifyBias, DEFAULT_MUTATION_WEIGHT));
    kinds.push((MutationKind::ModifyActivation, DEFAULT_MUTATION_WEIGHT));
    kinds.push((MutationKind::ModifyAggregation, DEFAULT_MUTATION_WEIGHT));
    assert(kinds@ =~= seq![
        (MutationKind::AddConnection, DEFAULT_MUTATION_WEIGHT),
        (MutationKind::RemoveConnection, DEFAULT_MUTATION_WEIGHT),
        (MutationKind::AddNode, DEFAULT_MUTATION_WEIGHT),
        (MutationKind::RemoveNode, DEFAULT_MUTATION_WEIGHT),
        (MutationKind::ModifyWeight, DEFAULT_MUTATION_WEIGHT),
        (MutationKind::ModifyBias, DEFAULT_MUTATION_WEIGHT),
        (MutationKind::ModifyActivation, DEFAULT_MUTATION_WEIGHT),
        (MutationKind::ModifyAggregation, DEFAULT_MUTATION_WEIGHT),
    ]);
    kinds
}

/// Draws a mutation kind from the weighted table; `None` exactly when the
/// table is not drawable.
pub fn pick_mutation(kinds: &Vec<(MutationKind, usize)>) -> (r: Option<MutationKind>)
    ensures
        r is Some <==> drawable(weights_of(kinds@)),
        r is Some ==> exists|k: int| 0 <= k < kinds@.len() && #[trigger] kinds@[k].0 == r->0,
{
    let mut weights: Vec<usize> = Vec::new();
    let mut i: usize = 0;
    while i < kinds.len()
        invariant
            i <= kinds@.len(),
            weights@ =~= weights_of(kinds@.subrange(0, i as int)),
        decreases kinds@.len() - i,
    {
        weights.push(kinds[i].1);
        i += 1;
        assert(kinds@.subrange(0, i as int) =~= kinds@.subrange(0, i - 1).push(kinds@[i - 1]));
    }
    assert(kinds@.subrange(0, i as int) =~= kinds@);
    match draw_weighted(weights) {
        Some(k) => {
            assert(kinds@[k as int].0 == kinds@[k as int].0);
            Some(kinds[k].0)
        },
        None => None,
    }
}

/// The error with which the evolution refuses to start, if any: an empty
/// population, or a mutation table from which nothing can be drawn.
pub fn configuration_error(population_size: usize, mutation_kinds: &Vec<(MutationKind, usize)>) -> (r:
    Option<ConfigurationError>)
    ensures
        r == (if population_size == 0 {
            Some(ConfigurationError::EmptyPopulation)
        } else if !drawable(weights_of(mutation_kinds@)) {
            Some(ConfigurationError::NoMutationKinds)
        } else {
            None
        }),
{
    if population_size == 0 {
        return Some(ConfigurationError::EmptyPopulation);
    }
    let n = mutation_kinds.len();
    if n == 0 || n > 4294967295 {
        return Some(ConfigurationError::NoMutationKinds);
    }
    let bound = usize::MAX / n;
    let mut fits = true;
    let mut positive = false;
    let mut i: usize = 0;
    while i < n
        invariant
            n == mutation_kinds@.len(),
            0 < n,
            bound == usize::MAX / n,
            i <= n,
            fits == (forall|k: int| 0 <= k < i ==> #[trigger] mutation_kinds@[k].1 <= bound),
            positive == (exists|k: int| 0 <= k < i && #[trigger] mutation_kinds@[k].1 > 0),
        decreases n - i,
    {
        let w = mutation_kinds[i].1;
        if w > bound {
            fits = false;
        }
        if w > 0 {
            positive = true;
        }
        i += 1;
    }
    let ghost weights = weights_of(mutation_kinds@);
    assert(weights.len() == n);
    assert forall|k: int| 0 <= k < n implies #[trigger] weights[k] == mutation_kinds@[k].1 by {}
    assert(bound as int == (usize::MAX as int) / (n as int));
    proof {
        if !fits {
            let k = choose|k: int| 0 <= k < n && !(#[trigger] mutation_kinds@[k].1 <= bound);
            assert(!(weights[k] <= (usize::MAX as int) / (weights.len() as int)));
        }
        if positive {
            let k = choose|k: int| 0 <= k < n && #[trigger] mutation_kinds@[k].1 > 0;
            assert(weights[k] > 0);
        }
    }
    assert(fits == (forall|k: int| 0 <= k < weights.len() ==> #[trigger] weights[k] <= (usize::MAX as int) / (weights.len() as int)));
    assert(positive ==> exists|k: int| 0 <= k < weights.len() && #[trigger] weights[k] > 0);
    assert((exists|k: int| 0 <= k < weights.len() && #[trigger] weights[k] > 0) ==> positive);
    if fits && positive {
        None
    } else {
        Some(ConfigurationError::NoMutationKinds)
    }
}

} // verus!

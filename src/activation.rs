use crate::random::random_index;
use vstd::prelude::*;

verus! {

/// The scalar functions a node applies to its aggregated input. `Input` is
/// reserved for input nodes, which pass their value through.
#[derive(Debug, Clone, Copy, PartialEq, Eq, Structural, Hash)]
pub enum ActivationKind {
    Input,
    Tanh,
    Relu,
    Step,
    Logistic,
    Identity,
    Softsign,
    Sinusoid,
    Gaussian,
    BentIdentity,
    Bipolar,
    Inverse,
    SELU,
}

/// Number of activation kinds that a random draw chooses from (all but `Input`).
pub const DRAWABLE_ACTIVATIONS: usize = 12;

/// The activation kind that the draw `i` stands for.
pub open spec fn activation_of_index(i: int) -> ActivationKind {
    if i == 0 {
        ActivationKind::Tanh
    } else if i == 1 {
        ActivationKind::Relu
    } else if i == 2 {
        ActivationKind::Step
    } else if i == 3 {
        ActivationKind::Logistic
    } else if i == 4 {
        ActivationKind::Identity
    } else if i == 5 {
        ActivationKind::Softsign
    } else if i == 6 {
        ActivationKind::Sinusoid
    } else if i == 7 {
        ActivationKind::Gaussian
    } else if i == 8 {
        ActivationKind::BentIdentity
    } else if i == 9 {
        ActivationKind::Bipolar
    } else if i == 10 {
        ActivationKind::SELU
    } else {
        ActivationKind::Inverse
    }
}

impl ActivationKind {
    /// Maps a draw below `DRAWABLE_ACTIVATIONS` to a kind; every kind but
    /// `Input` has exactly one draw.
    pub fn from_index(i: usize) -> (r: ActivationKind)
        requires
            i < DRAWABLE_ACTIVATIONS,
        ensures
            r == activation_of_index(i as int),
            r != ActivationKind::Input,
    {
        match i {
            0 => ActivationKind::Tanh,
            1 => ActivationKind::Relu,
            2 => ActivationKind::Step,
            3 => ActivationKind::Logistic,
            4 => ActivationKind::Identity,
            5 => ActivationKind::Softsign,
            6 => ActivationKind::Sinusoid,
            7 => ActivationKind::Gaussian,
            8 => ActivationKind::BentIdentity,
            9 => ActivationKind::Bipolar,
            10 => ActivationKind::SELU,
            _ => ActivationKind::Inverse,
        }
    }

    /// A uniformly drawn kind other than `Input`.
    pub fn random() -> (r: ActivationKind)
        ensures
            r != ActivationKind::Input,
            exists|i: int| 0 <= i < DRAWABLE_ACTIVATIONS && r == activation_of_index(i),
    {
        let i = random_index(DRAWABLE_ACTIVATIONS);
        ActivationKind::from_index(i)
    }
}

} // verus!

use crate::random::random_index;
use vstd::prelude::*;

verus! {

/// How a node combines the weighted values that reach it.
#[derive(Debug, Clone, Copy, PartialEq, Eq, Structural, Hash)]
pub enum Aggregation {
    Product,
    Sum,
    Max,
    Min,
    MaxAbs,
    Median,
    Mean,
}

/// Number of aggregations that a random draw chooses from.
pub const DRAWABLE_AGGREGATIONS: usize = 7;

/// The aggregation that the draw `i` stands for.
pub open spec fn aggregation_of_index(i: int) -> Aggregation {
    if i == 0 {
        Aggregation::Product
    } else if i == 1 {
        Aggregation::Sum
    } else if i == 2 {
        Aggregation::Max
    } else if i == 3 {
        Aggregation::Min
    } else if i == 4 {
        Aggregation::MaxAbs
    } else if i == 5 {
        Aggregation::Median
    } else {
        Aggregation::Mean
    }
}

impl Aggregation {
    /// Maps a draw below `DRAWABLE_AGGREGATIONS` to an aggregation.
    pub fn from_index(i: usize) -> (r: Aggregation)
        requires
            i < DRAWABLE_AGGREGATIONS,
        ensures
            r == aggregation_of_index(i as int),
    {
        match i {
            0 => Aggregation::Product,
            1 => Aggregation::Sum,
            2 => Aggregation::Max,
            3 => Aggregation::Min,
            4 => Aggregation::MaxAbs,
            5 => Aggregation::Median,
            _ => Aggregation::Mean,
        }
    }

    /// A uniformly drawn aggregation.
    pub fn random() -> (r: Aggregation)
        ensures
            exists|i: int| 0 <= i < DRAWABLE_AGGREGATIONS && r == aggregation_of_index(i),
    {
        let i = random_index(DRAWABLE_AGGREGATIONS);
        Aggregation::from_index(i)
    }
}

} // verus!

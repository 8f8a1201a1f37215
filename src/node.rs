use vstd::prelude::*;

verus! {

/// The role of a node in a genome or a network.
#[derive(Debug, Clone, Copy, PartialEq, Eq, Structural, Hash)]
pub enum NodeKind {
    Input,
    Hidden,
    Output,
    Constant,
}

impl NodeKind {
    pub fn is_input(&self) -> (r: bool)
        ensures
            r == (*self == NodeKind::Input),
    {
        matches!(self, NodeKind::Input)
    }

    pub fn is_output(&self) -> (r: bool)
        ensures
            r == (*self == NodeKind::Output),
    {
        matches!(self, NodeKind::Output)
    }

    pub fn is_hidden(&self) -> (r: bool)
        ensures
            r == (*self == NodeKind::Hidden),
    {
        matches!(self, NodeKind::Hidden)
    }
}

} // verus!

use crate::genome::{has_pair, ConnectionGene, Genome, NodeGene};
use vstd::prelude::*;

verus! {

/// How two genomes line up: the connections they share (by innovation
/// number, that is by the pair of nodes they join) and how their nodes at
/// the same index differ in kind of computation. The genomic distance is a
/// weighted sum over these counts and the weight and bias differences of the
/// shared genes.
#[derive(Debug, Clone)]
pub struct Alignment {
    /// Index pairs `(i, j)`: connection `i` of the first genome and
    /// connection `j` of the second join the same nodes.
    pub common: Vec<(usize, usize)>,
    /// Connections whose innovation number occurs in one genome only.
    pub disjoint: usize,
    /// Node indices present in both genomes.
    pub shared_nodes: usize,
    /// Shared node indices whose activations differ.
    pub activation_differences: usize,
    /// Shared node indices whose aggregations differ.
    pub aggregation_differences: usize,
}

/// Number of indices below `k` at which the nodes of `a` and `b` differ in
/// activation (when `activation`) or in aggregation (otherwise).
pub open spec fn node_differences<W>(a: Seq<NodeGene<W>>, b: Seq<NodeGene<W>>, k: int, activation: bool) -> nat
    decreases k,
{
    if k <= 0 {
        0
    } else {
        let i = k - 1;
        let differs = if activation {
            a[i].activation != b[i].activation
        } else {
            a[i].aggregation != b[i].aggregation
        };
        node_differences(a, b, i, activation) + if differs {
            1nat
        } else {
            0nat
        }
    }
}

/// Some pair of `pairs` starts with `x`.
pub open spec fn lists_first(pairs: Seq<(usize, usize)>, x: int) -> bool {
    exists|k: int| 0 <= k < pairs.len() && (#[trigger] pairs[k]).0 == x
}

/// Number of connections among the first `k` of `x` whose pair of nodes no
/// connection of `y` joins.
pub open spec fn unmatched<W>(x: Seq<ConnectionGene<W>>, y: Seq<ConnectionGene<W>>, k: int) -> nat
    decreases k,
{
    if k <= 0 {
        0
    } else {
        unmatched(x, y, k - 1) + if has_pair(y, x[k - 1].from as int, x[k - 1].to as int) {
            0nat
        } else {
            1nat
        }
    }
}

impl<W: Copy> Genome<W> {
    /// Counts the connections of `self` whose pair of nodes no connection of
    /// `other` joins.
    fn count_unmatched(&self, other: &Genome<W>) -> (r: usize)
        ensures
            r == unmatched(self.connection_genes@, other.connection_genes@, self.connection_genes@.len() as int),
            r <= self.connection_genes@.len(),
    {
        let mut count: usize = 0;
        let mut i: usize = 0;
        while i < self.connection_genes.len()
            invariant
                i <= self.connection_genes@.len(),
                count <= i,
                count == unmatched(self.connection_genes@, other.connection_genes@, i as int),
            decreases self.connection_genes@.len() - i,
        {
            let c = self.connection_genes[i];
            if other.find_connection(c.from, c.to).is_none() {
                count += 1;
            }
            i += 1;
        }
        count
    }
}

/// Lines up two well-formed genomes.
pub fn align<W: Copy>(a: &Genome<W>, b: &Genome<W>) -> (r: Alignment)
    requires
        a.wf(),
        b.wf(),
        a.connection_genes@.len() + b.connection_genes@.len() <= usize::MAX,
    ensures
        forall|k: int| 0 <= k < r.common@.len() ==> {
            let (i, j) = #[trigger] r.common@[k];
            &&& i < a.connection_genes@.len()
            &&& j < b.connection_genes@.len()
            &&& a.connection_genes@[i as int].from == b.connection_genes@[j as int].from
            &&& a.connection_genes@[i as int].to == b.connection_genes@[j as int].to
        },
        forall|k1: int, k2: int| 0 <= k1 < k2 < r.common@.len() ==> (#[trigger] r.common@[k1]).0 < (#[trigger] r.common@[k2]).0,
        forall|x: int|
            0 <= x < a.connection_genes@.len() && #[trigger] has_pair(
                b.connection_genes@,
                a.connection_genes@[x].from as int,
                a.connection_genes@[x].to as int,
            ) ==> lists_first(r.common@, x),
        r.disjoint == unmatched(a.connection_genes@, b.connection_genes@, a.connection_genes@.len() as int)
            + unmatched(b.connection_genes@, a.connection_genes@, b.connection_genes@.len() as int),
        r.shared_nodes == if a.node_count() < b.node_count() {
            a.node_count()
        } else {
            b.node_count()
        },
        r.activation_differences == node_differences(a.node_genes@, b.node_genes@, r.shared_nodes as int, true),
        r.aggregation_differences == node_differences(a.node_genes@, b.node_genes@, r.shared_nodes as int, false),
{
    let mut common: Vec<(usize, usize)> = Vec::new();
    let mut i: usize = 0;
    while i < a.connection_genes.len()
        invariant
            i <= a.connection_genes@.len(),
            common@.len() <= i,
            forall|k: int| 0 <= k < common@.len() ==> {
                let (x, y) = #[trigger] common@[k];
                &&& x < i
                &&& y < b.connection_genes@.len()
                &&& a.connection_genes@[x as int].from == b.connection_genes@[y as int].from
                &&& a.connection_genes@[x as int].to == b.connection_genes@[y as int].to
            },
            forall|k1: int, k2: int| 0 <= k1 < k2 < common@.len() ==> (#[trigger] common@[k1]).0 < (#[trigger] common@[k2]).0,
            forall|x: int|
                0 <= x < i && #[trigger] has_pair(
                    b.connection_genes@,
                    a.connection_genes@[x].from as int,
                    a.connection_genes@[x].to as int,
                ) ==> exists|k: int| 0 <= k < common@.len() && (#[trigger] common@[k]).0 == x,
        decreases a.connection_genes@.len() - i,
    {
        let c = a.connection_genes[i];
        let ghost before = common@;
        match b.find_connection(c.from, c.to) {
            Some(j) => {
                common.push((i, j));
                proof {
                    assert(common@[before.len() as int] == (i, j));
                }
            },
            None => {},
        }
        proof {
            assert forall|x: int|
                0 <= x < i + 1 && #[trigger] has_pair(
                    b.connection_genes@,
                    a.connection_genes@[x].from as int,
                    a.connection_genes@[x].to as int,
                ) implies exists|k: int| 0 <= k < common@.len() && (#[trigger] common@[k]).0 == x by {
                if x < i {
                    let k = choose|k: int| 0 <= k < before.len() && (#[trigger] before[k]).0 == x;
                    assert(common@[k] == before[k]);
                } else {
                    assert(common@[before.len() as int].0 == x);
                }
            }
        }
        i += 1;
    }
    assert forall|x: int|
        0 <= x < a.connection_genes@.len() && #[trigger] has_pair(
            b.connection_genes@,
            a.connection_genes@[x].from as int,
            a.connection_genes@[x].to as int,
        ) implies lists_first(common@, x) by {}
    let disjoint = a.count_unmatched(b) + b.count_unmatched(a);
    let shared = if a.node_genes.len() < b.node_genes.len() {
        a.node_genes.len()
    } else {
        b.node_genes.len()
    };
    let mut activation_differences: usize = 0;
    let mut aggregation_differences: usize = 0;
    let mut v: usize = 0;
    while v < shared
        invariant
            v <= shared,
            shared <= a.node_genes@.len(),
            shared <= b.node_genes@.len(),
            activation_differences == node_differences(a.node_genes@, b.node_genes@, v as int, true),
            aggregation_differences == node_differences(a.node_genes@, b.node_genes@, v as int, false),
            activation_differences <= v,
            aggregation_differences <= v,
        decreases shared - v,
    {
        if a.node_genes[v].activation != b.node_genes[v].activation {
            activation_differences += 1;
        }
        if a.node_genes[v].aggregation != b.node_genes[v].aggregation {
            aggregation_differences += 1;
        }
        v += 1;
    }
    Alignment {
        common,
        disjoint,
        shared_nodes: shared,
        activation_differences,
        aggregation_differences,
    }
}

} // verus!

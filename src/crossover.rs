use crate::activation::ActivationKind;
use crate::genome::{has_pair, ConnectionGene, Genome};
use crate::random::coin;
use vstd::prelude::*;

verus! {

/// One more than the largest node index that `edges` mention (0 for none).
pub open spec fn max_endpoint<W>(edges: Seq<ConnectionGene<W>>) -> nat
    decreases edges.len(),
{
    if edges.len() == 0 {
        0
    } else {
        let c = edges.last();
        let rest = max_endpoint(edges.drop_last());
        let here: nat = if c.from > c.to {
            (c.from + 1) as nat
        } else {
            (c.to + 1) as nat
        };
        if rest > here {
            rest
        } else {
            here
        }
    }
}

/// Every edge of `edges` joins nodes below `max_endpoint(edges)`.
proof fn lemma_max_endpoint<W>(edges: Seq<ConnectionGene<W>>)
    ensures
        forall|k: int|
            0 <= k < edges.len() ==> (#[trigger] edges[k]).from < max_endpoint(edges) && edges[k].to
                < max_endpoint(edges),
    decreases edges.len(),
{
    if edges.len() > 0 {
        let rest = edges.drop_last();
        lemma_max_endpoint(rest);
        assert forall|k: int| 0 <= k < edges.len() implies (#[trigger] edges[k]).from < max_endpoint(edges)
            && edges[k].to < max_endpoint(edges) by {
            if k < edges.len() - 1 {
                assert(edges[k] == rest[k]);
            } else {
                assert(edges[k] == edges.last());
            }
        }
    }
}

/// `child` recombines `fitter` and `other`: it has the layout of `fitter`,
/// one connection for each connection of `fitter`, in the same order, taken
/// from `fitter` or from the connection of `other` between the same nodes
/// (the one with the same innovation number), and as many nodes as those
/// connections and the layout need, each taken from either parent at the
/// same index.
pub open spec fn recombines<W>(child: Genome<W>, fitter: Genome<W>, other: Genome<W>) -> bool {
    let a = fitter.connection_genes@;
    let b = other.connection_genes@;
    &&& child.inputs == fitter.inputs
    &&& child.outputs == fitter.outputs
    &&& child.connection_genes@.len() == a.len()
    &&& forall|i: int|
        #![trigger child.connection_genes@[i]]
        0 <= i < a.len() ==> child.connection_genes@[i] == a[i] || exists|j: int|
            #![trigger b[j]]
            0 <= j < b.len() && b[j].from == a[i].from && b[j].to == a[i].to && child.connection_genes@[i] == b[j]
    &&& child.node_count() == if max_endpoint(a) > fitter.inputs + fitter.outputs {
        max_endpoint(a)
    } else {
        (fitter.inputs + fitter.outputs) as nat
    }
    &&& forall|v: int|
        #![trigger child.node_genes@[v]]
        0 <= v < child.node_count() ==> child.node_genes@[v] == fitter.node_genes@[v] || (v
            < other.node_count() && child.node_genes@[v] == other.node_genes@[v])
}

/// Recombines two parents of the same layout, `fitter` being the fitter
/// one, along given choices: connection `i` of `fitter` is replaced by the
/// connection of `other` between the same nodes exactly when
/// `other_connection[i]` holds and `other` has one; node `v` is taken from
/// `other` exactly when `other_node[v]` holds and `other` has a node `v`.
/// The result is well-formed but for acyclicity, which mixing the disabled
/// flags of the parents may break.
pub fn recombine_with<W: Copy>(
    fitter: &Genome<W>,
    other: &Genome<W>,
    other_connection: &Vec<bool>,
    other_node: &Vec<bool>,
) -> (child: Genome<W>)
    requires
        fitter.wf(),
        other.wf(),
        fitter.inputs == other.inputs,
        fitter.outputs == other.outputs,
    ensures
        recombines(child, *fitter, *other),
        forall|i: int|
            0 <= i < child.connection_genes@.len() ==> {
                let c = fitter.connection_genes@[i];
                if i < other_connection@.len() && other_connection@[i] && has_pair(
                    other.connection_genes@,
                    c.from as int,
                    c.to as int,
                ) {
                    exists|j: int|
                        #![trigger other.connection_genes@[j]]
                        0 <= j < other.connection_genes@.len() && other.connection_genes@[j].from == c.from
                            && other.connection_genes@[j].to == c.to && #[trigger] child.connection_genes@[i]
                            == other.connection_genes@[j]
                } else {
                    child.connection_genes@[i] == c
                }
            },
        forall|v: int|
            0 <= v < child.node_count() ==> #[trigger] child.node_genes@[v] == if v < other.node_count() && v
                < other_node@.len() && other_node@[v] {
                other.node_genes@[v]
            } else {
                fitter.node_genes@[v]
            },
        child.nodes_wf(),
        forall|i: int| 0 <= i < child.connection_genes@.len() ==> #[trigger] child.connection_wf(i),
        child.pairs_unique(),
{
    let a = &fitter.connection_genes;
    let b = &other.connection_genes;
    let mut connection_genes: Vec<ConnectionGene<W>> = Vec::new();
    let mut i: usize = 0;
    while i < a.len()
        invariant
            a@ == fitter.connection_genes@,
            b@ == other.connection_genes@,
            i <= a@.len(),
            connection_genes@.len() == i,
            forall|k: int|
                #![trigger connection_genes@[k]]
                0 <= k < i ==> connection_genes@[k] == a@[k] || exists|j: int|
                    #![trigger b@[j]]
                    0 <= j < b@.len() && b@[j].from == a@[k].from && b@[j].to == a@[k].to && connection_genes@[k]
                        == b@[j],
            forall|k: int|
                0 <= k < i ==> {
                    let c = a@[k];
                    if k < other_connection@.len() && other_connection@[k] && has_pair(b@, c.from as int, c.to as int) {
                        exists|j: int|
                            #![trigger b@[j]]
                            0 <= j < b@.len() && b@[j].from == c.from && b@[j].to == c.to && #[trigger] connection_genes@[k]
                                == b@[j]
                    } else {
                        connection_genes@[k] == c
                    }
                },
        decreases a@.len() - i,
    {
        let c = a[i];
        let found = other.find_connection(c.from, c.to);
        let mut chosen = c;
        if found.is_some() {
            let j = found.unwrap();
            if i < other_connection.len() && other_connection[i] {
                chosen = b[j];
                assert(b@[j as int].from == a@[i as int].from && b@[j as int].to == a@[i as int].to && chosen == b@[j as int]);
            }
        }
        let ghost prev = connection_genes@;
        connection_genes.push(chosen);
        proof {
            assert forall|k: int|
                #![trigger connection_genes@[k]]
                0 <= k < i + 1 implies connection_genes@[k] == a@[k] || exists|j: int|
                    #![trigger b@[j]]
                    0 <= j < b@.len() && b@[j].from == a@[k].from && b@[j].to == a@[k].to && connection_genes@[k]
                        == b@[j] by {
                if k < i {
                    assert(prev[k] == connection_genes@[k]);
                }
            }
            assert forall|k: int|
                0 <= k < i + 1 implies {
                    let c = a@[k];
                    if k < other_connection@.len() && other_connection@[k] && has_pair(b@, c.from as int, c.to as int) {
                        exists|j: int|
                            #![trigger b@[j]]
                            0 <= j < b@.len() && b@[j].from == c.from && b@[j].to == c.to && #[trigger] connection_genes@[k]
                                == b@[j]
                    } else {
                        connection_genes@[k] == c
                    }
                } by {
                if k < i {
                    assert(prev[k] == connection_genes@[k]);
                    let c = a@[k];
                    if k < other_connection@.len() && other_connection@[k] && has_pair(b@, c.from as int, c.to as int) {
                        let j = choose|j: int|
                            #![trigger b@[j]]
                            0 <= j < b@.len() && b@[j].from == c.from && b@[j].to == c.to && #[trigger] prev[k] == b@[j];
                        assert(connection_genes@[k] == b@[j]);
                    }
                } else if found.is_some() && i < other_connection@.len() && other_connection@[i as int] {
                    let j = found->0 as int;
                    assert(connection_genes@[k] == b@[j]);
                }
            }
        }
        i += 1;
    }
    let n = fitter.node_genes.len();
    let layout = fitter.inputs + fitter.outputs;
    let mut required: usize = layout;
    let mut k: usize = 0;
    proof {
        fitter.lemma_wf_in_range();
        lemma_max_endpoint(a@);
    }
    while k < a.len()
        invariant
            a@ == fitter.connection_genes@,
            k <= a@.len(),
            fitter.connections_in_range(),
            n == fitter.node_count(),
            layout == fitter.inputs + fitter.outputs,
            layout <= fitter.node_count(),
            required <= fitter.node_count(),
            required == if max_endpoint(a@.subrange(0, k as int)) > layout {
                max_endpoint(a@.subrange(0, k as int))
            } else {
                layout as nat
            },
        decreases a@.len() - k,
    {
        let c = a[k];
        proof {
            assert(a@.subrange(0, k + 1).drop_last() =~= a@.subrange(0, k as int));
            assert(a@.subrange(0, k + 1).last() == c);
        }
        if c.from + 1 > required {
            required = c.from + 1;
        }
        if c.to + 1 > required {
            required = c.to + 1;
        }
        k += 1;
    }
    assert(a@.subrange(0, k as int) =~= a@);
    let mut node_genes = Vec::new();
    let mut v: usize = 0;
    while v < required
        invariant
            v <= required,
            required <= fitter.node_count(),
            node_genes@.len() == v,
            forall|u: int|
                #![trigger node_genes@[u]]
                0 <= u < v ==> node_genes@[u] == fitter.node_genes@[u] || (u < other.node_count()
                    && node_genes@[u] == other.node_genes@[u]),
            forall|u: int|
                0 <= u < v ==> #[trigger] node_genes@[u] == if u < other.node_count() && u < other_node@.len()
                    && other_node@[u] {
                    other.node_genes@[u]
                } else {
                    fitter.node_genes@[u]
                },
        decreases required - v,
    {
        let take_other = v < other.node_genes.len() && v < other_node.len() && other_node[v];
        let node = if take_other {
            other.node_genes[v]
        } else {
            fitter.node_genes[v]
        };
        node_genes.push(node);
        v += 1;
    }
    let child = Genome { inputs: fitter.inputs, outputs: fitter.outputs, node_genes, connection_genes };
    proof {
        assert forall|u: int|
            #![trigger child.node_genes@[u]]
            0 <= u < child.node_count() implies child.node_genes@[u].kind == child.layout_kind(u) && ((
            child.node_genes@[u].activation == ActivationKind::Input) == (u < child.inputs)) by {
            if child.node_genes@[u] == fitter.node_genes@[u] {
                assert(fitter.node_genes@[u].kind == fitter.layout_kind(u));
            } else {
                assert(other.node_genes@[u].kind == other.layout_kind(u));
            }
        }
        assert forall|i: int| 0 <= i < child.connection_genes@.len() implies #[trigger] child.connection_wf(i) by {
            assert(fitter.connection_wf(i));
            let e = a@[i];
            assert(child.node_genes@[e.from as int].kind == fitter.node_genes@[e.from as int].kind);
            assert(child.node_genes@[e.to as int].kind == fitter.node_genes@[e.to as int].kind);
        }
    }
    child
}

/// Draws a recombination of two parents of the same layout, `fitter`
/// being the fitter one (either, when they are equally fit): where both
/// have a gene, each is taken on a fair coin; otherwise the gene of
/// `fitter` is taken.
pub fn recombine<W: Copy>(fitter: &Genome<W>, other: &Genome<W>) -> (child: Genome<W>)
    requires
        fitter.wf(),
        other.wf(),
        fitter.inputs == other.inputs,
        fitter.outputs == other.outputs,
    ensures
        recombines(child, *fitter, *other),
        child.nodes_wf(),
        forall|i: int| 0 <= i < child.connection_genes@.len() ==> #[trigger] child.connection_wf(i),
        child.pairs_unique(),
{
    let mut other_connection: Vec<bool> = Vec::new();
    let mut i: usize = 0;
    while i < fitter.connection_genes.len()
        decreases fitter.connection_genes@.len() - i,
    {
        other_connection.push(coin());
        i += 1;
    }
    let mut other_node: Vec<bool> = Vec::new();
    let mut v: usize = 0;
    while v < fitter.node_genes.len()
        decreases fitter.node_genes@.len() - v,
    {
        other_node.push(coin());
        v += 1;
    }
    recombine_with(fitter, other, &other_connection, &other_node)
}

/// Recombines two parents of the same layout, `fitter` being the fitter
/// one, and keeps the child only when its enabled connections form no
/// cycle.
pub fn crossover<W: Copy>(fitter: &Genome<W>, other: &Genome<W>) -> (r: Option<Genome<W>>)
    requires
        fitter.wf(),
        other.wf(),
        fitter.inputs == other.inputs,
        fitter.outputs == other.outputs,
    ensures
        r is Some ==> r->0.wf() && recombines(r->0, *fitter, *other),
        r is None ==> exists|c: Genome<W>| recombines(c, *fitter, *other) && !c.acyclic(),
{
    let child = recombine(fitter, other);
    proof {
        assert forall|j: int| 0 <= j < child.connection_genes@.len() implies #[trigger] child.connection_genes@[j].from
            < child.node_count() && child.connection_genes@[j].to < child.node_count() by {
            assert(child.connection_wf(j));
        }
    }
    if child.node_order().is_some() {
        Some(child)
    } else {
        None
    }
}

} // verus!

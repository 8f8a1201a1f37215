use crate::activation::ActivationKind;
use crate::aggregations::Aggregation;
use crate::genome::{ConnectionGene, Genome, NodeGene};
use crate::node::NodeKind;
use vstd::prelude::*;

verus! {

/// A node of a compiled network, with the value that a forward pass gives
/// it (`None` before the pass reaches it).
#[derive(Debug, Clone, Copy)]
pub struct Node<W> {
    pub kind: NodeKind,
    pub aggregation: Aggregation,
    pub activation: ActivationKind,
    pub bias: W,
    pub value: Option<W>,
}

/// An enabled connection of a compiled network.
#[derive(Debug, Clone, Copy)]
pub struct Connection<W> {
    pub from: usize,
    pub to: usize,
    pub weight: W,
}

/// A genome compiled for evaluation: its nodes at the same indices, its
/// enabled connections, and an order in which every node follows its
/// sources.
#[derive(Debug, Clone)]
pub struct Network<W> {
    pub input_count: usize,
    pub output_count: usize,
    pub nodes: Vec<Node<W>>,
    pub connections: Vec<Connection<W>>,
    pub node_calculation_order: Vec<usize>,
}

/// The network node that a node gene compiles to.
pub open spec fn node_of<W>(g: NodeGene<W>) -> Node<W> {
    Node { kind: g.kind, aggregation: g.aggregation, activation: g.activation, bias: g.bias, value: None }
}

/// The node with its value forgotten.
pub open spec fn cleared<W>(n: Node<W>) -> Node<W> {
    Node { value: None, ..n }
}

/// The enabled connection genes of `edges`, in order, as network
/// connections.
pub open spec fn enabled_connections<W>(edges: Seq<ConnectionGene<W>>) -> Seq<Connection<W>>
    decreases edges.len(),
{
    if edges.len() == 0 {
        Seq::empty()
    } else {
        let rest = enabled_connections(edges.drop_last());
        let c = edges.last();
        if c.disabled {
            rest
        } else {
            rest.push(Connection { from: c.from, to: c.to, weight: c.weight })
        }
    }
}

/// `n` is a compilation of `g`: the same counts, every node gene as a
/// node, the enabled connections in order, and the node order that the
/// ordering passes give.
pub open spec fn compiles_to<W>(g: Genome<W>, n: Network<W>) -> bool {
    &&& n.input_count == g.inputs
    &&& n.output_count == g.outputs
    &&& n.nodes@ == g.node_genes@.map_values(|x: NodeGene<W>| node_of(x))
    &&& n.connections@ == enabled_connections(g.connection_genes@)
    &&& g.is_node_order(Seq::empty(), n.node_calculation_order@)
    &&& n.node_calculation_order@ == g.pass_order(Seq::empty())
}

/// Compilation is deterministic: two compilations of one genome have the
/// same nodes, connections and evaluation order, so a forward pass sees the
/// same network twice.
pub proof fn lemma_compilations_agree<W>(g: Genome<W>, a: Network<W>, b: Network<W>)
    requires
        compiles_to(g, a),
        compiles_to(g, b),
    ensures
        a.input_count == b.input_count,
        a.output_count == b.output_count,
        a.nodes@ == b.nodes@,
        a.connections@ == b.connections@,
        a.node_calculation_order@ == b.node_calculation_order@,
{
}

/// Every connection of `enabled_connections(edges)` comes from an enabled
/// connection gene between the same nodes.
proof fn lemma_enabled_connections_origin<W>(edges: Seq<ConnectionGene<W>>)
    ensures
        forall|c: int|
            0 <= c < enabled_connections(edges).len() ==> exists|i: int|
                0 <= i < edges.len() && !edges[i].disabled && edges[i].from == (#[trigger] enabled_connections(
                    edges,
                )[c]).from && edges[i].to == enabled_connections(edges)[c].to,
    decreases edges.len(),
{
    if edges.len() > 0 {
        let rest = edges.drop_last();
        lemma_enabled_connections_origin(rest);
        let ec = enabled_connections(edges);
        assert forall|c: int| 0 <= c < ec.len() implies exists|i: int|
            0 <= i < edges.len() && !edges[i].disabled && edges[i].from == (#[trigger] ec[c]).from && edges[i].to
                == ec[c].to by {
            if c < enabled_connections(rest).len() {
                let i = choose|i: int|
                    0 <= i < rest.len() && !rest[i].disabled && rest[i].from == enabled_connections(rest)[c].from
                        && rest[i].to == enabled_connections(rest)[c].to;
                assert(edges[i] == rest[i]);
            } else {
                assert(edges[edges.len() - 1] == edges.last());
            }
        }
    }
}

impl<W> Network<W> {
    /// The kind that the layout gives node `v`: inputs, then outputs, then
    /// hidden nodes.
    pub open spec fn layout_kind(&self, v: int) -> NodeKind {
        if v < self.input_count {
            NodeKind::Input
        } else if v < self.input_count + self.output_count {
            NodeKind::Output
        } else {
            NodeKind::Hidden
        }
    }

    /// The nodes follow the layout, the order lists every node, and every
    /// connection joins two nodes, its source placed before its target
    /// unless the target is an input.
    pub open spec fn wf(&self) -> bool {
        let n = self.nodes@.len();
        let o = self.node_calculation_order@;
        &&& self.input_count + self.output_count <= n
        &&& forall|v: int| 0 <= v < n ==> #[trigger] self.nodes@[v].kind == self.layout_kind(v)
        &&& o.len() == n
        &&& o.no_duplicates()
        &&& forall|a: int| 0 <= a < o.len() ==> #[trigger] o[a] < n
        &&& forall|v: usize| v < n ==> #[trigger] o.contains(v)
        &&& forall|c: int|
            0 <= c < self.connections@.len() ==> #[trigger] self.connections@[c].from < n
                && self.connections@[c].to < n
        &&& forall|c: int, a: int, b: int|
            #![trigger self.connections@[c], o[a], o[b]]
            0 <= c < self.connections@.len() && 0 <= a < n && 0 <= b < n && o[a] == self.connections@[c].from
                && o[b] == self.connections@[c].to && self.nodes@[self.connections@[c].to as int].kind
                != NodeKind::Input ==> a < b
    }
}

/// Compiling a well-formed genome gives a well-formed network.
pub proof fn lemma_compiled_wf<W>(g: Genome<W>, n: Network<W>)
    requires
        g.wf(),
        compiles_to(g, n),
    ensures
        n.wf(),
{
    lemma_enabled_connections_origin(g.connection_genes@);
    let count = n.nodes@.len();
    assert forall|v: int| 0 <= v < count implies #[trigger] n.nodes@[v].kind == n.layout_kind(v) by {
        assert(n.nodes@[v] == node_of(g.node_genes@[v]));
        assert(g.node_genes@[v].kind == g.layout_kind(v));
    }
    assert forall|c: int|
        0 <= c < n.connections@.len() implies #[trigger] n.connections@[c].from < count && n.connections@[c].to
        < count by {
        let i = choose|i: int|
            0 <= i < g.connection_genes@.len() && !g.connection_genes@[i].disabled && g.connection_genes@[i].from
                == enabled_connections(g.connection_genes@)[c].from && g.connection_genes@[i].to
                == enabled_connections(g.connection_genes@)[c].to;
        assert(g.connection_wf(i));
    }
    let o = n.node_calculation_order@;
    assert forall|c: int, a: int, b: int|
        #![trigger n.connections@[c], o[a], o[b]]
        0 <= c < n.connections@.len() && 0 <= a < count && 0 <= b < count && o[a] == n.connections@[c].from
            && o[b] == n.connections@[c].to && n.nodes@[n.connections@[c].to as int].kind != NodeKind::Input
            implies a < b by {
        let i = choose|i: int|
            0 <= i < g.connection_genes@.len() && !g.connection_genes@[i].disabled && g.connection_genes@[i].from
                == enabled_connections(g.connection_genes@)[c].from && g.connection_genes@[i].to
                == enabled_connections(g.connection_genes@)[c].to;
        assert(g.connection_wf(i));
        assert(g.enabled(i));
        assert(n.nodes@[n.connections@[c].to as int] == node_of(g.node_genes@[n.connections@[c].to as int]));
    }
}

/// `xs` are the contributions to node `v`: for each connection into `v`,
/// in order, `multiply` of its source's value and its weight.
pub open spec fn contributions<W, M: Fn(W, W) -> W>(
    conns: Seq<Connection<W>>,
    nodes: Seq<Node<W>>,
    v: usize,
    xs: Seq<W>,
    multiply: M,
) -> bool
    decreases conns.len(),
{
    if conns.len() == 0 {
        xs.len() == 0
    } else {
        let c = conns.last();
        if c.to == v {
            &&& xs.len() > 0
            &&& contributions(conns.drop_last(), nodes, v, xs.drop_last(), multiply)
            &&& nodes[c.from as int].value is Some
            &&& multiply.ensures((nodes[c.from as int].value->0, c.weight), xs.last())
        } else {
            contributions(conns.drop_last(), nodes, v, xs, multiply)
        }
    }
}

/// Node `v` of `net` holds the value that the forward pass gives it:
/// `activate(aggregate(its aggregation, its contributions), bias,
/// activation)`.
pub open spec fn evaluated<
    W,
    M: Fn(W, W) -> W,
    A: Fn(Aggregation, Vec<W>) -> W,
    T: Fn(W, W, ActivationKind) -> W,
>(net: Network<W>, v: int, multiply: M, aggregate: A, activate: T) -> bool {
    let node = net.nodes@[v];
    &&& node.value is Some
    &&& exists|xs: Vec<W>, a: W|
        contributions(net.connections@, net.nodes@, v as usize, xs@, multiply) && #[trigger] aggregate.ensures(
            (node.aggregation, xs),
            a,
        ) && activate.ensures((a, node.bias, node.activation), node.value->0)
}

/// Contributions depend only on the values of the sources.
proof fn lemma_contributions_frame<W, M: Fn(W, W) -> W>(
    conns: Seq<Connection<W>>,
    n1: Seq<Node<W>>,
    n2: Seq<Node<W>>,
    v: usize,
    xs: Seq<W>,
    multiply: M,
)
    requires
        contributions(conns, n1, v, xs, multiply),
        forall|c: int| 0 <= c < conns.len() && (#[trigger] conns[c]).to == v ==> n1[conns[c].from as int].value
            == n2[conns[c].from as int].value,
    ensures
        contributions(conns, n2, v, xs, multiply),
    decreases conns.len(),
{
    if conns.len() > 0 {
        let rest = conns.drop_last();
        assert forall|c: int| 0 <= c < rest.len() && (#[trigger] rest[c]).to == v implies n1[rest[c].from as int].value
            == n2[rest[c].from as int].value by {
            assert(rest[c] == conns[c]);
        }
        assert(conns.last() == conns[conns.len() - 1]);
        if conns.last().to == v {
            lemma_contributions_frame(rest, n1, n2, v, xs.drop_last(), multiply);
        } else {
            lemma_contributions_frame(rest, n1, n2, v, xs, multiply);
        }
    }
}

/// `multiply`, `aggregate` and `activate` are functions: equal arguments
/// give equal results.
pub open spec fn deterministic<
    W,
    M: Fn(W, W) -> W,
    A: Fn(Aggregation, Vec<W>) -> W,
    T: Fn(W, W, ActivationKind) -> W,
>(multiply: M, aggregate: A, activate: T) -> bool {
    &&& forall|x: W, y: W, r1: W, r2: W|
        #[trigger] multiply.ensures((x, y), r1) && #[trigger] multiply.ensures((x, y), r2) ==> r1 == r2
    &&& forall|k: Aggregation, xs1: Vec<W>, xs2: Vec<W>, r1: W, r2: W|
        xs1@ == xs2@ && #[trigger] aggregate.ensures((k, xs1), r1) && #[trigger] aggregate.ensures((k, xs2), r2)
            ==> r1 == r2
    &&& forall|x: W, b: W, k: ActivationKind, r1: W, r2: W|
        #[trigger] activate.ensures((x, b, k), r1) && #[trigger] activate.ensures((x, b, k), r2) ==> r1 == r2
}

/// Contributions computed from equal source values are equal.
proof fn lemma_contributions_equal<W, M: Fn(W, W) -> W>(
    conns: Seq<Connection<W>>,
    n1: Seq<Node<W>>,
    n2: Seq<Node<W>>,
    v: usize,
    xs1: Seq<W>,
    xs2: Seq<W>,
    multiply: M,
)
    requires
        contributions(conns, n1, v, xs1, multiply),
        contributions(conns, n2, v, xs2, multiply),
        forall|x: W, y: W, r1: W, r2: W|
            #[trigger] multiply.ensures((x, y), r1) && #[trigger] multiply.ensures((x, y), r2) ==> r1 == r2,
        forall|c: int| 0 <= c < conns.len() && (#[trigger] conns[c]).to == v ==> n1[conns[c].from as int].value
            == n2[conns[c].from as int].value,
    ensures
        xs1 == xs2,
    decreases conns.len(),
{
    if conns.len() > 0 {
        let rest = conns.drop_last();
        assert forall|c: int| 0 <= c < rest.len() && (#[trigger] rest[c]).to == v implies n1[rest[c].from as int].value
            == n2[rest[c].from as int].value by {
            assert(rest[c] == conns[c]);
        }
        assert(conns.last() == conns[conns.len() - 1]);
        if conns.last().to == v {
            lemma_contributions_equal(rest, n1, n2, v, xs1.drop_last(), xs2.drop_last(), multiply);
            assert(xs1 =~= xs1.drop_last().push(xs1.last()));
            assert(xs2 =~= xs2.drop_last().push(xs2.last()));
        } else {
            lemma_contributions_equal(rest, n1, n2, v, xs1, xs2, multiply);
        }
    } else {
        assert(xs1 =~= xs2);
    }
}

/// Every node placed before position `b` of the order has the same value
/// in both networks.
proof fn lemma_values_agree_below<
    W,
    M: Fn(W, W) -> W,
    A: Fn(Aggregation, Vec<W>) -> W,
    T: Fn(W, W, ActivationKind) -> W,
>(n1: Network<W>, n2: Network<W>, multiply: M, aggregate: A, activate: T, b: int)
    requires
        n1.wf(),
        n1.connections@ == n2.connections@,
        n1.node_calculation_order@ == n2.node_calculation_order@,
        n1.input_count == n2.input_count,
        n1.nodes@.len() == n2.nodes@.len(),
        forall|v: int| 0 <= v < n1.nodes@.len() ==> #[trigger] cleared(n1.nodes@[v]) == cleared(n2.nodes@[v]),
        forall|v: int| 0 <= v < n1.input_count ==> #[trigger] n1.nodes@[v].value == n2.nodes@[v].value,
        forall|v: int|
            n1.input_count <= v < n1.nodes@.len() ==> #[trigger] evaluated(n1, v, multiply, aggregate, activate)
                && evaluated(n2, v, multiply, aggregate, activate),
        deterministic(multiply, aggregate, activate),
        0 <= b <= n1.nodes@.len(),
    ensures
        forall|x: int| 0 <= x < b ==> #[trigger] n1.nodes@[n1.node_calculation_order@[x] as int].value
            == n2.nodes@[n1.node_calculation_order@[x] as int].value,
    decreases b,
{
    if b > 0 {
        lemma_values_agree_below(n1, n2, multiply, aggregate, activate, b - 1);
        let order = n1.node_calculation_order@;
        let v = order[b - 1];
        if v >= n1.input_count {
            assert(n1.nodes@[v as int].kind != NodeKind::Input);
            let conns = n1.connections@;
            assert forall|c: int| 0 <= c < conns.len() && (#[trigger] conns[c]).to == v implies n1.nodes@[conns[c].from as int].value
                == n2.nodes@[conns[c].from as int].value by {
                let f = conns[c].from;
                assert(order.contains(f));
                let x = choose|x: int| 0 <= x < order.len() && order[x] == f;
                assert(order[x] == conns[c].from && order[b - 1] == conns[c].to);
                assert(n1.nodes@[order[x] as int].value == n2.nodes@[order[x] as int].value);
            }
            assert(evaluated(n1, v as int, multiply, aggregate, activate));
            assert(evaluated(n2, v as int, multiply, aggregate, activate));
            let node1 = n1.nodes@[v as int];
            let node2 = n2.nodes@[v as int];
            assert(cleared(node1) == cleared(node2));
            let (xs1, a1) = choose|xs: Vec<W>, a: W|
                contributions(conns, n1.nodes@, v, xs@, multiply) && #[trigger] aggregate.ensures((node1.aggregation, xs), a)
                    && activate.ensures((a, node1.bias, node1.activation), node1.value->0);
            let (xs2, a2) = choose|xs: Vec<W>, a: W|
                contributions(conns, n2.nodes@, v, xs@, multiply) && #[trigger] aggregate.ensures((node2.aggregation, xs), a)
                    && activate.ensures((a, node2.bias, node2.activation), node2.value->0);
            lemma_contributions_equal(conns, n1.nodes@, n2.nodes@, v, xs1@, xs2@, multiply);
            assert(node1.aggregation == node2.aggregation && node1.bias == node2.bias && node1.activation == node2.activation);
            assert(a1 == a2);
            assert(node1.value->0 == node2.value->0);
        }
    }
}

/// Compile-then-evaluate is deterministic: two networks that agree on
/// everything but node values, evaluated from the same inputs with
/// functional arithmetic, end with the same value at every node, so their
/// forward passes return the same outputs.
pub proof fn lemma_forward_pass_deterministic<
    W,
    M: Fn(W, W) -> W,
    A: Fn(Aggregation, Vec<W>) -> W,
    T: Fn(W, W, ActivationKind) -> W,
>(n1: Network<W>, n2: Network<W>, multiply: M, aggregate: A, activate: T)
    requires
        n1.wf(),
        n1.connections@ == n2.connections@,
        n1.node_calculation_order@ == n2.node_calculation_order@,
        n1.input_count == n2.input_count,
        n1.nodes@.len() == n2.nodes@.len(),
        forall|v: int| 0 <= v < n1.nodes@.len() ==> #[trigger] cleared(n1.nodes@[v]) == cleared(n2.nodes@[v]),
        forall|v: int| 0 <= v < n1.input_count ==> #[trigger] n1.nodes@[v].value == n2.nodes@[v].value,
        forall|v: int|
            n1.input_count <= v < n1.nodes@.len() ==> #[trigger] evaluated(n1, v, multiply, aggregate, activate)
                && evaluated(n2, v, multiply, aggregate, activate),
        deterministic(multiply, aggregate, activate),
        n1.nodes@.len() <= usize::MAX,
    ensures
        forall|v: int| 0 <= v < n1.nodes@.len() ==> #[trigger] n1.nodes@[v].value == n2.nodes@[v].value,
{
    lemma_values_agree_below(n1, n2, multiply, aggregate, activate, n1.nodes@.len() as int);
    assert forall|v: int| 0 <= v < n1.nodes@.len() implies #[trigger] n1.nodes@[v].value == n2.nodes@[v].value by {
        assert(n1.node_calculation_order@.contains(v as usize));
        let x = choose|x: int| 0 <= x < n1.nodes@.len() && n1.node_calculation_order@[x] == v as usize;
        assert(n1.nodes@[n1.node_calculation_order@[x] as int].value == n2.nodes@[n1.node_calculation_order@[x] as int].value);
    }
}

impl<W: Copy> Node<W> {
    pub fn from_gene(g: &NodeGene<W>) -> (r: Self)
        ensures
            r == node_of(*g),
    {
        Node { kind: g.kind, aggregation: g.aggregation, activation: g.activation, bias: g.bias, value: None }
    }
}

impl<W: Copy> Network<W> {
    /// Compiles a genome: every node gene, the enabled connection genes,
    /// and a node order. `None` exactly when the enabled connections close a
    /// cycle, which never happens for a well-formed genome.
    pub fn from_genome(g: &Genome<W>) -> (r: Option<Self>)
        requires
            g.connections_in_range(),
        ensures
            r is Some <==> g.acyclic(),
            g.wf() ==> r is Some && r->0.wf(),
            r is Some ==> compiles_to(*g, r->0),
    {
        let order = match g.node_order() {
            Some(o) => o,
            None => {
                return None;
            },
        };
        let mut nodes: Vec<Node<W>> = Vec::new();
        let mut v: usize = 0;
        while v < g.node_genes.len()
            invariant
                v <= g.node_genes@.len(),
                nodes@ == g.node_genes@.subrange(0, v as int).map_values(|x: NodeGene<W>| node_of(x)),
            decreases g.node_genes@.len() - v,
        {
            nodes.push(Node::from_gene(&g.node_genes[v]));
            v += 1;
            assert(g.node_genes@.subrange(0, v as int).map_values(|x: NodeGene<W>| node_of(x))
                =~= g.node_genes@.subrange(0, v - 1).map_values(|x: NodeGene<W>| node_of(x)).push(
                node_of(g.node_genes@[v - 1]),
            ));
        }
        assert(g.node_genes@.subrange(0, v as int) =~= g.node_genes@);
        let mut connections: Vec<Connection<W>> = Vec::new();
        let mut i: usize = 0;
        while i < g.connection_genes.len()
            invariant
                i <= g.connection_genes@.len(),
                connections@ == enabled_connections(g.connection_genes@.subrange(0, i as int)),
            decreases g.connection_genes@.len() - i,
        {
            let c = g.connection_genes[i];
            proof {
                assert(g.connection_genes@.subrange(0, i + 1).drop_last() =~= g.connection_genes@.subrange(0, i as int));
            }
            if !c.disabled {
                connections.push(Connection { from: c.from, to: c.to, weight: c.weight });
            }
            i += 1;
        }
        assert(g.connection_genes@.subrange(0, i as int) =~= g.connection_genes@);
        let network = Network {
            input_count: g.inputs,
            output_count: g.outputs,
            nodes,
            connections,
            node_calculation_order: order,
        };
        proof {
            if g.wf() {
                lemma_compiled_wf(*g, network);
            }
        }
        Some(network)
    }

    /// One forward pass: every value is forgotten, input node `v` takes
    /// `inputs[v]`, and every other node, in the network's order, takes
    /// `activate(aggregate(its aggregation, contributions), bias,
    /// activation)`, where the contributions are `multiply(source value,
    /// weight)` over its incoming connections in order. Every source has its
    /// value by then. Returns the values of the output nodes in order.
    pub fn forward_pass<
        M: Fn(W, W) -> W,
        A: Fn(Aggregation, Vec<W>) -> W,
        T: Fn(W, W, ActivationKind) -> W,
    >(&mut self, inputs: &Vec<W>, multiply: &M, aggregate: &A, activate: &T) -> (r: Vec<W>)
        requires
            old(self).wf(),
            inputs@.len() == old(self).input_count,
            forall|x: W, y: W| multiply.requires((x, y)),
            forall|k: Aggregation, xs: Vec<W>| aggregate.requires((k, xs)),
            forall|x: W, b: W, k: ActivationKind| activate.requires((x, b, k)),
        ensures
            final(self).wf(),
            final(self).connections@ == old(self).connections@,
            final(self).node_calculation_order@ == old(self).node_calculation_order@,
            final(self).nodes@.len() == old(self).nodes@.len(),
            forall|v: int|
                0 <= v < final(self).nodes@.len() ==> #[trigger] cleared(final(self).nodes@[v]) == cleared(
                    old(self).nodes@[v],
                ) && final(self).nodes@[v].value is Some,
            forall|v: int| 0 <= v < old(self).input_count ==> #[trigger] final(self).nodes@[v].value == Some(inputs@[v]),
            forall|v: int|
                old(self).input_count <= v < final(self).nodes@.len() ==> #[trigger] evaluated(
                    *final(self),
                    v,
                    *multiply,
                    *aggregate,
                    *activate,
                ),
            r@.len() == old(self).output_count,
            forall|k: int|
                0 <= k < r@.len() ==> Some(#[trigger] r@[k]) == final(self).nodes@[old(self).input_count + k].value,
    {
        self.clear_values();
        let n = self.nodes.len();
        let mut a: usize = 0;
        while a < n
            invariant
                a <= n,
                n == self.nodes@.len(),
                self.wf(),
                inputs@.len() == self.input_count,
                self.input_count == old(self).input_count,
                self.output_count == old(self).output_count,
                self.connections@ == old(self).connections@,
                self.node_calculation_order@ == old(self).node_calculation_order@,
                forall|x: W, y: W| multiply.requires((x, y)),
                forall|k: Aggregation, xs: Vec<W>| aggregate.requires((k, xs)),
                forall|x: W, b: W, k: ActivationKind| activate.requires((x, b, k)),
                forall|v: int| 0 <= v < n ==> #[trigger] cleared(self.nodes@[v]) == cleared(old(self).nodes@[v]),
                forall|b: int| 0 <= b < a ==> (#[trigger] self.nodes@[self.node_calculation_order@[b] as int]).value is Some,
                forall|v: int| 0 <= v < self.input_count && (#[trigger] self.nodes@[v]).value is Some ==> self.nodes@[v].value == Some(inputs@[v]),

                forall|b: int|
                    0 <= b < a && self.node_calculation_order@[b] >= self.input_count ==> #[trigger] evaluated(
                        *self,
                        self.node_calculation_order@[b] as int,
                        *multiply,
                        *aggregate,
                        *activate,
                    ),
            decreases n - a,
        {
            let v = self.node_calculation_order[a];
            let node = self.nodes[v];
            let ghost mut witness_xs: Vec<W> = arbitrary();
            let ghost mut witness_a: W = arbitrary();
            let value = if v < self.input_count {
                inputs[v]
            } else {
                let mut parts: Vec<W> = Vec::new();
                let mut c: usize = 0;
                while c < self.connections.len()
                    invariant
                        c <= self.connections@.len(),
                        n == self.nodes@.len(),
                        self.wf(),
                        v < n,
                        v >= self.input_count,
                        self.node_calculation_order@[a as int] == v,
                        a < n,
                        forall|x: W, y: W| multiply.requires((x, y)),
                        forall|b: int| 0 <= b < a ==> (#[trigger] self.nodes@[self.node_calculation_order@[b] as int]).value is Some,
                        contributions(self.connections@.subrange(0, c as int), self.nodes@, v, parts@, *multiply),
                    decreases self.connections@.len() - c,
                {
                    let conn = self.connections[c];
                    let ghost before_c = parts@;
                    proof {
                        let sub = self.connections@.subrange(0, c + 1);
                        assert(sub.drop_last() =~= self.connections@.subrange(0, c as int));
                        assert(sub.last() == conn);
                    }
                    if conn.to == v {
                        match self.nodes[conn.from].value {
                            Some(x) => {
                                let y = multiply(x, conn.weight);
                                parts.push(y);
                                proof {
                                    assert(parts@.drop_last() =~= before_c);
                                }
                            },
                            None => {
                                proof {
                                    let from = conn.from;
                                    assert(self.node_calculation_order@.contains(from));
                                    let b = choose|b: int| 0 <= b < n && self.node_calculation_order@[b] == from;
                                    assert(self.nodes@[v as int].kind != NodeKind::Input);
                                    assert(b < a);
                                    assert(false);
                                }
                            },
                        }
                    }
                    c += 1;
                }
                assert(self.connections@.subrange(0, c as int) =~= self.connections@);
                let ghost xs = parts;
                let aggregated = aggregate(node.aggregation, parts);
                let y = activate(aggregated, node.bias, node.activation);
                proof {
                    witness_xs = xs;
                    witness_a = aggregated;
                }
                y
            };
            let ghost before = self.nodes@;
            let ghost net_before = *self;
            let mut updated = node;
            updated.value = Some(value);
            self.nodes.set(v, updated);
            proof {
                assert forall|b: int| 0 <= b < a + 1 implies (#[trigger] self.nodes@[self.node_calculation_order@[b] as int]).value is Some by {
                    if self.node_calculation_order@[b] != v {
                        assert(self.nodes@[self.node_calculation_order@[b] as int] == before[self.node_calculation_order@[b] as int]);
                    }
                }
                assert(self.nodes@.len() == n);
                assert(cleared(self.nodes@[v as int]) == cleared(before[v as int]));
                assert forall|u: int| 0 <= u < n implies #[trigger] cleared(self.nodes@[u]) == cleared(old(self).nodes@[u]) by {
                    if u != v {
                        assert(self.nodes@[u] == before[u]);
                    }
                }
                assert forall|u: int| 0 <= u < n implies #[trigger] self.nodes@[u].kind == self.layout_kind(u) by {
                    if u != v {
                        assert(self.nodes@[u] == before[u]);
                    }
                }
                let conns = self.connections@;
                let order = self.node_calculation_order@;
                if v >= self.input_count {
                    assert forall|c: int| 0 <= c < conns.len() && (#[trigger] conns[c]).to == v implies before[conns[c].from as int].value
                        == self.nodes@[conns[c].from as int].value by {
                        assert(self.nodes@[v as int].kind != NodeKind::Input);
                        if conns[c].from == v {
                            assert(order[a as int] == conns[c].from && order[a as int] == conns[c].to);
                        }
                    }
                    lemma_contributions_frame(conns, before, self.nodes@, v, witness_xs@, *multiply);
                    assert(evaluated(*self, v as int, *multiply, *aggregate, *activate));
                }
                assert forall|b: int|
                    0 <= b < a + 1 && order[b] >= self.input_count implies #[trigger] evaluated(
                        *self,
                        order[b] as int,
                        *multiply,
                        *aggregate,
                        *activate,
                    ) by {
                    if b < a {
                        let w = order[b];
                        assert(w != v);
                        assert(self.nodes@[w as int] == before[w as int]);
                        assert(evaluated(net_before, w as int, *multiply, *aggregate, *activate));
                        let node = before[w as int];
                        let (xs, ag) = choose|xs: Vec<W>, ag: W|
                            contributions(conns, before, w, xs@, *multiply) && #[trigger] aggregate.ensures(
                                (node.aggregation, xs),
                                ag,
                            ) && activate.ensures((ag, node.bias, node.activation), node.value->0);
                        assert forall|c: int| 0 <= c < conns.len() && (#[trigger] conns[c]).to == w implies before[conns[c].from as int].value
                            == self.nodes@[conns[c].from as int].value by {
                            assert(self.nodes@[w as int].kind != NodeKind::Input);
                            if conns[c].from == v {
                                assert(order[a as int] == conns[c].from && order[b] == conns[c].to);
                            }
                        }
                        lemma_contributions_frame(conns, before, self.nodes@, w, xs@, *multiply);
                    }
                }
            }
            a += 1;
        }
        proof {
            assert forall|v: int| 0 <= v < n implies #[trigger] self.nodes@[v].value is Some by {
                assert(self.node_calculation_order@.contains(v as usize));
                let b = choose|b: int| 0 <= b < n && self.node_calculation_order@[b] == v as usize;
                assert(self.nodes@[self.node_calculation_order@[b] as int].value is Some);
            }
            assert forall|v: int| self.input_count <= v < n implies #[trigger] evaluated(
                *self,
                v,
                *multiply,
                *aggregate,
                *activate,
            ) by {
                assert(self.node_calculation_order@.contains(v as usize));
                let b = choose|b: int| 0 <= b < n && self.node_calculation_order@[b] == v as usize;
                assert(self.node_calculation_order@[b] >= self.input_count);
            }
        }
        let mut outputs: Vec<W> = Vec::new();
        let mut k: usize = 0;
        while k < self.output_count
            invariant
                k <= self.output_count,
                n == self.nodes@.len(),
                self.input_count + self.output_count <= self.nodes@.len(),
                outputs@.len() == k,
                forall|v: int| 0 <= v < self.nodes@.len() ==> #[trigger] self.nodes@[v].value is Some,
                forall|j: int| 0 <= j < k ==> Some(#[trigger] outputs@[j]) == self.nodes@[self.input_count + j].value,
            decreases self.output_count - k,
        {
            let index = self.input_count + k;
            match self.nodes[index].value {
                Some(x) => {
                    outputs.push(x);
                },
                None => {
                    proof {
                        assert(self.nodes@[index as int].value is Some);
                    }
                },
            }
            k += 1;
        }
        outputs
    }

    /// Whether the network satisfies `wf`: the layout of its nodes, an order
    /// that lists every node, and connections between nodes whose sources
    /// come before their non-input targets.
    pub fn is_well_formed(&self) -> (r: bool)
        ensures
            r == self.wf(),
    {
        let n = self.nodes.len();
        if self.input_count > n || self.output_count > n - self.input_count {
            return false;
        }
        let mut v: usize = 0;
        while v < n
            invariant
                v <= n,
                n == self.nodes@.len(),
                self.input_count + self.output_count <= n,
                forall|u: int| 0 <= u < v ==> #[trigger] self.nodes@[u].kind == self.layout_kind(u),
            decreases n - v,
        {
            let expected = if v < self.input_count {
                NodeKind::Input
            } else if v < self.input_count + self.output_count {
                NodeKind::Output
            } else {
                NodeKind::Hidden
            };
            if self.nodes[v].kind != expected {
                return false;
            }
            v += 1;
        }
        let order = &self.node_calculation_order;
        if order.len() != n {
            return false;
        }
        let mut first: Vec<usize> = Vec::new();
        let mut last: Vec<usize> = Vec::new();
        let mut v: usize = 0;
        while v < n
            invariant
                v <= n,
                first@.len() == v,
                last@.len() == v,
                forall|u: int| 0 <= u < v ==> #[trigger] first@[u] == n && last@[u] == 0,
            decreases n - v,
        {
            first.push(n);
            last.push(0);
            v += 1;
        }
        let mut a: usize = 0;
        while a < n
            invariant
                a <= n,
                n == self.nodes@.len(),
                order@ == self.node_calculation_order@,
                order@.len() == n,
                first@.len() == n,
                last@.len() == n,
                forall|b: int| 0 <= b < a ==> #[trigger] order@[b] < n,
                forall|u: int|
                    0 <= u < n ==> (#[trigger] first@[u] == n <==> forall|b: int| 0 <= b < a ==> order@[b] != u),
                forall|u: int|
                    0 <= u < n && #[trigger] first@[u] != n ==> first@[u] < a && order@[first@[u] as int] == u && last@[u]
                        < a && order@[last@[u] as int] == u && first@[u] <= last@[u],
                forall|b: int| 0 <= b < a ==> first@[order@[b] as int] <= b && b <= #[trigger] last@[order@[b] as int],
                forall|b1: int, b2: int| 0 <= b1 < b2 < a ==> #[trigger] order@[b1] != #[trigger] order@[b2],
            decreases n - a,
        {
            let u = order[a];
            if u >= n {
                return false;
            }
            if first[u] != n {
                proof {
                    assert(order@[first@[u as int] as int] == order@[a as int]);
                }
                return false;
            }
            first.set(u, a);
            last.set(u, a);
            a += 1;
        }
        let mut w: usize = 0;
        while w < n
            invariant
                w <= n,
                first@.len() == n,
                last@.len() == n,
                order@ == self.node_calculation_order@,
                order@.len() == n,
                forall|u: int| 0 <= u < w ==> #[trigger] first@[u] != n,
                forall|b: int| 0 <= b < n ==> #[trigger] order@[b] < n,
                forall|u: int|
                    0 <= u < n ==> (#[trigger] first@[u] == n <==> forall|b: int| 0 <= b < n ==> order@[b] != u),
                forall|u: int|
                    0 <= u < n && #[trigger] first@[u] != n ==> first@[u] < n && order@[first@[u] as int] == u && last@[u]
                        < n && order@[last@[u] as int] == u && first@[u] <= last@[u],
                forall|b: int| 0 <= b < n ==> first@[order@[b] as int] <= b && b <= #[trigger] last@[order@[b] as int],
            decreases n - w,
        {
            if first[w] == n {
                proof {
                    assert(first@[w as int] == n);
                    if self.node_calculation_order@.contains(w) {
                        let b = choose|b: int| 0 <= b < n && self.node_calculation_order@[b] == w;
                        assert(order@[b] != w);
                    }
                }
                return false;
            }
            w += 1;
        }
        proof {
            assert forall|u: usize| u < n implies #[trigger] self.node_calculation_order@.contains(u) by {
                assert(first@[u as int] != n);
                assert(self.node_calculation_order@[first@[u as int] as int] == u);
            }
        }
        let m = self.connections.len();
        let mut c: usize = 0;
        while c < m
            invariant
                c <= m,
                m == self.connections@.len(),
                n == self.nodes@.len(),
                order@ == self.node_calculation_order@,
                order@.len() == n,
                first@.len() == n,
                last@.len() == n,
                forall|b: int| 0 <= b < n ==> #[trigger] order@[b] < n,
                forall|u: int|
                    0 <= u < n && #[trigger] first@[u] != n ==> first@[u] < n && order@[first@[u] as int] == u && last@[u]
                        < n && order@[last@[u] as int] == u && first@[u] <= last@[u],
                forall|u: int| 0 <= u < n ==> #[trigger] first@[u] != n,
                forall|b: int| 0 <= b < n ==> first@[order@[b] as int] <= b && b <= #[trigger] last@[order@[b] as int],
                forall|k: int|
                    0 <= k < c ==> #[trigger] self.connections@[k].from < n && self.connections@[k].to < n,
                forall|k: int, x: int, y: int|
                    #![trigger self.connections@[k], order@[x], order@[y]]
                    0 <= k < c && 0 <= x < n && 0 <= y < n && order@[x] == self.connections@[k].from && order@[y]
                        == self.connections@[k].to && self.nodes@[self.connections@[k].to as int].kind != NodeKind::Input
                        ==> x < y,
            decreases m - c,
        {
            let conn = self.connections[c];
            if conn.from >= n || conn.to >= n {
                return false;
            }
            if !self.nodes[conn.to].kind.is_input() && last[conn.from] >= first[conn.to] {
                proof {
                    assert(first@[conn.from as int] != n);
                    assert(first@[conn.to as int] != n);
                    let x = last@[conn.from as int] as int;
                    let y = first@[conn.to as int] as int;
                    assert(order@[x] == conn.from && order@[y] == conn.to);
                    assert(!(x < y));
                }
                return false;
            }
            c += 1;
        }
        true
    }

    /// Forgets the values of a forward pass.
    pub fn clear_values(&mut self)
        ensures
            final(self).nodes@.len() == old(self).nodes@.len(),
            forall|v: int|
                0 <= v < final(self).nodes@.len() ==> #[trigger] final(self).nodes@[v] == cleared(old(self).nodes@[v]),
            final(self).connections@ == old(self).connections@,
            final(self).node_calculation_order@ == old(self).node_calculation_order@,
            final(self).input_count == old(self).input_count,
            final(self).output_count == old(self).output_count,
    {
        let mut v: usize = 0;
        while v < self.nodes.len()
            invariant
                v <= self.nodes@.len(),
                self.nodes@.len() == old(self).nodes@.len(),
                forall|u: int|
                    0 <= u < v ==> #[trigger] self.nodes@[u] == cleared(old(self).nodes@[u]),
                forall|u: int| v <= u < self.nodes@.len() ==> #[trigger] self.nodes@[u] == old(self).nodes@[u],
                self.connections@ == old(self).connections@,
                self.node_calculation_order@ == old(self).node_calculation_order@,
                self.input_count == old(self).input_count,
                self.output_count == old(self).output_count,
            decreases self.nodes@.len() - v,
        {
            let mut node = self.nodes[v];
            node.value = None;
            self.nodes.set(v, node);
            v += 1;
        }
    }
}

} // verus!

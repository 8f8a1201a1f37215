use crate::activation::ActivationKind;
use crate::aggregations::Aggregation;
use crate::node::NodeKind;
use vstd::prelude::*;
use vstd::set_lib::*;

verus! {

/// Why a structural edit was refused.
#[derive(Debug, Clone, Copy, PartialEq, Eq, Structural)]
pub enum EditError {
    /// The edge would end at an input, start at an output, run against the
    /// distances from the inputs, duplicate a path or close a cycle.
    Forbidden,
}

/// A directed, weighted edge between two nodes of a genome.
#[derive(Debug, Clone, Copy)]
pub struct ConnectionGene<W> {
    pub from: usize,
    pub to: usize,
    pub weight: W,
    pub disabled: bool,
}

/// A node of a genome. Input nodes pass their value through and carry the
/// default parameter as bias.
#[derive(Debug, Clone, Copy)]
pub struct NodeGene<W> {
    pub kind: NodeKind,
    pub activation: ActivationKind,
    pub aggregation: Aggregation,
    pub bias: W,
}

/// The Cantor pairing of an ordered pair of node indices: the innovation
/// number of an edge between them.
pub open spec fn cantor(from: int, to: int) -> int {
    (from + to) * (from + to + 1) / 2 + to
}

/// Triangular numbers grow by more than the gap to the next index.
proof fn lemma_triangle_gap(s: int, t: int)
    requires
        0 <= s < t,
    ensures
        t * (t + 1) / 2 >= s * (s + 1) / 2 + s + 1,
{
    assert(t * (t + 1) >= (s + 1) * (s + 2)) by (nonlinear_arith)
        requires
            0 <= s < t,
    ;
    assert((s + 1) * (s + 2) == s * (s + 1) + 2 * (s + 1)) by (nonlinear_arith);
}

/// Innovation numbers name edges: two edges with the same innovation number
/// join the same ordered pair of nodes.
pub proof fn lemma_innovation_injective(u: nat, v: nat, x: nat, y: nat)
    requires
        cantor(u as int, v as int) == cantor(x as int, y as int),
    ensures
        u == x,
        v == y,
{
    let s = u + v;
    let t = x + y;
    if s < t {
        lemma_triangle_gap(s as int, t as int);
    } else if t < s {
        lemma_triangle_gap(t as int, s as int);
    }
}

impl<W: Copy> ConnectionGene<W> {
    /// An enabled connection with the given weight.
    pub fn new(from: usize, to: usize, weight: W) -> (r: Self)
        ensures
            r.from == from,
            r.to == to,
            r.weight == weight,
            !r.disabled,
    {
        ConnectionGene { from, to, weight, disabled: false }
    }

    /// The innovation number of the edge: the Cantor pairing of its ends.
    pub fn innovation_number(&self) -> (r: usize)
        requires
            cantor(self.from as int, self.to as int) <= usize::MAX,
        ensures
            r == cantor(self.from as int, self.to as int),
    {
        let s: u128 = self.from as u128 + self.to as u128;
        let ghost p: int = s * (s + 1);
        assert(p / 2 <= usize::MAX);
        assert(p <= 2 * (usize::MAX as int) + 1);
        assert(usize::MAX <= u64::MAX);
        let r: u128 = s * (s + 1) / 2 + self.to as u128;
        r as usize
    }
}

/// A network description: nodes laid out as inputs, then outputs, then hidden
/// nodes, and connection genes between them. Nodes are never removed, so
/// every index stays valid; edges are disabled rather than removed.
#[derive(Debug, Clone)]
pub struct Genome<W> {
    pub inputs: usize,
    pub outputs: usize,
    pub node_genes: Vec<NodeGene<W>>,
    pub connection_genes: Vec<ConnectionGene<W>>,
}

/// Every edge of `edges` joins two nodes below `n`.
pub open spec fn edges_in_range<W>(edges: Seq<ConnectionGene<W>>, n: nat) -> bool {
    forall|j: int| #![trigger edges[j]] 0 <= j < edges.len() ==> edges[j].from < n && edges[j].to < n
}

/// Some edge of `edges` joins `u` to `v`.
pub open spec fn has_pair<W>(edges: Seq<ConnectionGene<W>>, u: int, v: int) -> bool {
    exists|a: int| #![trigger edges[a]] 0 <= a < edges.len() && edges[a].from == u && edges[a].to == v
}

/// Every pair of `pairs` joins two nodes below `n`.
pub open spec fn pairs_in_range(pairs: Seq<(usize, usize)>, n: nat) -> bool {
    forall|j: int| #![trigger pairs[j]] 0 <= j < pairs.len() ==> pairs[j].0 < n && pairs[j].1 < n
}

/// Some pair of `pairs` joins `u` to `v`.
pub open spec fn pair_listed(pairs: Seq<(usize, usize)>, u: usize, v: usize) -> bool {
    exists|j: int| 0 <= j < pairs.len() && #[trigger] pairs[j] == (u, v)
}

/// `after` is `before` with the connection from `from` to `to` at index
/// `i` enabled: the disabled connection between them enabled again, or,
/// where there was none, a new one appended.
pub open spec fn added_at<W>(
    before: Seq<ConnectionGene<W>>,
    after: Seq<ConnectionGene<W>>,
    i: int,
    from: usize,
    to: usize,
) -> bool {
    &&& 0 <= i < after.len()
    &&& after[i].from == from
    &&& after[i].to == to
    &&& !after[i].disabled
    &&& if has_pair(before, from as int, to as int) {
        &&& i < before.len()
        &&& after == before.update(i, ConnectionGene { disabled: false, ..before[i] })
    } else {
        &&& i == before.len()
        &&& after == before.push(after[i])
    }
}

/// `after` is `before` with the connection from `from` to `to` enabled,
/// at some index.
pub open spec fn connection_added<W>(
    before: Seq<ConnectionGene<W>>,
    after: Seq<ConnectionGene<W>>,
    from: usize,
    to: usize,
) -> bool {
    exists|i: int| #[trigger] added_at(before, after, i, from, to)
}

/// `visited` with the nodes of `nodes` visited too.
pub open spec fn mark_visited(visited: Seq<bool>, nodes: Seq<usize>) -> Seq<bool> {
    Seq::new(visited.len(), |v: int| visited[v] || nodes.contains(v as usize))
}

/// `new` keeps the genes of `old`: no connection or node is removed, every
/// connection keeps its ends and every node its kind.
pub open spec fn keeps_genes<W>(old: Genome<W>, new: Genome<W>) -> bool {
    &&& old.connection_genes@.len() <= new.connection_genes@.len()
    &&& forall|i: int|
        #![trigger new.connection_genes@[i]]
        0 <= i < old.connection_genes@.len() ==> new.connection_genes@[i].from == old.connection_genes@[i].from
            && new.connection_genes@[i].to == old.connection_genes@[i].to
    &&& old.node_count() <= new.node_count()
    &&& forall|v: int|
        #![trigger new.node_genes@[v]]
        0 <= v < old.node_count() ==> new.node_genes@[v].kind == old.node_genes@[v].kind
}

/// The ordered pairs of nodes that `edges` join.
pub open spec fn pairs_of<W>(edges: Seq<ConnectionGene<W>>) -> Seq<(usize, usize)> {
    edges.map_values(|c: ConnectionGene<W>| (c.from, c.to))
}

impl<W> Genome<W> {
    pub open spec fn node_count(&self) -> nat {
        self.node_genes@.len()
    }

    pub open spec fn kind_of(&self, v: int) -> NodeKind {
        self.node_genes@[v].kind
    }

    pub open spec fn is_input_node(&self, v: int) -> bool {
        0 <= v < self.node_count() && self.node_genes@[v].kind == NodeKind::Input
    }

    /// Connection `i` exists and is not disabled.
    pub open spec fn enabled(&self, i: int) -> bool {
        0 <= i < self.connection_genes@.len() && !self.connection_genes@[i].disabled
    }

    /// There is an enabled connection from `u` to `v`.
    pub open spec fn has_enabled_edge(&self, u: int, v: int) -> bool {
        exists|i: int|
            #![trigger self.connection_genes@[i]]
            self.enabled(i) && self.connection_genes@[i].from == u && self.connection_genes@[i].to
                == v
    }

    /// `rank` strictly increases along every enabled connection and every
    /// edge of `extra`, leaving out edges into input nodes (inputs take
    /// their values from outside).
    pub open spec fn ranked_by(
        &self,
        extra: Seq<(usize, usize)>,
        rank: spec_fn(usize) -> int,
    ) -> bool {
        &&& forall|i: int|
            #![trigger self.connection_genes@[i]]
            self.enabled(i) && !self.is_input_node(self.connection_genes@[i].to as int) ==> rank(
                self.connection_genes@[i].from,
            ) < rank(self.connection_genes@[i].to)
        &&& forall|j: int|
            #![trigger extra[j]]
            0 <= j < extra.len() && !self.is_input_node(extra[j].1 as int) ==> rank(extra[j].0)
                < rank(extra[j].1)
    }

    /// The enabled connections together with `extra` form no cycle.
    pub open spec fn acyclic_with(&self, extra: Seq<(usize, usize)>) -> bool {
        exists|rank: spec_fn(usize) -> int| self.ranked_by(extra, rank)
    }

    /// The enabled connections form no cycle.
    pub open spec fn acyclic(&self) -> bool {
        self.acyclic_with(Seq::empty())
    }

    /// `order` lists every node exactly once, inputs first, and every node
    /// after the sources of its incoming enabled connections and `extra`
    /// edges.
    pub open spec fn is_node_order(&self, extra: Seq<(usize, usize)>, order: Seq<usize>) -> bool {
        &&& order.len() == self.node_count()
        &&& order.no_duplicates()
        &&& forall|a: int| 0 <= a < order.len() ==> #[trigger] order[a] < self.node_count()
        &&& forall|v: usize| v < self.node_count() ==> #[trigger] order.contains(v)
        &&& forall|a: int, b: int|
            0 <= a < order.len() && 0 <= b < order.len() && self.is_input_node(
                #[trigger] order[b] as int,
            ) && !self.is_input_node(#[trigger] order[a] as int) ==> b < a
        &&& forall|i: int, a: int, b: int|
            #![trigger self.connection_genes@[i], order[a], order[b]]
            self.enabled(i) && 0 <= a < order.len() && 0 <= b < order.len() && order[a]
                == self.connection_genes@[i].from && order[b] == self.connection_genes@[i].to
                && !self.is_input_node(order[b] as int) ==> a < b
        &&& forall|j: int, a: int, b: int|
            #![trigger extra[j], order[a], order[b]]
            0 <= j < extra.len() && 0 <= a < order.len() && 0 <= b < order.len() && order[a]
                == extra[j].0 && order[b] == extra[j].1 && !self.is_input_node(order[b] as int)
                ==> a < b
    }

    /// The state of the ordering pass: `order` lists the visited nodes,
    /// `pos` gives each visited node its place in `order`, inputs come
    /// first, and every visited non-input node comes after the sources of its
    /// incoming edges.
    spec fn order_state(
        &self,
        extra: Seq<(usize, usize)>,
        visited: Seq<bool>,
        order: Seq<usize>,
        pos: Seq<int>,
    ) -> bool {
        let n = self.node_count();
        &&& visited.len() == n
        &&& pos.len() == n
        &&& forall|a: int|
            0 <= a < order.len() ==> #[trigger] order[a] < n && visited[order[a] as int] && pos[order[a] as int] == a
        &&& forall|v: int|
            0 <= v < n && #[trigger] visited[v] ==> 0 <= pos[v] < order.len() && order[pos[v]] == v
        &&& forall|v: int, w: int|
            0 <= v < n && 0 <= w < n && #[trigger] visited[v] && #[trigger] visited[w] && self.is_input_node(v)
                && !self.is_input_node(w) ==> pos[v] < pos[w]
        &&& forall|i: int|
            #![trigger self.connection_genes@[i]]
            self.enabled(i) && visited[self.connection_genes@[i].to as int] && !self.is_input_node(
                self.connection_genes@[i].to as int,
            ) ==> visited[self.connection_genes@[i].from as int] && pos[self.connection_genes@[i].from as int]
                < pos[self.connection_genes@[i].to as int]
        &&& forall|j: int|
            #![trigger extra[j]]
            0 <= j < extra.len() && visited[extra[j].1 as int] && !self.is_input_node(extra[j].1 as int)
                ==> visited[extra[j].0 as int] && pos[extra[j].0 as int] < pos[extra[j].1 as int]
    }

    /// The kind that the layout gives node `v`: inputs, then outputs, then
    /// hidden nodes.
    pub open spec fn layout_kind(&self, v: int) -> NodeKind {
        if v < self.inputs {
            NodeKind::Input
        } else if v < self.inputs + self.outputs {
            NodeKind::Output
        } else {
            NodeKind::Hidden
        }
    }

    /// The nodes follow the layout, and exactly the input nodes carry the
    /// `Input` activation.
    pub open spec fn nodes_wf(&self) -> bool {
        &&& self.inputs + self.outputs <= self.node_count()
        &&& forall|v: int|
            #![trigger self.node_genes@[v]]
            0 <= v < self.node_count() ==> self.node_genes@[v].kind == self.layout_kind(v) && ((
            self.node_genes@[v].activation == ActivationKind::Input) == (v < self.inputs))
    }

    /// Connection `i` joins two distinct nodes of the genome, does not end
    /// at an input and does not start at an output.
    pub open spec fn connection_wf(&self, i: int) -> bool {
        let c = self.connection_genes@[i];
        &&& c.from < self.node_count()
        &&& c.to < self.node_count()
        &&& c.from != c.to
        &&& self.kind_of(c.to as int) != NodeKind::Input
        &&& self.kind_of(c.from as int) != NodeKind::Output
    }

    /// No two connections join the same ordered pair of nodes.
    pub open spec fn pairs_unique(&self) -> bool {
        forall|i: int, j: int|
            0 <= i < self.connection_genes@.len() && 0 <= j < self.connection_genes@.len() && i != j
                ==> (#[trigger] self.connection_genes@[i]).from != (#[trigger] self.connection_genes@[j]).from
                || self.connection_genes@[i].to != self.connection_genes@[j].to
    }

    /// The invariant of every genome that the library builds or edits.
    pub open spec fn wf(&self) -> bool {
        &&& self.nodes_wf()
        &&& forall|i: int|
            0 <= i < self.connection_genes@.len() ==> #[trigger] self.connection_wf(i)
        &&& self.pairs_unique()
        &&& self.acyclic()
    }

    /// The connections are listed in increasing order of their pairs
    /// `(from, to)`.
    pub open spec fn pairs_sorted(&self) -> bool {
        forall|a: int, b: int|
            0 <= a < b < self.connection_genes@.len() ==> {
                let x = #[trigger] self.connection_genes@[a];
                let y = #[trigger] self.connection_genes@[b];
                x.from < y.from || (x.from == y.from && x.to < y.to)
            }
    }

    /// Every enabled connection that starts in `s` ends in `s`.
    pub open spec fn closed_under(&self, s: Set<usize>) -> bool {
        forall|i: int|
            #![trigger self.connection_genes@[i]]
            self.enabled(i) && s.contains(self.connection_genes@[i].from) ==> s.contains(
                self.connection_genes@[i].to,
            )
    }

    /// Every enabled connection out of `a` ends in `s`.
    pub open spec fn successors_in(&self, a: usize, s: Set<usize>) -> bool {
        forall|i: int|
            #![trigger self.connection_genes@[i]]
            self.enabled(i) && self.connection_genes@[i].from == a ==> s.contains(
                self.connection_genes@[i].to,
            )
    }

    /// A path of one or more enabled connections leads from `a` to `b`:
    /// `b` lies in every set that holds the successors of `a` and is closed
    /// under enabled connections.
    pub open spec fn reaches(&self, a: usize, b: usize) -> bool {
        forall|s: Set<usize>| #[trigger] self.closed_under(s) && self.successors_in(a, s) ==> s.contains(b)
    }

    /// Every enabled connection out of `v` ends at a visited node.
    spec fn expanded(&self, visited: Seq<bool>, v: usize) -> bool {
        forall|i: int|
            #![trigger self.connection_genes@[i]]
            self.enabled(i) && self.connection_genes@[i].from == v ==> visited[self.connection_genes@[i].to as int]
    }

    /// `d` gives node `v` its longest-path distance from the inputs, as the
    /// recurrence over incoming enabled connections fixes it: inputs are at
    /// distance 0; another node is one step beyond the farthest of its
    /// sources that have a distance, and has none when no source has one.
    pub open spec fn distance_at(&self, d: Seq<Option<usize>>, v: int) -> bool {
        if self.is_input_node(v) {
            d[v] == Some(0usize)
        } else {
            &&& forall|i: int|
                #![trigger self.connection_genes@[i]]
                self.enabled(i) && self.connection_genes@[i].to == v && d[self.connection_genes@[i].from as int] is Some
                    ==> d[v] is Some && d[self.connection_genes@[i].from as int]->0 < d[v]->0
            &&& d[v] is Some ==> exists|i: int|
                #![trigger self.connection_genes@[i]]
                self.enabled(i) && self.connection_genes@[i].to == v && d[self.connection_genes@[i].from as int] is Some
                    && d[self.connection_genes@[i].from as int]->0 + 1 == d[v]->0
        }
    }

    /// `d` gives every node its longest-path distance from the inputs over
    /// enabled connections (`None` for a node that no input reaches).
    pub open spec fn is_input_distance(&self, d: Seq<Option<usize>>) -> bool {
        &&& d.len() == self.node_count()
        &&& forall|v: int| 0 <= v < self.node_count() ==> #[trigger] self.distance_at(d, v)
    }

    /// The longest-path distances allow an edge from `from` to `to`: the
    /// source is not farther from the inputs than the target (a node that no
    /// input reaches sets no bound).
    pub open spec fn distance_allows(d: Seq<Option<usize>>, from: usize, to: usize) -> bool {
        d[from as int] is Some && d[to as int] is Some ==> d[from as int]->0 <= d[to as int]->0
    }

    /// A connection from `from` to `to` may be added: it does not start at an
    /// output or end at an input, joins two distinct nodes, does not run
    /// against the distances from the inputs, does not duplicate an existing
    /// path, and closes no cycle.
    pub open spec fn connectable(&self, from: usize, to: usize) -> bool {
        &&& self.kind_of(from as int) != NodeKind::Output
        &&& self.kind_of(to as int) != NodeKind::Input
        &&& from != to
        &&& forall|d: Seq<Option<usize>>| #[trigger] self.is_input_distance(d) ==> Self::distance_allows(d, from, to)
        &&& !self.reaches(from, to)
        &&& self.acyclic_with(seq![(from, to)])
    }

    /// The input nodes below `k`, in increasing order.
    pub open spec fn input_nodes(&self, k: int) -> Seq<usize>
        decreases k,
    {
        if k <= 0 {
            Seq::empty()
        } else {
            let r = self.input_nodes(k - 1);
            if self.is_input_node(k - 1) {
                r.push((k - 1) as usize)
            } else {
                r
            }
        }
    }

    /// Every source of an enabled connection or of an `extra` edge into `v`
    /// is visited.
    pub open spec fn sources_visited_in(&self, extra: Seq<(usize, usize)>, visited: Seq<bool>, v: int) -> bool {
        &&& forall|i: int|
            #![trigger self.connection_genes@[i]]
            self.enabled(i) && self.connection_genes@[i].to == v ==> visited[self.connection_genes@[i].from as int]
        &&& forall|j: int| #![trigger extra[j]] 0 <= j < extra.len() && extra[j].1 == v ==> visited[extra[j].0 as int]
    }

    /// The nodes below `k` that are not visited and whose sources all are,
    /// in increasing order.
    pub open spec fn ready_nodes(&self, extra: Seq<(usize, usize)>, visited: Seq<bool>, k: int) -> Seq<usize>
        decreases k,
    {
        if k <= 0 {
            Seq::empty()
        } else {
            let r = self.ready_nodes(extra, visited, k - 1);
            if !visited[k - 1] && self.sources_visited_in(extra, visited, k - 1) {
                r.push((k - 1) as usize)
            } else {
                r
            }
        }
    }

    /// The passes of the ordering from the `visited` nodes on: each pass
    /// lists the ready nodes, which the next pass counts as visited; the
    /// passes stop when none is ready (or after `fuel` passes).
    pub open spec fn passes(&self, extra: Seq<(usize, usize)>, visited: Seq<bool>, fuel: nat) -> Seq<usize>
        decreases fuel,
    {
        let r = self.ready_nodes(extra, visited, self.node_count() as int);
        if fuel == 0 || r.len() == 0 {
            Seq::empty()
        } else {
            r + self.passes(extra, mark_visited(visited, r), (fuel - 1) as nat)
        }
    }

    /// The order that the ordering passes produce: the inputs, then pass
    /// after pass.
    pub open spec fn pass_order(&self, extra: Seq<(usize, usize)>) -> Seq<usize> {
        self.input_nodes(self.node_count() as int) + self.passes(
            extra,
            Seq::new(self.node_count(), |v: int| self.is_input_node(v)),
            self.node_count(),
        )
    }

    /// Every connection joins two nodes of the genome.
    pub open spec fn connections_in_range(&self) -> bool {
        edges_in_range(self.connection_genes@, self.node_count())
    }
}

/// The indices below `n` form a set of `n` elements.
proof fn lemma_indices_below(n: usize)
    ensures
        Set::new(|x: usize| x < n).finite(),
        Set::new(|x: usize| x < n).len() == n,
    decreases n,
{
    if n == 0 {
        assert(Set::new(|x: usize| x < n) =~= Set::<usize>::empty());
    } else {
        let m = (n - 1) as usize;
        lemma_indices_below(m);
        assert(Set::new(|x: usize| x < n) =~= Set::new(|x: usize| x < m).insert(m));
    }
}

/// Among the nodes below `n` that satisfy `p`, one of least rank.
proof fn lemma_least_rank(p: spec_fn(usize) -> bool, rank: spec_fn(usize) -> int, n: nat) -> (m:
    usize)
    requires
        exists|v: usize| v < n && #[trigger] p(v),
    ensures
        m < n,
        p(m),
        forall|v: usize| v < n && #[trigger] p(v) ==> rank(m) <= rank(v),
    decreases n,
{
    let last = (n - 1) as nat;
    if exists|v: usize| v < last && #[trigger] p(v) {
        let m = lemma_least_rank(p, rank, last);
        if p(last as usize) && rank(last as usize) < rank(m) {
            last as usize
        } else {
            m
        }
    } else {
        let v = choose|v: usize| v < n && #[trigger] p(v);
        assert(v == last);
        v
    }
}

impl<W> Genome<W> {
    /// In a well-formed genome no enabled connection ends at an input or
    /// starts at an output, no two connections join the same ordered pair
    /// of nodes, and no node but an input carries the `Input` activation.
    pub proof fn lemma_wf_structure(&self)
        requires
            self.wf(),
        ensures
            forall|i: int|
                #![trigger self.connection_genes@[i]]
                self.enabled(i) ==> self.kind_of(self.connection_genes@[i].to as int) != NodeKind::Input
                    && self.kind_of(self.connection_genes@[i].from as int) != NodeKind::Output,
            forall|i: int, j: int|
                0 <= i < j < self.connection_genes@.len() ==> !((#[trigger] self.connection_genes@[i]).from
                    == (#[trigger] self.connection_genes@[j]).from && self.connection_genes@[i].to
                    == self.connection_genes@[j].to),
            forall|v: int|
                0 <= v < self.node_count() && #[trigger] self.kind_of(v) != NodeKind::Input
                    ==> self.node_genes@[v].activation != ActivationKind::Input,
    {
        assert forall|i: int|
            #![trigger self.connection_genes@[i]]
            self.enabled(i) implies self.kind_of(self.connection_genes@[i].to as int) != NodeKind::Input
                && self.kind_of(self.connection_genes@[i].from as int) != NodeKind::Output by {
            assert(self.connection_wf(i));
        }
        assert forall|v: int|
            0 <= v < self.node_count() && #[trigger] self.kind_of(v) != NodeKind::Input
                implies self.node_genes@[v].activation != ActivationKind::Input by {
            assert(self.node_genes@[v].kind == self.layout_kind(v));
        }
    }

    /// A well-formed genome's connections join nodes of the genome.
    pub proof fn lemma_wf_in_range(&self)
        requires
            self.wf(),
        ensures
            self.connections_in_range(),
    {
        assert forall|j: int| 0 <= j < self.connection_genes@.len() implies #[trigger] self.connection_genes@[j].from
            < self.node_count() && self.connection_genes@[j].to < self.node_count() by {
            assert(self.connection_wf(j));
        }
    }

    /// On a well-formed genome the distance recurrence has one solution.
    pub proof fn lemma_input_distance_unique(&self, d1: Seq<Option<usize>>, d2: Seq<Option<usize>>)
        requires
            self.wf(),
            self.is_input_distance(d1),
            self.is_input_distance(d2),
            self.node_count() <= usize::MAX,
        ensures
            d1 == d2,
    {
        let n = self.node_count();
        if !(d1 =~= d2) {
            let rank = choose|rank: spec_fn(usize) -> int| self.ranked_by(Seq::empty(), rank);
            let p = |v: usize| v < n && d1[v as int] != d2[v as int];
            let w = choose|v: int| 0 <= v < n && #[trigger] d1[v] != d2[v];
            assert(p(w as usize));
            let m = lemma_least_rank(p, rank, n);
            assert(self.distance_at(d1, m as int));
            assert(self.distance_at(d2, m as int));
            assert(!self.is_input_node(m as int));
            assert forall|i: int|
                #![trigger self.connection_genes@[i]]
                self.enabled(i) && self.connection_genes@[i].to == m implies d1[self.connection_genes@[i].from as int]
                    == d2[self.connection_genes@[i].from as int] by {
                assert(self.connection_wf(i));
                let f = self.connection_genes@[i].from;
                if d1[f as int] != d2[f as int] {
                    assert(p(f));
                }
            }
            if d1[m as int] is Some {
                let i = choose|i: int|
                    #![trigger self.connection_genes@[i]]
                    self.enabled(i) && self.connection_genes@[i].to == m && d1[self.connection_genes@[i].from as int] is Some
                        && d1[self.connection_genes@[i].from as int]->0 + 1 == d1[m as int]->0;
                assert(d2[m as int] is Some);
            }
            if d2[m as int] is Some {
                let i = choose|i: int|
                    #![trigger self.connection_genes@[i]]
                    self.enabled(i) && self.connection_genes@[i].to == m && d2[self.connection_genes@[i].from as int] is Some
                        && d2[self.connection_genes@[i].from as int]->0 + 1 == d2[m as int]->0;
                assert(d1[m as int] is Some);
            }
        }
    }
}

impl<W: Copy> Genome<W> {
    /// Every source of an enabled connection or `extra` edge into `v` is
    /// visited.
    fn sources_visited(&self, extra: &Vec<(usize, usize)>, visited: &Vec<bool>, v: usize) -> (r:
        bool)
        requires
            self.connections_in_range(),
            pairs_in_range(extra@, self.node_count()),
            visited@.len() == self.node_count(),
        ensures
            r == ((forall|i: int|
                #![trigger self.connection_genes@[i]]
                self.enabled(i) && self.connection_genes@[i].to == v ==> visited@[self.connection_genes@[i].from as int])
                && (forall|j: int|
                #![trigger extra@[j]]
                0 <= j < extra@.len() && extra@[j].1 == v ==> visited@[extra@[j].0 as int])),
    {
        let mut i: usize = 0;
        while i < self.connection_genes.len()
            invariant
                i <= self.connection_genes@.len(),
                self.connections_in_range(),
                visited@.len() == self.node_count(),
                forall|k: int|
                    #![trigger self.connection_genes@[k]]
                    0 <= k < i && self.enabled(k) && self.connection_genes@[k].to == v
                        ==> visited@[self.connection_genes@[k].from as int],
            decreases self.connection_genes@.len() - i,
        {
            let c = &self.connection_genes[i];
            if !c.disabled && c.to == v && !visited[c.from] {
                return false;
            }
            i += 1;
        }
        let mut j: usize = 0;
        while j < extra.len()
            invariant
                j <= extra@.len(),
                pairs_in_range(extra@, self.node_count()),
                visited@.len() == self.node_count(),
                forall|k: int|
                    #![trigger extra@[k]]
                    0 <= k < j && extra@[k].1 == v ==> visited@[extra@[k].0 as int],
            decreases extra@.len() - j,
        {
            let (from, to) = extra[j];
            if to == v && !visited[from] {
                return false;
            }
            j += 1;
        }
        true
    }

    /// Orders the nodes so that every node follows the sources of its
    /// enabled incoming connections and of the `extra` edges: inputs first,
    /// then, pass after pass, every node whose sources are all placed. The
    /// result is `None` exactly when those edges close a cycle.
    fn calculate_node_order(&self, extra: &Vec<(usize, usize)>) -> (r: Option<Vec<usize>>)
        requires
            self.connections_in_range(),
            pairs_in_range(extra@, self.node_count()),
        ensures
            r is Some <==> self.acyclic_with(extra@),
            r is Some ==> self.is_node_order(extra@, r->0@),
            r is Some ==> r->0@ == self.pass_order(extra@),
    {
        let n = self.node_genes.len();
        let mut visited: Vec<bool> = Vec::new();
        let mut order: Vec<usize> = Vec::new();
        let ghost mut pos: Seq<int> = Seq::new(n as nat, |v: int| 0);
        let ghost mut seen: Set<usize> = Set::empty();
        let mut v: usize = 0;
        while v < n
            invariant
                v <= n,
                n == self.node_count(),
                self.connections_in_range(),
                pairs_in_range(extra@, self.node_count()),
                visited@.len() == v,
                pos.len() == n,
                forall|u: int| 0 <= u < v ==> (#[trigger] visited@[u] <==> self.is_input_node(u)),
                forall|a: int|
                    0 <= a < order@.len() ==> #[trigger] order@[a] < v && visited@[order@[a] as int]
                        && pos[order@[a] as int] == a,
                forall|u: int|
                    0 <= u < v && #[trigger] visited@[u] ==> 0 <= pos[u] < order@.len() && order@[pos[u]] == u,
                seen.finite(),
                seen.len() == order@.len(),
                forall|u: usize| #[trigger] seen.contains(u) <==> (u < v && visited@[u as int]),
                order@ == self.input_nodes(v as int),
            decreases n - v,
        {
            let input = self.node_genes[v].kind.is_input();
            visited.push(input);
            if input {
                proof {
                    pos = pos.update(v as int, order@.len() as int);
                    seen = seen.insert(v);
                }
                order.push(v);
            }
            v += 1;
        }
        proof {
            assert forall|i: int|
                #![trigger self.connection_genes@[i]]
                self.enabled(i) && visited@[self.connection_genes@[i].to as int] && !self.is_input_node(
                    self.connection_genes@[i].to as int,
                ) implies visited@[self.connection_genes@[i].from as int] by {
                assert(edges_in_range(self.connection_genes@, self.node_count()));
                assert(self.connection_genes@[i].to < self.node_count());
            }
            assert forall|j: int|
                #![trigger extra@[j]]
                0 <= j < extra@.len() && visited@[extra@[j].1 as int] && !self.is_input_node(
                    extra@[j].1 as int,
                ) implies visited@[extra@[j].0 as int] by {
                assert(extra@[j].1 < self.node_count());
            }
        }
        let ghost mut fuel: nat = n as nat;
        proof {
            assert(visited@ =~= Seq::new(self.node_count(), |v: int| self.is_input_node(v)));
        }
        loop
            invariant_except_break
                order@ + self.passes(extra@, visited@, fuel) == self.pass_order(extra@),
                order@.len() + fuel >= n,
                n == self.node_count(),
                self.connections_in_range(),
                pairs_in_range(extra@, self.node_count()),
                self.order_state(extra@, visited@, order@, pos),
                forall|u: int| 0 <= u < n && self.is_input_node(u) ==> #[trigger] visited@[u],
                seen.finite(),
                seen.len() == order@.len(),
                forall|u: usize| #[trigger] seen.contains(u) <==> (u < n && visited@[u as int]),
            ensures
                order@ == self.pass_order(extra@),
                n == self.node_count(),
                self.order_state(extra@, visited@, order@, pos),
                forall|u: int| 0 <= u < n && self.is_input_node(u) ==> #[trigger] visited@[u],
                seen.finite(),
                seen.len() == order@.len(),
                forall|u: usize| #[trigger] seen.contains(u) <==> (u < n && visited@[u as int]),
                forall|u: int|
                    0 <= u < n && !#[trigger] visited@[u] ==> !((forall|i: int|
                        #![trigger self.connection_genes@[i]]
                        self.enabled(i) && self.connection_genes@[i].to == u ==> visited@[self.connection_genes@[i].from as int])
                        && (forall|j: int|
                        #![trigger extra@[j]]
                        0 <= j < extra@.len() && extra@[j].1 == u ==> visited@[extra@[j].0 as int])),
            decreases n - order@.len(),
        {
            proof {
                lemma_indices_below(n);
                lemma_len_subset(seen, Set::new(|x: usize| x < n));
            }
            let mut ready: Vec<usize> = Vec::new();
            let mut w: usize = 0;
            while w < n
                invariant
                    w <= n,
                    n == self.node_count(),
                    self.connections_in_range(),
                    pairs_in_range(extra@, self.node_count()),
                    visited@.len() == n,
                    ready@ == self.ready_nodes(extra@, visited@, w as int),
                    forall|a: int| 0 <= a < ready@.len() ==> #[trigger] ready@[a] < w,
                    forall|a: int, b: int| 0 <= a < b < ready@.len() ==> #[trigger] ready@[a] < #[trigger] ready@[b],
                    forall|a: int|
                        0 <= a < ready@.len() ==> !visited@[#[trigger] ready@[a] as int] && (forall|i: int|
                            #![trigger self.connection_genes@[i]]
                            self.enabled(i) && self.connection_genes@[i].to == ready@[a] ==> visited@[self.connection_genes@[i].from as int])
                            && (forall|j: int|
                            #![trigger extra@[j]]
                            0 <= j < extra@.len() && extra@[j].1 == ready@[a] ==> visited@[extra@[j].0 as int]),
                    ready@.len() == 0 ==> forall|u: int|
                        0 <= u < w && !#[trigger] visited@[u] ==> !((forall|i: int|
                            #![trigger self.connection_genes@[i]]
                            self.enabled(i) && self.connection_genes@[i].to == u ==> visited@[self.connection_genes@[i].from as int])
                            && (forall|j: int|
                            #![trigger extra@[j]]
                            0 <= j < extra@.len() && extra@[j].1 == u ==> visited@[extra@[j].0 as int])),
                decreases n - w,
            {
                if !visited[w] && self.sources_visited(extra, &visited, w) {
                    ready.push(w);
                }
                w += 1;
            }
            if ready.len() == 0 {
                proof {
                    assert(self.passes(extra@, visited@, fuel) =~= Seq::<usize>::empty());
                    assert(order@ + Seq::<usize>::empty() =~= order@);
                }
                break;
            }
            let ghost start_visited = visited@;
            let ghost start_len = order@.len();
            let ghost start_order = order@;
            proof {
                assert(ready@ == self.ready_nodes(extra@, start_visited, self.node_count() as int));
                assert(ready@.subrange(0, 0) =~= Seq::<usize>::empty());
                assert(order@ =~= start_order + ready@.subrange(0, 0));
                assert(visited@ =~= Seq::new(n as nat, |v: int| start_visited[v] || ready@.subrange(0, 0).contains(v as usize)));
                let x = ready@[0];
                assert(!seen.contains(x));
                lemma_indices_below(n);
                lemma_len_subset(seen, Set::new(|y: usize| y < n).remove(x));
            }
            let mut k: usize = 0;
            while k < ready.len()
                invariant
                    k <= ready@.len(),
                    n == self.node_count(),
                    self.connections_in_range(),
                    pairs_in_range(extra@, self.node_count()),
                    start_len + k == order@.len(),
                    self.order_state(extra@, visited@, order@, pos),
                    forall|u: int| 0 <= u < n && self.is_input_node(u) ==> #[trigger] visited@[u],
                    seen.finite(),
                    seen.len() == order@.len(),
                    forall|u: usize| #[trigger] seen.contains(u) <==> (u < n && visited@[u as int]),
                    start_visited.len() == n,
                    order@ == start_order + ready@.subrange(0, k as int),
                    ready@ == self.ready_nodes(extra@, start_visited, self.node_count() as int),
                    order@.len() + fuel >= n,
                    start_len < n,
                    start_order + self.passes(extra@, start_visited, fuel) == self.pass_order(extra@),
                    visited@ == Seq::new(n as nat, |v: int| start_visited[v] || ready@.subrange(0, k as int).contains(v as usize)),
                    forall|u: int| 0 <= u < n && #[trigger] start_visited[u] ==> visited@[u] && pos[u] < start_len,
                    forall|u: int| 0 <= u < n && #[trigger] visited@[u] && !start_visited[u] ==> pos[u] >= start_len,
                    forall|a: int| 0 <= a < ready@.len() ==> #[trigger] ready@[a] < n,
                    forall|a: int, b: int| 0 <= a < b < ready@.len() ==> #[trigger] ready@[a] < #[trigger] ready@[b],
                    forall|a: int| k <= a < ready@.len() ==> !visited@[#[trigger] ready@[a] as int],
                    forall|a: int|
                        0 <= a < ready@.len() ==> !start_visited[#[trigger] ready@[a] as int] && (forall|i: int|
                            #![trigger self.connection_genes@[i]]
                            self.enabled(i) && self.connection_genes@[i].to == ready@[a] ==> start_visited[self.connection_genes@[i].from as int])
                            && (forall|j: int|
                            #![trigger extra@[j]]
                            0 <= j < extra@.len() && extra@[j].1 == ready@[a] ==> start_visited[extra@[j].0 as int]),
                decreases ready@.len() - k,
            {
                let x = ready[k];
                let ghost sub0 = ready@.subrange(0, k as int);
                let ghost sub1 = ready@.subrange(0, k + 1);
                proof {
                    assert(!visited@[x as int]);
                    pos = pos.update(x as int, order@.len() as int);
                    seen = seen.insert(x);
                    assert(sub1 =~= sub0.push(x));
                }
                visited.set(x, true);
                order.push(x);
                k += 1;
                proof {
                    assert forall|a: int| k <= a < ready@.len() implies !visited@[#[trigger] ready@[a] as int] by {
                        assert(ready@[(k - 1) as int] < ready@[a]);
                    }
                    assert(order@ =~= start_order + sub1);
                    assert forall|v: int| 0 <= v < n implies #[trigger] visited@[v] == (start_visited[v] || sub1.contains(v as usize)) by {
                        if sub1.contains(v as usize) && v != x {
                            let idx = choose|idx: int| 0 <= idx < sub1.len() && sub1[idx] == v as usize;
                            assert(idx < sub0.len());
                            assert(sub0[idx] == v as usize);
                        }
                        if sub0.contains(v as usize) {
                            let idx = choose|idx: int| 0 <= idx < sub0.len() && sub0[idx] == v as usize;
                            assert(sub1[idx] == v as usize);
                        }
                        if v == x {
                            assert(sub1[sub0.len() as int] == x);
                        }
                    }
                    assert(visited@ =~= Seq::new(n as nat, |v: int| start_visited[v] || sub1.contains(v as usize)));
                }
            }
            proof {
                lemma_indices_below(n);
                lemma_len_subset(seen, Set::new(|x: usize| x < n));
                assert(ready@.subrange(0, k as int) =~= ready@);
                assert(visited@ =~= mark_visited(start_visited, ready@));
                assert(self.passes(extra@, start_visited, fuel) == ready@ + self.passes(
                    extra@,
                    mark_visited(start_visited, ready@),
                    (fuel - 1) as nat,
                ));
                assert(start_order + ready@ + self.passes(extra@, visited@, (fuel - 1) as nat) =~= start_order + (ready@
                    + self.passes(extra@, visited@, (fuel - 1) as nat)));
                fuel = (fuel - 1) as nat;
            }
        }
        let mut all = true;
        let mut u: usize = 0;
        while u < n
            invariant
                u <= n,
                visited@.len() == n,
                all == (forall|x: int| 0 <= x < u ==> #[trigger] visited@[x]),
            decreases n - u,
        {
            if !visited[u] {
                all = false;
            }
            u += 1;
        }
        if all {
            proof {
                lemma_indices_below(n);
                assert(seen =~= Set::new(|x: usize| x < n));
                assert forall|x: usize| x < n implies #[trigger] order@.contains(x) by {
                    assert(visited@[x as int]);
                    assert(order@[pos[x as int]] == x);
                }
                let rank = |x: usize| pos[x as int];
                assert(self.ranked_by(extra@, rank));
                assert(order@.no_duplicates()) by {
                    assert forall|a: int, b: int|
                        0 <= a < order@.len() && 0 <= b < order@.len() && a != b implies order@[a]
                        != order@[b] by {
                        assert(pos[order@[a] as int] == a);
                        assert(pos[order@[b] as int] == b);
                    }
                }
            }
            Some(order)
        } else {
            proof {
                let x = choose|x: int| 0 <= x < n && !visited@[x];
                if self.acyclic_with(extra@) {
                    let rank = choose|rank: spec_fn(usize) -> int| self.ranked_by(extra@, rank);
                    let p = |y: usize| y < n && !visited@[y as int];
                    assert(p(x as usize));
                    let m = lemma_least_rank(p, rank, n as nat);
                    assert(!visited@[m as int]);
                    if exists|i: int|
                        #![trigger self.connection_genes@[i]]
                        self.enabled(i) && self.connection_genes@[i].to == m && !visited@[self.connection_genes@[i].from as int] {
                        let i = choose|i: int|
                            #![trigger self.connection_genes@[i]]
                            self.enabled(i) && self.connection_genes@[i].to == m && !visited@[self.connection_genes@[i].from as int];
                        let f = self.connection_genes@[i].from;
                        assert(p(f));
                    } else {
                        let j = choose|j: int|
                            #![trigger extra@[j]]
                            0 <= j < extra@.len() && extra@[j].1 == m && !visited@[extra@[j].0 as int];
                        let f = extra@[j].0;
                        assert(p(f));
                    }
                }
            }
            None
        }
    }
}


impl<W: Copy> NodeGene<W> {
    /// A hidden or output node: drawn activation (never `Input`) and
    /// aggregation, and the given bias.
    pub fn new_with_bias(kind: NodeKind, bias: W) -> (r: Self)
        ensures
            r.kind == kind,
            r.bias == bias,
            r.activation != ActivationKind::Input,
    {
        NodeGene {
            kind,
            activation: ActivationKind::random(),
            aggregation: Aggregation::random(),
            bias,
        }
    }
}

impl<W: Copy + Default> NodeGene<W> {
    /// A fresh node of the given kind. An input node takes the `Input`
    /// activation and the default bias; any other node draws its
    /// activation and aggregation, and takes its bias from `fresh`.
    pub fn new<F: Fn() -> W>(kind: NodeKind, fresh: &F) -> (r: Self)
        requires
            fresh.requires(()),
        ensures
            r.kind == kind,
            (r.activation == ActivationKind::Input) == (kind == NodeKind::Input),
            kind == NodeKind::Input ==> call_ensures(W::default, (), r.bias),
            kind != NodeKind::Input ==> fresh.ensures((), r.bias),
    {
        if kind.is_input() {
            NodeGene {
                kind,
                activation: ActivationKind::Input,
                aggregation: Aggregation::random(),
                bias: W::default(),
            }
        } else {
            let bias = fresh();
            NodeGene::new_with_bias(kind, bias)
        }
    }
}

impl<W: Copy + Default> Genome<W> {
    /// The minimal genome: `inputs` input nodes, `outputs` output nodes, no
    /// hidden node, and an enabled connection from every input to every
    /// output, listed by input and then by output. Weights and non-input
    /// biases come from `fresh`.
    pub fn new<F: Fn() -> W>(inputs: usize, outputs: usize, fresh: &F) -> (g: Self)
        requires
            inputs + outputs < usize::MAX,
            fresh.requires(()),
        ensures
            g.wf(),
            g.inputs == inputs,
            g.outputs == outputs,
            g.node_count() == inputs + outputs,
            g.pairs_sorted(),
            forall|i: int|
                0 <= i < g.connection_genes@.len() ==> g.enabled(i)
                    && #[trigger] g.connection_genes@[i].from < inputs && inputs
                    <= g.connection_genes@[i].to < inputs + outputs,
            forall|u: int, v: int|
                0 <= u < inputs && inputs <= v < inputs + outputs ==> #[trigger] g.has_enabled_edge(u, v),
            forall|v: int|
                0 <= v < inputs ==> call_ensures(W::default, (), (#[trigger] g.node_genes@[v]).bias),
            forall|v: int|
                inputs <= v < inputs + outputs ==> fresh.ensures((), (#[trigger] g.node_genes@[v]).bias),
            forall|i: int|
                0 <= i < g.connection_genes@.len() ==> fresh.ensures((), (#[trigger] g.connection_genes@[i]).weight),
    {
        let mut node_genes: Vec<NodeGene<W>> = Vec::new();
        let total = inputs + outputs;
        let mut v: usize = 0;
        while v < total
            invariant
                v <= total,
                total == inputs + outputs,
                fresh.requires(()),
                node_genes@.len() == v,
                forall|u: int|
                    #![trigger node_genes@[u]]
                    0 <= u < v ==> node_genes@[u].kind == (if u < inputs {
                        NodeKind::Input
                    } else {
                        NodeKind::Output
                    }) && ((node_genes@[u].activation == ActivationKind::Input) == (u < inputs)),
                forall|u: int|
                    0 <= u < v ==> if u < inputs {
                        call_ensures(W::default, (), (#[trigger] node_genes@[u]).bias)
                    } else {
                        fresh.ensures((), node_genes@[u].bias)
                    },
            decreases total - v,
        {
            let kind = if v < inputs {
                NodeKind::Input
            } else {
                NodeKind::Output
            };
            node_genes.push(NodeGene::new(kind, fresh));
            v += 1;
        }
        let mut connection_genes: Vec<ConnectionGene<W>> = Vec::new();
        let mut i: usize = 0;
        while i < inputs
            invariant
                i <= inputs,
                total == inputs + outputs,
                inputs + outputs < usize::MAX,
                fresh.requires(()),
                forall|a: int|
                    0 <= a < connection_genes@.len() ==> !(#[trigger] connection_genes@[a]).disabled
                        && connection_genes@[a].from < i && inputs <= connection_genes@[a].to < total,
                forall|a: int| 0 <= a < connection_genes@.len() ==> fresh.ensures((), (#[trigger] connection_genes@[a]).weight),
                forall|a: int, b: int|
                    0 <= a < b < connection_genes@.len() ==> {
                        let x = #[trigger] connection_genes@[a];
                        let y = #[trigger] connection_genes@[b];
                        x.from < y.from || (x.from == y.from && x.to < y.to)
                    },
                forall|u: int, w: int|
                    0 <= u < i && inputs <= w < total ==> #[trigger] has_pair(connection_genes@, u, w),
            decreases inputs - i,
        {
            let mut o: usize = inputs;
            while o < total
                invariant
                    i < inputs,
                    inputs <= o <= total,
                    total == inputs + outputs,
                    fresh.requires(()),
                    forall|a: int|
                        0 <= a < connection_genes@.len() ==> !(#[trigger] connection_genes@[a]).disabled
                            && (connection_genes@[a].from < i || (connection_genes@[a].from == i
                            && connection_genes@[a].to < o)) && inputs <= connection_genes@[a].to
                            < total,
                    forall|a: int| 0 <= a < connection_genes@.len() ==> fresh.ensures((), (#[trigger] connection_genes@[a]).weight),
                    forall|a: int, b: int|
                        0 <= a < b < connection_genes@.len() ==> {
                            let x = #[trigger] connection_genes@[a];
                            let y = #[trigger] connection_genes@[b];
                            x.from < y.from || (x.from == y.from && x.to < y.to)
                        },
                    forall|u: int, w: int|
                        ((0 <= u < i && inputs <= w < total) || (u == i && inputs <= w < o))
                            ==> #[trigger] has_pair(connection_genes@, u, w),
                decreases total - o,
            {
                let weight = fresh();
                let ghost before = connection_genes@;
                connection_genes.push(ConnectionGene::new(i, o, weight));
                proof {
                    assert forall|u: int, w: int|
                        ((0 <= u < i && inputs <= w < total) || (u == i && inputs <= w < o + 1))
                            implies #[trigger] has_pair(connection_genes@, u, w) by {
                        if u == i && w == o {
                            assert(connection_genes@[before.len() as int].from == u);
                        } else {
                            assert(has_pair(before, u, w));
                            let a = choose|a: int|
                                #![trigger before[a]]
                                0 <= a < before.len() && before[a].from == u && before[a].to == w;
                            assert(connection_genes@[a] == before[a]);
                        }
                    }
                }
                o += 1;
            }
            i += 1;
        }
        let g = Genome { inputs, outputs, node_genes, connection_genes };
        proof {
            let rank = |x: usize| if x < inputs { 0int } else { 1int };
            assert(g.ranked_by(Seq::empty(), rank));
            assert forall|u: int, w: int|
                0 <= u < inputs && inputs <= w < inputs + outputs implies #[trigger] g.has_enabled_edge(u, w) by {
                assert(has_pair(g.connection_genes@, u, w));
                let a = choose|a: int|
                    #![trigger g.connection_genes@[a]]
                    0 <= a < g.connection_genes@.len() && g.connection_genes@[a].from == u
                        && g.connection_genes@[a].to == w;
                assert(g.enabled(a));
            }
            assert forall|a: int| 0 <= a < g.connection_genes@.len() implies #[trigger] g.connection_wf(a) by {
                assert(g.node_genes@[g.connection_genes@[a].from as int].kind == NodeKind::Input);
                assert(g.node_genes@[g.connection_genes@[a].to as int].kind == NodeKind::Output);
            }
        }
        g
    }
}


impl<W: Copy> Genome<W> {
    /// A genome with no nodes and no connections, to be filled by hand.
    pub fn empty(inputs: usize, outputs: usize) -> (g: Self)
        ensures
            g.inputs == inputs,
            g.outputs == outputs,
            g.node_genes@.len() == 0,
            g.connection_genes@.len() == 0,
    {
        Genome { inputs, outputs, node_genes: Vec::new(), connection_genes: Vec::new() }
    }

    pub fn input_count(&self) -> (r: usize)
        ensures
            r == self.inputs,
    {
        self.inputs
    }

    pub fn output_count(&self) -> (r: usize)
        ensures
            r == self.outputs,
    {
        self.outputs
    }

    pub fn nodes(&self) -> (r: &[NodeGene<W>])
        ensures
            r@ == self.node_genes@,
    {
        self.node_genes.as_slice()
    }

    pub fn connections(&self) -> (r: &[ConnectionGene<W>])
        ensures
            r@ == self.connection_genes@,
    {
        self.connection_genes.as_slice()
    }

    /// A topological order of the nodes over the enabled connections, or
    /// `None` when they close a cycle. A well-formed genome always has one.
    pub fn node_order(&self) -> (r: Option<Vec<usize>>)
        requires
            self.connections_in_range(),
        ensures
            r is Some <==> self.acyclic(),
            r is Some ==> self.is_node_order(Seq::empty(), r->0@),
            r is Some ==> r->0@ == self.pass_order(Seq::empty()),
            self.wf() ==> r is Some,
    {
        let none: Vec<(usize, usize)> = Vec::new();
        assert(none@ =~= Seq::<(usize, usize)>::empty());
        self.calculate_node_order(&none)
    }

    /// As `node_order`, with `additional_connections` counted as enabled
    /// connections: tells whether adding them would close a cycle.
    pub fn node_order_with(&self, additional_connections: Vec<ConnectionGene<W>>) -> (r: Option<
        Vec<usize>,
    >)
        requires
            self.connections_in_range(),
            edges_in_range(additional_connections@, self.node_count()),
        ensures
            r is Some <==> self.acyclic_with(pairs_of(additional_connections@)),
            r is Some ==> self.is_node_order(pairs_of(additional_connections@), r->0@),
            r is Some ==> r->0@ == self.pass_order(pairs_of(additional_connections@)),
    {
        let mut pairs: Vec<(usize, usize)> = Vec::new();
        let mut j: usize = 0;
        while j < additional_connections.len()
            invariant
                j <= additional_connections@.len(),
                pairs@ =~= pairs_of(additional_connections@.subrange(0, j as int)),
            decreases additional_connections@.len() - j,
        {
            let c = additional_connections[j];
            pairs.push((c.from, c.to));
            j += 1;
            assert(additional_connections@.subrange(0, j as int) =~= additional_connections@.subrange(0, j - 1).push(c));
        }
        assert(additional_connections@.subrange(0, j as int) =~= additional_connections@);
        self.calculate_node_order(&pairs)
    }

    /// Whether the genome satisfies the library's invariant: layout and
    /// activations of the nodes, ends of the connections, one connection per
    /// pair of nodes, and no cycle of enabled connections.
    pub fn is_well_formed(&self) -> (r: bool)
        ensures
            r == self.wf(),
    {
        let n = self.node_genes.len();
        if self.inputs > n || self.outputs > n - self.inputs {
            return false;
        }
        let mut v: usize = 0;
        while v < n
            invariant
                v <= n,
                n == self.node_count(),
                self.inputs + self.outputs <= n,
                forall|u: int|
                    #![trigger self.node_genes@[u]]
                    0 <= u < v ==> self.node_genes@[u].kind == self.layout_kind(u) && ((
                    self.node_genes@[u].activation == ActivationKind::Input) == (u < self.inputs)),
            decreases n - v,
        {
            let node = self.node_genes[v];
            let expected = if v < self.inputs {
                NodeKind::Input
            } else if v < self.inputs + self.outputs {
                NodeKind::Output
            } else {
                NodeKind::Hidden
            };
            let input_activation = match node.activation {
                ActivationKind::Input => true,
                _ => false,
            };
            if node.kind != expected || input_activation != (v < self.inputs) {
                return false;
            }
            v += 1;
        }
        let m = self.connection_genes.len();
        let mut i: usize = 0;
        while i < m
            invariant
                i <= m,
                m == self.connection_genes@.len(),
                n == self.node_count(),
                forall|k: int| 0 <= k < i ==> #[trigger] self.connection_wf(k),
                forall|k: int, j: int| 0 <= k < i && 0 <= j < m && k != j ==> (#[trigger] self.connection_genes@[k]).from
                    != (#[trigger] self.connection_genes@[j]).from || self.connection_genes@[k].to
                    != self.connection_genes@[j].to,
            decreases m - i,
        {
            let c = self.connection_genes[i];
            if c.from >= n || c.to >= n || c.from == c.to || self.node_genes[c.to].kind.is_input()
                || self.node_genes[c.from].kind.is_output() {
                assert(!self.connection_wf(i as int));
                return false;
            }
            let mut j: usize = 0;
            while j < m
                invariant
                    j <= m,
                    i < m,
                    m == self.connection_genes@.len(),
                    c == self.connection_genes@[i as int],
                    forall|l: int| 0 <= l < j && l != i ==> (#[trigger] self.connection_genes@[l]).from != c.from
                        || self.connection_genes@[l].to != c.to,
                decreases m - j,
            {
                if j != i && self.connection_genes[j].from == c.from && self.connection_genes[j].to == c.to {
                    return false;
                }
                j += 1;
            }
            i += 1;
        }
        proof {
            assert forall|j: int| #![trigger self.connection_genes@[j]] 0 <= j < m implies self.connection_genes@[j].from
                < self.node_count() && self.connection_genes@[j].to < self.node_count() by {
                assert(self.connection_wf(j));
            }
        }
        self.node_order().is_some()
    }

    /// Whether a path of enabled connections leads from `source` to
    /// `target`, found by a search over outgoing enabled connections.
    pub fn is_projecting(&self, source: usize, target: usize) -> (r: bool)
        requires
            self.connections_in_range(),
            source < self.node_count(),
            target < self.node_count(),
        ensures
            r == self.reaches(source, target),
    {
        let n = self.node_genes.len();
        let mut visited: Vec<bool> = Vec::new();
        let mut v: usize = 0;
        while v < n
            invariant
                v <= n,
                visited@.len() == v,
                forall|u: int| 0 <= u < v ==> !#[trigger] visited@[u],
            decreases n - v,
        {
            visited.push(false);
            v += 1;
        }
        let ghost mut seen: Set<usize> = Set::empty();
        let mut stack: Vec<usize> = Vec::new();
        stack.push(source);
        proof {
            lemma_indices_below(n);
            assert(stack@[0] == source);
        }
        while stack.len() > 0
            invariant
                n == self.node_count(),
                self.connections_in_range(),
                source < n,
                target < n,
                visited@.len() == n,
                forall|a: int| 0 <= a < stack@.len() ==> #[trigger] stack@[a] < n && (visited@[stack@[a] as int] || stack@[a] == source),
                forall|s: Set<usize>|
                    #[trigger] self.closed_under(s) && self.successors_in(source, s) ==> (forall|x: int|
                        0 <= x < n && #[trigger] visited@[x] ==> s.contains(x as usize)),
                forall|x: usize| x < n && #[trigger] visited@[x as int] ==> stack@.contains(x) || self.expanded(visited@, x),
                stack@.contains(source) || self.expanded(visited@, source),
                seen.finite(),
                forall|x: usize| #[trigger] seen.contains(x) <==> (x < n && visited@[x as int]),
                Set::new(|x: usize| x < n).finite(),
                Set::new(|x: usize| x < n).len() == n,
            decreases 2 * (n - seen.len()) + stack@.len(),
        {
            proof {
                lemma_len_subset(seen, Set::new(|x: usize| x < n));
            }
            let ghost measure = 2 * (n - seen.len()) + stack@.len();
            let ghost full_stack = stack@;
            let u = stack.pop().unwrap();
            proof {
                assert(full_stack =~= stack@.push(u));
                assert forall|x: usize| x < n && #[trigger] visited@[x as int] implies x == u || stack@.contains(x) || self.expanded(visited@, x) by {
                    if full_stack.contains(x) && x != u {
                        let a = choose|a: int| 0 <= a < full_stack.len() && full_stack[a] == x;
                        assert(stack@[a] == x);
                    }
                }
                if full_stack.contains(source) && source != u {
                    let a = choose|a: int| 0 <= a < full_stack.len() && full_stack[a] == source;
                    assert(stack@[a] == source);
                }
            }
            let mut i: usize = 0;
            while i < self.connection_genes.len()
                invariant
                    n == self.node_count(),
                    self.connections_in_range(),
                    source < n,
                    target < n,
                    u < n,
                    visited@[u as int] || u == source,
                    visited@.len() == n,
                    i <= self.connection_genes@.len(),
                    forall|a: int| 0 <= a < stack@.len() ==> #[trigger] stack@[a] < n && (visited@[stack@[a] as int] || stack@[a] == source),
                    forall|s: Set<usize>|
                        #[trigger] self.closed_under(s) && self.successors_in(source, s) ==> (forall|x: int|
                            0 <= x < n && #[trigger] visited@[x] ==> s.contains(x as usize)),
                    forall|x: usize| x < n && #[trigger] visited@[x as int] ==> x == u || stack@.contains(x) || self.expanded(visited@, x),
                    source == u || stack@.contains(source) || self.expanded(visited@, source),
                    forall|k: int|
                        #![trigger self.connection_genes@[k]]
                        0 <= k < i && self.enabled(k) && self.connection_genes@[k].from == u ==> visited@[self.connection_genes@[k].to as int],
                    seen.finite(),
                    forall|x: usize| #[trigger] seen.contains(x) <==> (x < n && visited@[x as int]),
                    Set::new(|x: usize| x < n).finite(),
                    Set::new(|x: usize| x < n).len() == n,
                    2 * (n - seen.len()) + stack@.len() < measure,
                decreases self.connection_genes@.len() - i,
            {
                let c = self.connection_genes[i];
                if !c.disabled && c.from == u && !visited[c.to] {
                    let ghost old_stack = stack@;
                    let ghost old_visited = visited@;
                    proof {
                        assert(self.connection_genes@[i as int].to < n);
                        assert forall|s: Set<usize>|
                            #[trigger] self.closed_under(s) && self.successors_in(source, s) implies s.contains(c.to) by {
                            if u != source {
                                assert(s.contains(u));
                            }
                        }
                        seen = seen.insert(c.to);
                    }
                    visited.set(c.to, true);
                    stack.push(c.to);
                    proof {
                        assert forall|x: usize| x < n && #[trigger] visited@[x as int] implies x == u || stack@.contains(x) || self.expanded(visited@, x) by {
                            if x == c.to {
                                assert(stack@[stack@.len() - 1] == x);
                            } else if x != u {
                                if old_stack.contains(x) {
                                    let a = choose|a: int| 0 <= a < old_stack.len() && old_stack[a] == x;
                                    assert(stack@[a] == x);
                                }
                            }
                        }
                        if source != u && old_stack.contains(source) {
                            let a = choose|a: int| 0 <= a < old_stack.len() && old_stack[a] == source;
                            assert(stack@[a] == source);
                        }
                    }
                }
                i += 1;
            }
            proof {
                lemma_len_subset(seen, Set::new(|x: usize| x < n));
            }
        }
        proof {
            let all = Set::new(|x: usize| x < n && visited@[x as int]);
            assert(self.closed_under(all));
            assert(self.successors_in(source, all));
        }
        visited[target]
    }

    /// The longest-path distance of every node from the inputs over enabled
    /// connections, `None` for a node that no input reaches. Computed along
    /// the node order, where every source precedes its targets.
    pub fn node_distances(&self) -> (d: Vec<Option<usize>>)
        requires
            self.wf(),
        ensures
            self.is_input_distance(d@),
    {
        let n = self.node_genes.len();
        proof {
            self.lemma_wf_in_range();
        }
        let order = match self.node_order() {
            Some(o) => o,
            None => {
                return Vec::new();
            },
        };
        let ghost pos = |u: usize| choose|a: int| 0 <= a < n && order@[a] == u;
        proof {
            assert forall|u: usize| u < n implies 0 <= #[trigger] pos(u) < n && order@[pos(u)] == u by {
                assert(order@.contains(u));
            }
            assert forall|a: int| 0 <= a < n implies #[trigger] pos(order@[a]) == a by {
                let u = order@[a];
                assert(order@.contains(u));
                let b = pos(u);
                assert(order@[b] == u);
            }
        }
        let mut d: Vec<Option<usize>> = Vec::new();
        let mut v: usize = 0;
        while v < n
            invariant
                v <= n,
                d@.len() == v,
                forall|u: int| 0 <= u < v ==> #[trigger] d@[u] is None,
            decreases n - v,
        {
            d.push(None);
            v += 1;
        }
        let mut idx: usize = 0;
        while idx < n
            invariant
                self.wf(),
                n == self.node_count(),
                idx <= n,
                d@.len() == n,
                self.is_node_order(Seq::empty(), order@),
                forall|u: usize| u < n ==> 0 <= #[trigger] pos(u) < n && order@[pos(u)] == u,
                forall|a: int| 0 <= a < n ==> #[trigger] pos(order@[a]) == a,
                forall|u: usize| u < n && pos(u) >= idx ==> #[trigger] d@[u as int] is None,
                forall|u: usize| u < n && pos(u) < idx ==> #[trigger] self.distance_at(d@, u as int),
                forall|u: usize| u < n && pos(u) < idx && #[trigger] d@[u as int] is Some ==> d@[u as int]->0 <= pos(u),
            decreases n - idx,
        {
            let v = order[idx];
            let ghost before = d@;
            let mut best: Option<usize> = None;
            if self.node_genes[v].kind.is_input() {
                best = Some(0);
            } else {
                let mut i: usize = 0;
                while i < self.connection_genes.len()
                    invariant
                        self.wf(),
                        n == self.node_count(),
                        v < n,
                        pos(v) == idx,
                        idx < n,
                        !self.is_input_node(v as int),
                        i <= self.connection_genes@.len(),
                        d@ == before,
                        d@.len() == n,
                        self.is_node_order(Seq::empty(), order@),
                        forall|u: usize| u < n ==> 0 <= #[trigger] pos(u) < n && order@[pos(u)] == u,
                        forall|u: usize| u < n && pos(u) >= idx ==> #[trigger] d@[u as int] is None,
                        forall|u: usize| u < n && pos(u) < idx && #[trigger] d@[u as int] is Some ==> d@[u as int]->0 <= pos(u),
                        best is Some ==> best->0 <= idx,
                        forall|k: int|
                            #![trigger self.connection_genes@[k]]
                            0 <= k < i && self.enabled(k) && self.connection_genes@[k].to == v && d@[self.connection_genes@[k].from as int] is Some
                                ==> best is Some && d@[self.connection_genes@[k].from as int]->0 < best->0,
                        best is Some ==> exists|k: int|
                            #![trigger self.connection_genes@[k]]
                            self.enabled(k) && self.connection_genes@[k].to == v && d@[self.connection_genes@[k].from as int] is Some
                                && d@[self.connection_genes@[k].from as int]->0 + 1 == best->0,
                    decreases self.connection_genes@.len() - i,
                {
                    let c = self.connection_genes[i];
                    if !c.disabled && c.to == v {
                        proof {
                            assert(self.connection_wf(i as int));
                        }
                        match d[c.from] {
                            Some(k) => {
                                proof {
                                    let a = pos(c.from);
                                    assert(order@[a] == c.from);
                                    assert(order@[pos(v)] == v);
                                    assert(a < idx);
                                }
                                let candidate = k + 1;
                                let better = match best {
                                    Some(b) => candidate > b,
                                    None => true,
                                };
                                if better {
                                    best = Some(candidate);
                                }
                            },
                            None => {},
                        }
                    }
                    i += 1;
                }
            }
            d.set(v, best);
            proof {
                assert(d@ == before.update(v as int, best));
                assert forall|u: usize| u < n && pos(u) < idx + 1 implies #[trigger] self.distance_at(d@, u as int) by {
                    if u == v {
                        if !self.is_input_node(u as int) {
                            assert forall|i: int|
                                #![trigger self.connection_genes@[i]]
                                self.enabled(i) && self.connection_genes@[i].to == u implies d@[self.connection_genes@[i].from as int]
                                    == before[self.connection_genes@[i].from as int] by {
                                assert(self.connection_wf(i));
                            }
                            if best is Some {
                                let k = choose|k: int|
                                    #![trigger self.connection_genes@[k]]
                                    self.enabled(k) && self.connection_genes@[k].to == v && before[self.connection_genes@[k].from as int] is Some
                                        && before[self.connection_genes@[k].from as int]->0 + 1 == best->0;
                                assert(d@[self.connection_genes@[k].from as int] == before[self.connection_genes@[k].from as int]);
                            }
                            assert(self.distance_at(d@, u as int));
                        }
                    } else {
                        assert(order@[pos(u)] == u);
                        assert(pos(u) < idx);
                        assert(self.distance_at(before, u as int));
                        if !self.is_input_node(u as int) {
                            assert forall|i: int|
                                #![trigger self.connection_genes@[i]]
                                self.enabled(i) && self.connection_genes@[i].to == u implies self.connection_genes@[i].from != v by {
                                assert(self.connection_wf(i));
                                let f = self.connection_genes@[i].from;
                                if f == v {
                                    assert(order@[pos(u)] == u);
                                    assert(order@[pos(v)] == v);
                                }
                            }
                            if d@[u as int] is Some {
                                let k = choose|k: int|
                                    #![trigger self.connection_genes@[k]]
                                    self.enabled(k) && self.connection_genes@[k].to == u && before[self.connection_genes@[k].from as int] is Some
                                        && before[self.connection_genes@[k].from as int]->0 + 1 == before[u as int]->0;
                                assert(self.connection_genes@[k].from != v);
                            }
                            assert(d@[u as int] == before[u as int]);
                            assert forall|i: int|
                                #![trigger self.connection_genes@[i]]
                                self.enabled(i) && self.connection_genes@[i].to == u implies d@[self.connection_genes@[i].from as int]
                                    == before[self.connection_genes@[i].from as int] by {
                                assert(self.connection_wf(i));
                                assert(self.connection_genes@[i].from != v);
                            }
                        }
                        assert(self.distance_at(d@, u as int));
                    }
                }
            }
            idx += 1;
        }
        proof {
            assert forall|v: int| 0 <= v < self.node_count() implies #[trigger] self.distance_at(d@, v) by {
                assert(pos(v as usize) < n);
            }
        }
        d
    }

    /// Whether a connection from `from` to `to` may be added.
    pub fn can_connect(&self, from: usize, to: usize) -> (r: bool)
        requires
            self.wf(),
            from < self.node_count(),
            to < self.node_count(),
        ensures
            r == self.connectable(from, to),
    {
        proof {
            self.lemma_wf_in_range();
        }
        if self.node_genes[from].kind.is_output() || self.node_genes[to].kind.is_input() || from == to {
            return false;
        }
        let d = self.node_distances();
        let n = self.node_genes.len();
        let allowed = match (d[from], d[to]) {
            (Some(a), Some(b)) => a <= b,
            _ => true,
        };
        proof {
            assert forall|d2: Seq<Option<usize>>| #[trigger] self.is_input_distance(d2) implies d2 == d@ by {
                self.lemma_input_distance_unique(d2, d@);
            }
        }
        if !allowed {
            return false;
        }
        if self.is_projecting(from, to) {
            return false;
        }
        let mut extra: Vec<(usize, usize)> = Vec::new();
        extra.push((from, to));
        assert(extra@ =~= seq![(from, to)]);
        self.calculate_node_order(&extra).is_some()
    }

    /// Adds the connection for each pair of `params` in turn, as
    /// `add_connection` does, and returns each outcome. Every connection
    /// that changed or was appended joins one of the pairs.
    pub fn add_many_connections<F: Fn() -> W>(&mut self, params: &Vec<(usize, usize)>, fresh: &F) -> (r: Vec<
        Result<usize, EditError>,
    >)
        requires
            old(self).wf(),
            pairs_in_range(params@, old(self).node_count()),
            fresh.requires(()),
        ensures
            final(self).wf(),
            final(self).inputs == old(self).inputs,
            final(self).outputs == old(self).outputs,
            final(self).node_genes@ == old(self).node_genes@,
            r@.len() == params@.len(),
            keeps_genes(*old(self), *final(self)),
            old(self).connection_genes@.len() <= final(self).connection_genes@.len(),
            forall|k: int|
                0 <= k < final(self).connection_genes@.len() ==> (k < old(self).connection_genes@.len()
                    && #[trigger] final(self).connection_genes@[k] == old(self).connection_genes@[k])
                    || pair_listed(params@, final(self).connection_genes@[k].from, final(self).connection_genes@[k].to),
    {
        let mut results: Vec<Result<usize, EditError>> = Vec::new();
        let mut a: usize = 0;
        while a < params.len()
            invariant
                a <= params@.len(),
                results@.len() == a,
                fresh.requires(()),
                self.wf(),
                pairs_in_range(params@, old(self).node_count()),
                self.inputs == old(self).inputs,
                self.outputs == old(self).outputs,
                self.node_genes@ == old(self).node_genes@,
                keeps_genes(*old(self), *self),
                old(self).connection_genes@.len() <= self.connection_genes@.len(),
                forall|k: int|
                    0 <= k < self.connection_genes@.len() ==> (k < old(self).connection_genes@.len()
                        && #[trigger] self.connection_genes@[k] == old(self).connection_genes@[k])
                        || pair_listed(params@, self.connection_genes@[k].from, self.connection_genes@[k].to),
            decreases params@.len() - a,
        {
            let (from, to) = params[a];
            let ghost before = *self;
            let added = self.add_connection(from, to, fresh);
            proof {
                assert(params@[a as int] == (from, to));
                assert forall|k: int|
                    0 <= k < self.connection_genes@.len() implies (k < old(self).connection_genes@.len()
                        && #[trigger] self.connection_genes@[k] == old(self).connection_genes@[k])
                        || pair_listed(params@, self.connection_genes@[k].from, self.connection_genes@[k].to) by {
                    if added is Ok {
                        let j = added->Ok_0 as int;
                        if k == j {
                            assert(pair_listed(params@, self.connection_genes@[k].from, self.connection_genes@[k].to));
                        } else if has_pair(before.connection_genes@, from as int, to as int) {
                            assert(self.connection_genes@[k] == before.connection_genes@[k]);
                        } else {
                            assert(k < before.connection_genes@.len());
                            assert(self.connection_genes@[k] == before.connection_genes@[k]);
                        }
                    } else {
                        assert(self.connection_genes@[k] == before.connection_genes@[k]);
                    }
                }
            }
            results.push(added);
            a += 1;
        }
        results
    }

    /// Index of the connection from `from` to `to`, enabled or not.
    pub fn find_connection(&self, from: usize, to: usize) -> (r: Option<usize>)
        ensures
            r is Some ==> r->0 < self.connection_genes@.len() && self.connection_genes@[r->0 as int].from == from
                && self.connection_genes@[r->0 as int].to == to,
            r is None <==> !has_pair(self.connection_genes@, from as int, to as int),
    {
        let mut i: usize = 0;
        while i < self.connection_genes.len()
            invariant
                i <= self.connection_genes@.len(),
                forall|k: int|
                    #![trigger self.connection_genes@[k]]
                    0 <= k < i ==> !(self.connection_genes@[k].from == from && self.connection_genes@[k].to == to),
            decreases self.connection_genes@.len() - i,
        {
            if self.connection_genes[i].from == from && self.connection_genes[i].to == to {
                return Some(i);
            }
            i += 1;
        }
        None
    }

    /// Adds the connection from `from` to `to` when `can_connect` allows it:
    /// a disabled connection between them is enabled again with its weight
    /// kept, otherwise a new one is appended with a weight from `fresh`.
    /// Returns the index of that connection.
    pub fn add_connection<F: Fn() -> W>(&mut self, from: usize, to: usize, fresh: &F) -> (r: Result<usize, EditError>)
        requires
            old(self).wf(),
            from < old(self).node_count(),
            to < old(self).node_count(),
            fresh.requires(()),
        ensures
            r is Ok <==> old(self).connectable(from, to),
            r is Err ==> *final(self) == *old(self),
            final(self).wf(),
            final(self).inputs == old(self).inputs,
            final(self).outputs == old(self).outputs,
            final(self).node_genes@ == old(self).node_genes@,
            r is Ok ==> added_at(old(self).connection_genes@, final(self).connection_genes@, r->Ok_0 as int, from, to),
            r is Ok && !has_pair(old(self).connection_genes@, from as int, to as int) ==> fresh.ensures(
                (),
                final(self).connection_genes@[r->Ok_0 as int].weight,
            ),
    {
        if !self.can_connect(from, to) {
            return Err(EditError::Forbidden);
        }
        let ghost rank = choose|rank: spec_fn(usize) -> int| self.ranked_by(seq![(from, to)], rank);
        proof {
            assert(seq![(from, to)][0] == (from, to));
        }
        let index = match self.find_connection(from, to) {
            Some(i) => {
                let mut c = self.connection_genes[i];
                c.disabled = false;
                self.connection_genes.set(i, c);
                i
            },
            None => {
                let weight = fresh();
                self.connection_genes.push(ConnectionGene::new(from, to, weight));
                self.connection_genes.len() - 1
            },
        };
        proof {
            let o = old(self);
            assert forall|i: int|
                #![trigger self.connection_genes@[i]]
                self.enabled(i) && !self.is_input_node(self.connection_genes@[i].to as int) implies rank(
                    self.connection_genes@[i].from,
                ) < rank(self.connection_genes@[i].to) by {
                if i != index {
                    assert(self.connection_genes@[i] == o.connection_genes@[i]);
                    assert(o.enabled(i));
                }
            }
            assert(self.ranked_by(Seq::empty(), rank));
            assert forall|i: int| 0 <= i < self.connection_genes@.len() implies #[trigger] self.connection_wf(i) by {
                if i != index {
                    assert(self.connection_genes@[i] == o.connection_genes@[i]);
                    assert(o.connection_wf(i));
                }
            }
            assert forall|i: int, j: int|
                0 <= i < self.connection_genes@.len() && 0 <= j < self.connection_genes@.len() && i != j
                    implies (#[trigger] self.connection_genes@[i]).from != (#[trigger] self.connection_genes@[j]).from
                    || self.connection_genes@[i].to != self.connection_genes@[j].to by {
                if i != index && j != index {
                    assert(self.connection_genes@[i] == o.connection_genes@[i]);
                    assert(self.connection_genes@[j] == o.connection_genes@[j]);
                } else if i == index && index == o.connection_genes@.len() {
                    assert(self.connection_genes@[j] == o.connection_genes@[j]);
                } else if j == index && index == o.connection_genes@.len() {
                    assert(self.connection_genes@[i] == o.connection_genes@[i]);
                } else if i == index {
                    assert(self.connection_genes@[j] == o.connection_genes@[j]);
                    assert(o.connection_genes@[i].from == from);
                } else {
                    assert(self.connection_genes@[i] == o.connection_genes@[i]);
                    assert(o.connection_genes@[j].from == from);
                }
            }
        }
        Ok(index)
    }

    /// Whether a path of enabled connections leads from `source` to
    /// `target`.
    pub fn is_projected(&self, target: usize, source: usize) -> (r: bool)
        requires
            self.connections_in_range(),
            source < self.node_count(),
            target < self.node_count(),
        ensures
            r == self.reaches(source, target),
    {
        self.is_projecting(source, target)
    }

    /// There is an enabled connection from `source` to `target`.
    pub fn is_projecting_directly(&self, source: usize, target: usize) -> (r: bool)
        ensures
            r == self.has_enabled_edge(source as int, target as int),
    {
        let mut i: usize = 0;
        while i < self.connection_genes.len()
            invariant
                i <= self.connection_genes@.len(),
                forall|k: int|
                    #![trigger self.connection_genes@[k]]
                    0 <= k < i && self.enabled(k) ==> !(self.connection_genes@[k].from == source
                        && self.connection_genes@[k].to == target),
            decreases self.connection_genes@.len() - i,
        {
            let c = &self.connection_genes[i];
            if !c.disabled && c.from == source && c.to == target {
                return true;
            }
            i += 1;
        }
        false
    }

    /// There is an enabled connection from `source` to `target`.
    pub fn is_projected_directly(&self, target: usize, source: usize) -> (r: bool)
        ensures
            r == self.has_enabled_edge(source as int, target as int),
    {
        self.is_projecting_directly(source, target)
    }

    /// Disables connection `index`; nothing else changes.
    pub fn disable_connection(&mut self, index: usize)
        requires
            index < old(self).connection_genes@.len(),
        ensures
            final(self).inputs == old(self).inputs,
            final(self).outputs == old(self).outputs,
            final(self).node_genes@ == old(self).node_genes@,
            final(self).connection_genes@ == old(self).connection_genes@.update(
                index as int,
                ConnectionGene { disabled: true, ..old(self).connection_genes@[index as int] },
            ),
            old(self).wf() ==> final(self).wf(),
    {
        let mut c = self.connection_genes[index];
        c.disabled = true;
        self.connection_genes.set(index, c);
        proof {
            if old(self).wf() {
                let rank = choose|rank: spec_fn(usize) -> int| old(self).ranked_by(Seq::empty(), rank);
                assert(self.ranked_by(Seq::empty(), rank));
                assert forall|i: int| 0 <= i < self.connection_genes@.len() implies #[trigger] self.connection_wf(i) by {
                    assert(old(self).connection_wf(i));
                }
            }
        }
    }

    /// Disables every connection listed in `indexes`; nothing else changes.
    pub fn disable_many_connections(&mut self, indexes: &Vec<usize>)
        requires
            forall|a: int| 0 <= a < indexes@.len() ==> #[trigger] indexes@[a] < old(self).connection_genes@.len(),
        ensures
            final(self).inputs == old(self).inputs,
            final(self).outputs == old(self).outputs,
            final(self).node_genes@ == old(self).node_genes@,
            final(self).connection_genes@.len() == old(self).connection_genes@.len(),
            forall|k: int|
                0 <= k < final(self).connection_genes@.len() ==> #[trigger] final(self).connection_genes@[k] == if indexes@.contains(k as usize) {
                    ConnectionGene { disabled: true, ..old(self).connection_genes@[k] }
                } else {
                    old(self).connection_genes@[k]
                },
            old(self).wf() ==> final(self).wf(),
    {
        let mut a: usize = 0;
        while a < indexes.len()
            invariant
                a <= indexes@.len(),
                forall|b: int| 0 <= b < indexes@.len() ==> #[trigger] indexes@[b] < old(self).connection_genes@.len(),
                self.inputs == old(self).inputs,
                self.outputs == old(self).outputs,
                self.node_genes@ == old(self).node_genes@,
                self.connection_genes@.len() == old(self).connection_genes@.len(),
                forall|k: int|
                    0 <= k < self.connection_genes@.len() ==> #[trigger] self.connection_genes@[k] == if indexes@.subrange(0, a as int).contains(k as usize) {
                        ConnectionGene { disabled: true, ..old(self).connection_genes@[k] }
                    } else {
                        old(self).connection_genes@[k]
                    },
                old(self).wf() ==> self.wf(),
            decreases indexes@.len() - a,
        {
            let i = indexes[a];
            let ghost before = self.connection_genes@;
            self.disable_connection(i);
            let len = self.connection_genes.len();
            proof {
                let done = indexes@.subrange(0, a + 1);
                assert forall|k: int| 0 <= k < self.connection_genes@.len() implies #[trigger] self.connection_genes@[k] == if done.contains(k as usize) {
                    ConnectionGene { disabled: true, ..old(self).connection_genes@[k] }
                } else {
                    old(self).connection_genes@[k]
                } by {
                    assert(done[a as int] == i);
                    if done.contains(k as usize) && k != i {
                        let b = choose|b: int| 0 <= b < done.len() && done[b] == k as usize;
                        assert(b != a);
                        assert(indexes@.subrange(0, a as int)[b] == k as usize);
                    }
                    if indexes@.subrange(0, a as int).contains(k as usize) {
                        let b = choose|b: int| 0 <= b < a && indexes@.subrange(0, a as int)[b] == k as usize;
                        assert(done[b] == k as usize);
                    }
                    if k == i {
                        assert(done[a as int] == k as usize);
                    }
                }
            }
            a += 1;
        }
        assert(indexes@.subrange(0, a as int) =~= indexes@);
    }
}

impl<W: Copy + Default> Genome<W> {
    /// Appends a fresh hidden node, wired to nothing, and returns its index.
    pub fn add_node<F: Fn() -> W>(&mut self, fresh: &F) -> (index: usize)
        requires
            old(self).wf(),
            fresh.requires(()),
        ensures
            final(self).wf(),
            index == old(self).node_count(),
            final(self).inputs == old(self).inputs,
            final(self).outputs == old(self).outputs,
            final(self).node_count() == old(self).node_count() + 1,
            forall|v: int| 0 <= v < index ==> #[trigger] final(self).node_genes@[v] == old(self).node_genes@[v],
            final(self).node_genes@[index as int].kind == NodeKind::Hidden,
            final(self).node_genes@[index as int].activation != ActivationKind::Input,
            fresh.ensures((), final(self).node_genes@[index as int].bias),
            final(self).connection_genes@ == old(self).connection_genes@,
    {
        let index = self.node_genes.len();
        let node = NodeGene::new(NodeKind::Hidden, fresh);
        self.node_genes.push(node);
        proof {
            let rank = choose|rank: spec_fn(usize) -> int| old(self).ranked_by(Seq::empty(), rank);
            assert forall|i: int|
                #![trigger self.connection_genes@[i]]
                self.enabled(i) && !self.is_input_node(self.connection_genes@[i].to as int) implies rank(
                    self.connection_genes@[i].from,
                ) < rank(self.connection_genes@[i].to) by {
                assert(old(self).connection_wf(i));
                assert(self.node_genes@[self.connection_genes@[i].to as int] == old(self).node_genes@[self.connection_genes@[i].to as int]);
            }
            assert(self.ranked_by(Seq::empty(), rank));
            assert forall|i: int| 0 <= i < self.connection_genes@.len() implies #[trigger] self.connection_wf(i) by {
                assert(old(self).connection_wf(i));
                assert(self.node_genes@[self.connection_genes@[i].to as int] == old(self).node_genes@[self.connection_genes@[i].to as int]);
                assert(self.node_genes@[self.connection_genes@[i].from as int] == old(self).node_genes@[self.connection_genes@[i].from as int]);
            }
        }
        index
    }
}

} // verus!

use crate::activation::ActivationKind;
use crate::aggregations::Aggregation;
use crate::genome::{added_at, connection_added, has_pair, keeps_genes, pair_listed, pairs_in_range, ConnectionGene, Genome, NodeGene};
use crate::node::NodeKind;
use crate::random::random_index;
use vstd::prelude::*;

verus! {

/// The structural and parametric edits that mutation applies to a genome.
#[derive(Debug, Clone, Copy, PartialEq, Eq, Structural, Hash)]
pub enum MutationKind {
    AddConnection,
    RemoveConnection,
    AddNode,
    RemoveNode,
    ModifyWeight,
    ModifyBias,
    ModifyActivation,
    ModifyAggregation,
}

/// Number of enabled connections in `edges` that leave `u` (when
/// `outgoing`) or enter `u` (otherwise).
pub open spec fn enabled_degree<W>(edges: Seq<ConnectionGene<W>>, u: int, outgoing: bool) -> nat
    decreases edges.len(),
{
    if edges.len() == 0 {
        0
    } else {
        let c = edges.last();
        let here: nat = if !c.disabled && (if outgoing {
            c.from == u
        } else {
            c.to == u
        }) {
            1
        } else {
            0
        };
        enabled_degree(edges.drop_last(), u, outgoing) + here
    }
}

/// `new` is `old` with the removable connection `x` disabled.
pub open spec fn connection_disabled_at<W>(old: Genome<W>, new: Genome<W>, x: usize) -> bool {
    (old.removable(x as int) && new.connection_genes@ == old.connection_genes@.update(
            x as int,
            ConnectionGene { disabled: true, ..old.connection_genes@[x as int] },
        ) && new.node_genes@ == old.node_genes@ && new.inputs == old.inputs
            && new.outputs == old.outputs)
}

/// `new` is `old` with an allowed connection from `u` to `v`, not enabled
/// before, enabled again or appended.
pub open spec fn connection_added_between<W>(old: Genome<W>, new: Genome<W>, u: int, v: int) -> bool {
    (old.addable(u, v)) && (connection_added(old.connection_genes@, new.connection_genes@, u as usize, v as usize))
}

/// `new` is `old` with an enabled connection split by the new hidden node
/// `x`: the connection disabled, and connections into and out of `x`
/// appended, the first with the old weight; the old nodes are kept.
pub open spec fn connection_split_at<W>(old: Genome<W>, new: Genome<W>, x: usize) -> bool {
    (x == old.node_count() && new.node_count() == old.node_count() + 1
            && new.kind_of(x as int) == NodeKind::Hidden && exists|i: int|
            #![trigger old.connection_genes@[i]]
            old.enabled(i) && new.connection_genes@ == old.connection_genes@.update(
                i,
                ConnectionGene { disabled: true, ..old.connection_genes@[i] },
            ).push(
                ConnectionGene {
                    from: old.connection_genes@[i].from,
                    to: x,
                    weight: old.connection_genes@[i].weight,
                    disabled: false,
                },
            ).push(new.connection_genes@[old.connection_genes@.len() as int + 1])
            && new.connection_genes@[old.connection_genes@.len() as int + 1].from == x
            && new.connection_genes@[old.connection_genes@.len() as int + 1].to
            == old.connection_genes@[i].to && !new.connection_genes@[old.connection_genes@.len() as int + 1].disabled) && (forall|v: int| 0 <= v < old.node_count() ==> #[trigger] new.node_genes@[v] == old.node_genes@[v])
}

/// `new` is `old` with the weight of connection `x` replaced by an
/// `adjust` of it.
pub open spec fn weight_adjusted_at<W, G: Fn(W) -> W>(old: Genome<W>, new: Genome<W>, x: usize, adjust: G) -> bool {
    (x < old.connection_genes@.len() && adjust.ensures(
            (old.connection_genes@[x as int].weight,),
            new.connection_genes@[x as int].weight,
        ) && new.connection_genes@ == old.connection_genes@.update(
            x as int,
            ConnectionGene {
                weight: new.connection_genes@[x as int].weight,
                ..old.connection_genes@[x as int]
            },
        ))
}

/// `new` is `old` with the bias of non-input node `x` replaced by an
/// `adjust` of it.
pub open spec fn bias_adjusted_at<W, G: Fn(W) -> W>(old: Genome<W>, new: Genome<W>, x: usize, adjust: G) -> bool {
    (old.inputs <= x < old.node_count() && adjust.ensures(
            (old.node_genes@[x as int].bias,),
            new.node_genes@[x as int].bias,
        ) && new.node_genes@ == old.node_genes@.update(
            x as int,
            NodeGene { bias: new.node_genes@[x as int].bias, ..old.node_genes@[x as int] },
        ))
}

/// `new` is `old` with a fresh activation, never `Input`, at non-input
/// node `x`.
pub open spec fn activation_redrawn_at<W>(old: Genome<W>, new: Genome<W>, x: usize) -> bool {
    (old.inputs <= x < old.node_count()
            && new.node_genes@[x as int].activation != ActivationKind::Input
            && new.node_genes@ == old.node_genes@.update(
            x as int,
            NodeGene {
                activation: new.node_genes@[x as int].activation,
                ..old.node_genes@[x as int]
            },
        ))
}

/// `new` is `old` with a fresh aggregation at non-input node `x`.
pub open spec fn aggregation_redrawn_at<W>(old: Genome<W>, new: Genome<W>, x: usize) -> bool {
    (old.inputs <= x < old.node_count() && new.node_genes@
            == old.node_genes@.update(
            x as int,
            NodeGene {
                aggregation: new.node_genes@[x as int].aggregation,
                ..old.node_genes@[x as int]
            },
        ))
}

/// Every enabled connection of `a` is enabled in `b`.
pub open spec fn edges_within<W>(a: Genome<W>, b: Genome<W>) -> bool {
    forall|u: int, v: int| #[trigger] a.has_enabled_edge(u, v) ==> b.has_enabled_edge(u, v)
}

/// `p -> h -> s` are enabled connections of `g`: bypassing `h` calls for a
/// connection from `p` to `s`.
pub open spec fn bridge_pair<W>(g: Genome<W>, h: int, p: int, s: int) -> bool {
    g.has_enabled_edge(p, h) && g.has_enabled_edge(h, s)
}

/// `mid` is a genome between `old` with the connections of `h` disabled and
/// `new`, on the same nodes, that refuses a connection from `p` to `s`.
pub open spec fn refusal<W>(mid: Genome<W>, old: Genome<W>, new: Genome<W>, h: int, p: int, s: int) -> bool {
    &&& mid.wf()
    &&& mid.inputs == old.inputs
    &&& mid.outputs == old.outputs
    &&& mid.node_genes@ == old.node_genes@
    &&& 0 <= p < mid.node_count()
    &&& 0 <= s < mid.node_count()
    &&& !mid.connectable(p as usize, s as usize)
    &&& forall|u: int, v: int|
        u != h && v != h && #[trigger] old.has_enabled_edge(u, v) ==> mid.has_enabled_edge(u, v)
    &&& edges_within(mid, new)
}

/// The connection from `p` to `s` was refused at some point of the bypass.
pub open spec fn refused_bridge<W>(old: Genome<W>, new: Genome<W>, h: int, p: int, s: int) -> bool {
    exists|mid: Genome<W>| #[trigger] refusal(mid, old, new, h, p, s)
}

/// Connection `c` touches node `h`.
pub open spec fn touches<W>(c: ConnectionGene<W>, h: int) -> bool {
    c.from == h || c.to == h
}

/// `new` is `old` with hidden node `h` bypassed: every connection at `h` is
/// disabled; for every enabled `p -> h -> s`, `new` has an enabled
/// connection from `p` to `s` unless the genome refused it when it was
/// tried; and nothing else changed but connections between such `p` and `s`
/// enabled again or appended.
pub open spec fn node_bypassed<W>(old: Genome<W>, new: Genome<W>, h: usize) -> bool {
    &&& old.bypassable(h as int)
    &&& forall|i: int|
        0 <= i < new.connection_genes@.len() && touches(#[trigger] new.connection_genes@[i], h as int)
            ==> new.connection_genes@[i].disabled
    &&& forall|p: int, s: int|
        #[trigger] bridge_pair(old, h as int, p, s) ==> new.has_enabled_edge(p, s) || refused_bridge(
            old,
            new,
            h as int,
            p,
            s,
        )
    &&& forall|k: int|
        0 <= k < old.connection_genes@.len() ==> {
            let c = old.connection_genes@[k];
            let d = #[trigger] new.connection_genes@[k];
            ||| d == c
            ||| touches(c, h as int) && d == ConnectionGene { disabled: true, ..c }
            ||| bridge_pair(old, h as int, c.from as int, c.to as int) && d == ConnectionGene { disabled: false, ..c }
        }
    &&& forall|k: int|
        old.connection_genes@.len() <= k < new.connection_genes@.len() ==> bridge_pair(
            old,
            h as int,
            (#[trigger] new.connection_genes@[k]).from as int,
            new.connection_genes@[k].to as int,
        ) && !new.connection_genes@[k].disabled
}


impl<W> Genome<W> {
    /// Connection `i` may be disabled: it is enabled, its source keeps
    /// another outgoing enabled connection and its target another incoming
    /// one.
    pub open spec fn removable(&self, i: int) -> bool {
        &&& self.enabled(i)
        &&& enabled_degree(self.connection_genes@, self.connection_genes@[i].from as int, true) > 1
        &&& enabled_degree(self.connection_genes@, self.connection_genes@[i].to as int, false) > 1
    }

    /// Node `v` is hidden and has an enabled connection in and out.
    pub open spec fn bypassable(&self, v: int) -> bool {
        &&& 0 <= v < self.node_count()
        &&& self.kind_of(v) == NodeKind::Hidden
        &&& exists|i: int| #![trigger self.connection_genes@[i]] self.enabled(i) && self.connection_genes@[i].to == v
        &&& exists|i: int| #![trigger self.connection_genes@[i]] self.enabled(i) && self.connection_genes@[i].from == v
    }

    /// A connection from `u` to `v` could be added by the AddConnection
    /// mutation: distinct nodes, no enabled connection yet, and allowed.
    pub open spec fn addable(&self, u: int, v: int) -> bool {
        &&& 0 <= u < self.node_count()
        &&& 0 <= v < self.node_count()
        &&& !self.has_enabled_edge(u, v)
        &&& self.connectable(u as usize, v as usize)
    }
}

impl<W: Copy> Genome<W> {
    /// Counts the enabled connections that leave (or enter) `u`.
    fn count_enabled(&self, u: usize, outgoing: bool) -> (r: usize)
        ensures
            r == enabled_degree(self.connection_genes@, u as int, outgoing),
    {
        let mut count: usize = 0;
        let mut i: usize = 0;
        while i < self.connection_genes.len()
            invariant
                i <= self.connection_genes@.len(),
                count == enabled_degree(self.connection_genes@.subrange(0, i as int), u as int, outgoing),
                count <= i,
            decreases self.connection_genes@.len() - i,
        {
            let c = self.connection_genes[i];
            proof {
                assert(self.connection_genes@.subrange(0, i + 1).drop_last() =~= self.connection_genes@.subrange(0, i as int));
            }
            let hit = if outgoing {
                c.from == u
            } else {
                c.to == u
            };
            if !c.disabled && hit {
                count += 1;
            }
            i += 1;
        }
        assert(self.connection_genes@.subrange(0, i as int) =~= self.connection_genes@);
        count
    }

}

impl<W: Copy> Genome<W> {
    /// Whether an enabled connection leaves (`outgoing`) or enters `v`.
    fn has_enabled_incident(&self, v: usize, outgoing: bool) -> (r: bool)
        ensures
            outgoing ==> (r <==> exists|i: int|
                #![trigger self.connection_genes@[i]]
                self.enabled(i) && self.connection_genes@[i].from == v),
            !outgoing ==> (r <==> exists|i: int|
                #![trigger self.connection_genes@[i]]
                self.enabled(i) && self.connection_genes@[i].to == v),
    {
        let mut i: usize = 0;
        while i < self.connection_genes.len()
            invariant
                i <= self.connection_genes@.len(),
                forall|k: int|
                    #![trigger self.connection_genes@[k]]
                    0 <= k < i && self.enabled(k) ==> (if outgoing {
                        self.connection_genes@[k].from != v
                    } else {
                        self.connection_genes@[k].to != v
                    }),
            decreases self.connection_genes@.len() - i,
        {
            let c = self.connection_genes[i];
            let end = if outgoing {
                c.from
            } else {
                c.to
            };
            if !c.disabled && end == v {
                return true;
            }
            i += 1;
        }
        false
    }

    /// Draws a node that is not an input; `None` when every node is one.
    fn pick_non_input(&self) -> (r: Option<usize>)
        requires
            self.wf(),
        ensures
            r is None <==> self.node_count() == self.inputs,
            r is Some ==> self.inputs <= r->0 < self.node_count(),
    {
        let n = self.node_genes.len();
        if n == self.inputs {
            None
        } else {
            Some(self.inputs + random_index(n - self.inputs))
        }
    }

}

impl<W> Genome<W> {
    /// A genome whose nodes differ from those of a well-formed one only in
    /// their parameters, with the same connections, is well-formed.
    proof fn lemma_same_shape(&self, o: Genome<W>)
        requires
            o.wf(),
            self.inputs == o.inputs,
            self.outputs == o.outputs,
            self.connection_genes@ == o.connection_genes@,
            self.node_count() == o.node_count(),
            forall|v: int|
                #![trigger self.node_genes@[v]]
                0 <= v < self.node_count() ==> self.node_genes@[v].kind == o.node_genes@[v].kind && ((
                self.node_genes@[v].activation == ActivationKind::Input) == (o.node_genes@[v].activation
                == ActivationKind::Input)),
        ensures
            self.wf(),
    {
        let rank = choose|rank: spec_fn(usize) -> int| o.ranked_by(Seq::empty(), rank);
        assert forall|i: int|
            #![trigger self.connection_genes@[i]]
            self.enabled(i) && !self.is_input_node(self.connection_genes@[i].to as int) implies rank(
                self.connection_genes@[i].from,
            ) < rank(self.connection_genes@[i].to) by {
            assert(o.connection_wf(i));
            assert(self.node_genes@[self.connection_genes@[i].to as int].kind == o.node_genes@[self.connection_genes@[i].to as int].kind);
        }
        assert(self.ranked_by(Seq::empty(), rank));
        assert forall|i: int| 0 <= i < self.connection_genes@.len() implies #[trigger] self.connection_wf(i) by {
            assert(o.connection_wf(i));
            assert(self.node_genes@[self.connection_genes@[i].to as int].kind == o.node_genes@[self.connection_genes@[i].to as int].kind);
            assert(self.node_genes@[self.connection_genes@[i].from as int].kind == o.node_genes@[self.connection_genes@[i].from as int].kind);
        }
        assert forall|v: int|
            #![trigger self.node_genes@[v]]
            0 <= v < self.node_count() implies self.node_genes@[v].kind == self.layout_kind(v) && ((
            self.node_genes@[v].activation == ActivationKind::Input) == (v < self.inputs)) by {
            assert(o.node_genes@[v].kind == o.layout_kind(v));
        }
    }
}

impl<W: Copy + Default> Genome<W> {
    /// Applies one mutation of the given kind. Every kind keeps the genome
    /// well-formed; a kind whose precondition fails leaves it unchanged.
    /// `fresh` draws new weights and biases; `adjust` turns an old weight or
    /// bias into a new one.
    pub fn mutate<F: Fn() -> W, G: Fn(W) -> W>(&mut self, kind: &MutationKind, fresh: &F, adjust: &G)
        requires
            old(self).wf(),
            fresh.requires(()),
            forall|w: W| adjust.requires((w,)),
        ensures
            final(self).wf(),
            final(self).inputs == old(self).inputs,
            final(self).outputs == old(self).outputs,
            final(self).node_count() >= old(self).node_count(),
            keeps_genes(*old(self), *final(self)),
            *kind == MutationKind::AddConnection ==> ({
                let idle = forall|u: int, v: int| !#[trigger] old(self).addable(u, v);
                &&& idle ==> *final(self) == *old(self)
                &&& !idle ==> exists|u: int, v: int| #[trigger] connection_added_between(*old(self), *final(self), u, v)
            }),
            *kind == MutationKind::RemoveConnection ==> ({
                let idle = forall|i: int| 0 <= i < old(self).connection_genes@.len() ==> !#[trigger] old(self).removable(i);
                &&& idle ==> *final(self) == *old(self)
                &&& !idle ==> exists|i: usize| #[trigger] connection_disabled_at(*old(self), *final(self), i)
            }),
            *kind == MutationKind::AddNode ==> ({
                let idle = forall|i: int| !#[trigger] old(self).enabled(i);
                &&& idle ==> *final(self) == *old(self)
                &&& !idle ==> exists|h: usize| #[trigger] connection_split_at(*old(self), *final(self), h)
            }),
            *kind == MutationKind::RemoveNode ==> ({
                let idle = forall|v: int| !#[trigger] old(self).bypassable(v);
                &&& idle ==> *final(self) == *old(self)
                &&& !idle ==> exists|h: usize| #[trigger] node_bypassed(*old(self), *final(self), h)
            }),
            *kind == MutationKind::ModifyWeight ==> ({
                let idle = old(self).connection_genes@.len() == 0;
                &&& idle ==> *final(self) == *old(self)
                &&& !idle ==> exists|i: usize| #[trigger] weight_adjusted_at(*old(self), *final(self), i, *adjust)
            }),
            *kind == MutationKind::ModifyBias ==> ({
                let idle = old(self).node_count() == old(self).inputs;
                &&& idle ==> *final(self) == *old(self)
                &&& !idle ==> exists|v: usize| #[trigger] bias_adjusted_at(*old(self), *final(self), v, *adjust)
            }),
            *kind == MutationKind::ModifyActivation ==> ({
                let idle = old(self).node_count() == old(self).inputs;
                &&& idle ==> *final(self) == *old(self)
                &&& !idle ==> exists|v: usize| #[trigger] activation_redrawn_at(*old(self), *final(self), v)
            }),
            *kind == MutationKind::ModifyAggregation ==> ({
                let idle = old(self).node_count() == old(self).inputs;
                &&& idle ==> *final(self) == *old(self)
                &&& !idle ==> exists|v: usize| #[trigger] aggregation_redrawn_at(*old(self), *final(self), v)
            }),
    {
        match kind {
            MutationKind::AddConnection => {
                let r = add_connection(self, fresh);
                proof {
                    if r is Some {
                        assert(connection_added_between(*old(self), *self, (r->0).0 as int, (r->0).1 as int));
                    }
                }
            },
            MutationKind::RemoveConnection => {
                let r = disable_connection(self);
                proof {
                    if r is Some {
                        assert(connection_disabled_at(*old(self), *self, r->0));
                    }
                }
            },
            MutationKind::AddNode => {
                let r = add_node(self, fresh);
                proof {
                    if r is Some {
                        assert(connection_split_at(*old(self), *self, r->0));
                    }
                }
            },
            MutationKind::RemoveNode => {
                let r = remove_node(self, fresh);
                proof {
                    if r is Some {
                        assert(node_bypassed(*old(self), *self, r->0));
                    }
                }
            },
            MutationKind::ModifyWeight => {
                let r = change_weight(self, adjust);
                proof {
                    if r is Some {
                        assert(weight_adjusted_at(*old(self), *self, r->0, *adjust));
                    }
                }
            },
            MutationKind::ModifyBias => {
                let r = change_bias(self, adjust);
                proof {
                    if r is Some {
                        assert(bias_adjusted_at(*old(self), *self, r->0, *adjust));
                    }
                }
            },
            MutationKind::ModifyActivation => {
                let r = change_activation(self);
                proof {
                    if r is Some {
                        assert(activation_redrawn_at(*old(self), *self, r->0));
                    }
                }
            },
            MutationKind::ModifyAggregation => {
                let r = change_aggregation(self);
                proof {
                    if r is Some {
                        assert(aggregation_redrawn_at(*old(self), *self, r->0));
                    }
                }
            },
        }
    }
}

/// A connection enabled again or appended keeps every enabled connection.
proof fn lemma_added_edges_within<W>(before: Genome<W>, after: Genome<W>, i: int, from: usize, to: usize)
    requires
        added_at(before.connection_genes@, after.connection_genes@, i, from, to),
    ensures
        edges_within(before, after),
{
    assert forall|u: int, v: int| #[trigger] before.has_enabled_edge(u, v) implies after.has_enabled_edge(u, v) by {
        let k = choose|k: int| #![trigger before.connection_genes@[k]] before.enabled(k) && before.connection_genes@[k].from == u && before.connection_genes@[k].to == v;
        if k == i {
            assert(after.enabled(i));
        } else {
            assert(after.connection_genes@[k] == before.connection_genes@[k]);
            assert(after.enabled(k));
        }
    }
}

/// Disables a randomly chosen removable connection and returns its
/// index; `None`, with nothing changed, when no connection is removable.
pub fn disable_connection<W: Copy>(g: &mut Genome<W>) -> (r: Option<usize>)
    requires
        old(g).wf(),
    ensures
        final(g).wf(),
        keeps_genes(*old(g), *final(g)),
        r is None <==> forall|i: int| 0 <= i < old(g).connection_genes@.len() ==> !#[trigger] old(g).removable(i),
        r is None ==> *final(g) == *old(g),
        r is Some ==> connection_disabled_at(*old(g), *final(g), r->0),
{
    let mut eligible: Vec<usize> = Vec::new();
    let mut i: usize = 0;
    while i < g.connection_genes.len()
        invariant
            i <= g.connection_genes@.len(),
            forall|a: int| 0 <= a < eligible@.len() ==> #[trigger] eligible@[a] < g.connection_genes@.len()
                && g.removable(eligible@[a] as int),
            eligible@.len() == 0 ==> forall|k: int| 0 <= k < i ==> !#[trigger] g.removable(k),
        decreases g.connection_genes@.len() - i,
    {
        let c = g.connection_genes[i];
        if !c.disabled && g.count_enabled(c.from, true) > 1 && g.count_enabled(c.to, false) > 1 {
            eligible.push(i);
        }
        i += 1;
    }
    if eligible.len() == 0 {
        return None;
    }
    let index = eligible[random_index(eligible.len())];
    g.disable_connection(index);
    Some(index)
}

/// Adds a connection between a randomly chosen pair of nodes that the
/// genome allows and that no enabled connection joins yet, and returns
/// the pair; `None`, with nothing changed, when there is no such pair.
pub fn add_connection<W: Copy + Default, F: Fn() -> W>(g: &mut Genome<W>, fresh: &F) -> (r: Option<(usize, usize)>)
    requires
        old(g).wf(),
        fresh.requires(()),
    ensures
        final(g).wf(),
        keeps_genes(*old(g), *final(g)),
        final(g).node_genes@ == old(g).node_genes@,
        final(g).inputs == old(g).inputs,
        final(g).outputs == old(g).outputs,
        r is None <==> forall|u: int, v: int| !#[trigger] old(g).addable(u, v),
        r is None ==> *final(g) == *old(g),
        r is Some ==> connection_added_between(*old(g), *final(g), (r->0).0 as int, (r->0).1 as int),
{
    let n = g.node_genes.len();
    let mut candidates: Vec<(usize, usize)> = Vec::new();
    let mut u: usize = 0;
    while u < n
        invariant
            u <= n,
            n == g.node_count(),
            g.wf(),
            forall|a: int| 0 <= a < candidates@.len() ==> #[trigger] g.addable(candidates@[a].0 as int, candidates@[a].1 as int),
            candidates@.len() == 0 ==> forall|x: int, y: int| 0 <= x < u ==> !#[trigger] g.addable(x, y),
        decreases n - u,
    {
        let mut v: usize = 0;
        while v < n
            invariant
                u < n,
                v <= n,
                n == g.node_count(),
                g.wf(),
                forall|a: int| 0 <= a < candidates@.len() ==> #[trigger] g.addable(candidates@[a].0 as int, candidates@[a].1 as int),
                candidates@.len() == 0 ==> forall|x: int, y: int| (0 <= x < u || (x == u && 0 <= y < v)) ==> !#[trigger] g.addable(x, y),
            decreases n - v,
        {
            if u != v && !g.is_projecting_directly(u, v) && g.can_connect(u, v) {
                candidates.push((u, v));
            }
            v += 1;
        }
        u += 1;
    }
    if candidates.len() == 0 {
        return None;
    }
    let pick = random_index(candidates.len());
    let (from, to) = candidates[pick];
    assert(g.addable(candidates@[pick as int].0 as int, candidates@[pick as int].1 as int));
    let added = g.add_connection(from, to, fresh);
    proof {
        let i = added->Ok_0 as int;
        assert(added_at(old(g).connection_genes@, g.connection_genes@, i, from, to));
        assert(connection_added(old(g).connection_genes@, g.connection_genes@, from, to));
    }
    Some((from, to))
}

/// Splits a randomly chosen enabled connection `u -> v`: disables it and
/// appends a hidden node `h` with connections `u -> h`, keeping the old
/// weight, and `h -> v`, weighted by `fresh`. Returns `h`; `None`, with
/// nothing changed, when no connection is enabled.
pub fn add_node<W: Copy + Default, F: Fn() -> W>(g: &mut Genome<W>, fresh: &F) -> (r: Option<usize>)
    requires
        old(g).wf(),
        fresh.requires(()),
    ensures
        final(g).wf(),
        keeps_genes(*old(g), *final(g)),
        final(g).inputs == old(g).inputs,
        final(g).outputs == old(g).outputs,
        r is None <==> forall|i: int| !#[trigger] old(g).enabled(i),
        r is None ==> *final(g) == *old(g),
        r is Some ==> connection_split_at(*old(g), *final(g), r->0),
        r is Some ==> fresh.ensures((), final(g).node_genes@[r->0 as int].bias),
        r is Some ==> fresh.ensures((), final(g).connection_genes@[old(g).connection_genes@.len() as int + 1].weight),
{
    let mut enabled: Vec<usize> = Vec::new();
    let mut i: usize = 0;
    while i < g.connection_genes.len()
        invariant
            i <= g.connection_genes@.len(),
            forall|a: int| 0 <= a < enabled@.len() ==> #[trigger] g.enabled(enabled@[a] as int),
            enabled@.len() == 0 ==> forall|k: int| 0 <= k < i ==> !#[trigger] g.enabled(k),
        decreases g.connection_genes@.len() - i,
    {
        if !g.connection_genes[i].disabled {
            enabled.push(i);
        }
        i += 1;
    }
    if enabled.len() == 0 {
        return None;
    }
    let pick = random_index(enabled.len());
    let picked = enabled[pick];
    assert(g.enabled(enabled@[pick as int] as int));
    let c = g.connection_genes[picked];
    let ghost o = *g;
    let ghost rank = choose|rank: spec_fn(usize) -> int| o.ranked_by(Seq::empty(), rank);
    proof {
        assert(o.connection_wf(picked as int));
    }
    let h = g.node_genes.len();
    let node = NodeGene::new(NodeKind::Hidden, fresh);
    g.node_genes.push(node);
    let mut disabled = c;
    disabled.disabled = true;
    g.connection_genes.set(picked, disabled);
    g.connection_genes.push(ConnectionGene::new(c.from, h, c.weight));
    let weight = fresh();
    g.connection_genes.push(ConnectionGene::new(h, c.to, weight));
    proof {
        let m = o.connection_genes@.len() as int;
        let rank2 = |x: usize| if x == h { 2 * rank(c.from) + 1 } else { 2 * rank(x) };
        assert forall|v: int|
            #![trigger g.node_genes@[v]]
            0 <= v < g.node_count() implies g.node_genes@[v].kind == g.layout_kind(v) && ((
            g.node_genes@[v].activation == ActivationKind::Input) == (v < g.inputs)) by {
            if v < h {
                assert(g.node_genes@[v] == o.node_genes@[v]);
            }
        }
        assert forall|k: int| 0 <= k < g.connection_genes@.len() implies #[trigger] g.connection_wf(k) by {
            if k < m {
                assert(o.connection_wf(k));
                let e = o.connection_genes@[k];
                assert(g.node_genes@[e.from as int] == o.node_genes@[e.from as int]);
                assert(g.node_genes@[e.to as int] == o.node_genes@[e.to as int]);
            } else {
                assert(g.node_genes@[c.from as int] == o.node_genes@[c.from as int]);
                assert(g.node_genes@[c.to as int] == o.node_genes@[c.to as int]);
            }
        }
        assert forall|k: int|
            #![trigger g.connection_genes@[k]]
            g.enabled(k) && !g.is_input_node(g.connection_genes@[k].to as int) implies rank2(
                g.connection_genes@[k].from,
            ) < rank2(g.connection_genes@[k].to) by {
            if k < m {
                assert(k != picked);
                assert(o.enabled(k));
                assert(o.connection_wf(k));
                let e = o.connection_genes@[k];
                assert(g.node_genes@[e.to as int] == o.node_genes@[e.to as int]);
            } else if k == m + 1 {
                assert(o.enabled(picked as int));
                assert(g.node_genes@[c.to as int] == o.node_genes@[c.to as int]);
                assert(!o.is_input_node(c.to as int));
            }
        }
        assert(g.ranked_by(Seq::empty(), rank2));
        assert forall|x: int, y: int|
            0 <= x < g.connection_genes@.len() && 0 <= y < g.connection_genes@.len() && x != y
                implies (#[trigger] g.connection_genes@[x]).from != (#[trigger] g.connection_genes@[y]).from
                || g.connection_genes@[x].to != g.connection_genes@[y].to by {
            if x < m {
                assert(o.connection_wf(x));
            }
            if y < m {
                assert(o.connection_wf(y));
            }
        }
        assert(g.connection_genes@ =~= o.connection_genes@.update(
            picked as int,
            ConnectionGene { disabled: true, ..o.connection_genes@[picked as int] },
        ).push(
            ConnectionGene {
                from: o.connection_genes@[picked as int].from,
                to: h,
                weight: o.connection_genes@[picked as int].weight,
                disabled: false,
            },
        ).push(g.connection_genes@[m + 1]));
    }
    Some(h)
}

/// Replaces the weight `w` of a randomly chosen connection by
/// `adjust(w)` and returns its index; `None`, with nothing changed, when
/// there is no connection.
pub fn change_weight<W: Copy, G: Fn(W) -> W>(g: &mut Genome<W>, adjust: &G) -> (r: Option<usize>)
    requires
        old(g).wf(),
        forall|w: W| adjust.requires((w,)),
    ensures
        final(g).wf(),
        keeps_genes(*old(g), *final(g)),
        final(g).node_genes@ == old(g).node_genes@,
        final(g).inputs == old(g).inputs,
        final(g).outputs == old(g).outputs,
        r is None <==> old(g).connection_genes@.len() == 0,
        r is None ==> *final(g) == *old(g),
        r is Some ==> weight_adjusted_at(*old(g), *final(g), r->0, *adjust),
{
    let len = g.connection_genes.len();
    if len == 0 {
        return None;
    }
    let index = random_index(len);
    let mut c = g.connection_genes[index];
    c.weight = adjust(c.weight);
    let ghost o = *g;
    g.connection_genes.set(index, c);
    proof {
        let rank = choose|rank: spec_fn(usize) -> int| o.ranked_by(Seq::empty(), rank);
        assert(g.ranked_by(Seq::empty(), rank));
        assert forall|i: int| 0 <= i < g.connection_genes@.len() implies #[trigger] g.connection_wf(i) by {
            assert(o.connection_wf(i));
        }
    }
    Some(index)
}

/// Replaces the bias `b` of a randomly chosen non-input node by
/// `adjust(b)` and returns the node; `None`, with nothing changed, when
/// every node is an input.
pub fn change_bias<W: Copy, G: Fn(W) -> W>(g: &mut Genome<W>, adjust: &G) -> (r: Option<usize>)
    requires
        old(g).wf(),
        forall|w: W| adjust.requires((w,)),
    ensures
        final(g).wf(),
        keeps_genes(*old(g), *final(g)),
        final(g).connection_genes@ == old(g).connection_genes@,
        final(g).inputs == old(g).inputs,
        final(g).outputs == old(g).outputs,
        r is None <==> old(g).node_count() == old(g).inputs,
        r is None ==> *final(g) == *old(g),
        r is Some ==> bias_adjusted_at(*old(g), *final(g), r->0, *adjust),
{
    match g.pick_non_input() {
        None => None,
        Some(v) => {
            let mut node = g.node_genes[v];
            node.bias = adjust(node.bias);
            let ghost o = *g;
            g.node_genes.set(v, node);
            proof {
                g.lemma_same_shape(o);
            }
            Some(v)
        },
    }
}

/// Gives a randomly chosen non-input node a freshly drawn activation
/// and returns the node; `None`, with nothing changed, when every node
/// is an input.
pub fn change_activation<W: Copy>(g: &mut Genome<W>) -> (r: Option<usize>)
    requires
        old(g).wf(),
    ensures
        final(g).wf(),
        keeps_genes(*old(g), *final(g)),
        final(g).connection_genes@ == old(g).connection_genes@,
        final(g).inputs == old(g).inputs,
        final(g).outputs == old(g).outputs,
        r is None <==> old(g).node_count() == old(g).inputs,
        r is None ==> *final(g) == *old(g),
        r is Some ==> activation_redrawn_at(*old(g), *final(g), r->0),
{
    match g.pick_non_input() {
        None => None,
        Some(v) => {
            let mut node = g.node_genes[v];
            node.activation = ActivationKind::random();
            let ghost o = *g;
            g.node_genes.set(v, node);
            proof {
                g.lemma_same_shape(o);
            }
            Some(v)
        },
    }
}

/// Gives a randomly chosen non-input node a freshly drawn aggregation
/// and returns the node; `None`, with nothing changed, when every node
/// is an input.
pub fn change_aggregation<W: Copy>(g: &mut Genome<W>) -> (r: Option<usize>)
    requires
        old(g).wf(),
    ensures
        final(g).wf(),
        keeps_genes(*old(g), *final(g)),
        final(g).connection_genes@ == old(g).connection_genes@,
        final(g).inputs == old(g).inputs,
        final(g).outputs == old(g).outputs,
        r is None <==> old(g).node_count() == old(g).inputs,
        r is None ==> *final(g) == *old(g),
        r is Some ==> aggregation_redrawn_at(*old(g), *final(g), r->0),
{
    match g.pick_non_input() {
        None => None,
        Some(v) => {
            let mut node = g.node_genes[v];
            node.aggregation = Aggregation::random();
            let ghost o = *g;
            g.node_genes.set(v, node);
            proof {
                g.lemma_same_shape(o);
            }
            Some(v)
        },
    }
}

/// Bypasses a randomly chosen bypassable hidden node `h`: disables every
/// connection at `h`, then, for each enabled source `p` and target `s`
/// that `h` had, adds `p -> s` where no enabled connection joins them
/// and the genome allows it. The node keeps its index. Returns `h`;
/// `None`, with nothing changed, when no node is bypassable.
pub fn remove_node<W: Copy + Default, F: Fn() -> W>(g: &mut Genome<W>, fresh: &F) -> (r: Option<usize>)
    requires
        old(g).wf(),
        fresh.requires(()),
    ensures
        final(g).wf(),
        keeps_genes(*old(g), *final(g)),
        final(g).node_genes@ == old(g).node_genes@,
        final(g).inputs == old(g).inputs,
        final(g).outputs == old(g).outputs,
        r is None <==> forall|v: int| !#[trigger] old(g).bypassable(v),
        r is None ==> *final(g) == *old(g),
        r is Some ==> node_bypassed(*old(g), *final(g), r->0),
{
    let n = g.node_genes.len();
    let mut eligible: Vec<usize> = Vec::new();
    let mut v: usize = 0;
    while v < n
        invariant
            v <= n,
            n == g.node_count(),
            forall|a: int| 0 <= a < eligible@.len() ==> #[trigger] g.bypassable(eligible@[a] as int),
            eligible@.len() == 0 ==> forall|x: int| x < v ==> !#[trigger] g.bypassable(x),
        decreases n - v,
    {
        if g.node_genes[v].kind.is_hidden() && g.has_enabled_incident(v, false)
            && g.has_enabled_incident(v, true) {
            eligible.push(v);
        }
        v += 1;
    }
    if eligible.len() == 0 {
        return None;
    }
    let pick = random_index(eligible.len());
    let h = eligible[pick];
    assert(g.bypassable(eligible@[pick as int] as int));
    let ghost o = *g;
    proof {
        g.lemma_wf_in_range();
    }
    let mut sources: Vec<usize> = Vec::new();
    let mut targets: Vec<usize> = Vec::new();
    let mut i: usize = 0;
    while i < g.connection_genes.len()
        invariant
            i <= g.connection_genes@.len(),
            *g == o,
            o.wf(),
            g.connections_in_range(),
            n == g.node_count(),
            forall|a: int| 0 <= a < sources@.len() ==> #[trigger] sources@[a] < n && sources@[a] != h && o.has_enabled_edge(sources@[a] as int, h as int),
            forall|a: int| 0 <= a < targets@.len() ==> #[trigger] targets@[a] < n && targets@[a] != h && o.has_enabled_edge(h as int, targets@[a] as int),
            forall|k: int| #![trigger o.connection_genes@[k]] 0 <= k < i && o.enabled(k) && o.connection_genes@[k].to == h ==> sources@.contains(o.connection_genes@[k].from),
            forall|k: int| #![trigger o.connection_genes@[k]] 0 <= k < i && o.enabled(k) && o.connection_genes@[k].from == h ==> targets@.contains(o.connection_genes@[k].to),
        decreases g.connection_genes@.len() - i,
    {
        let c = g.connection_genes[i];
        let ghost s0 = sources@;
        let ghost t0 = targets@;
        proof {
            assert(o.connection_wf(i as int));
        }
        if !c.disabled && c.to == h && c.from != h {
            sources.push(c.from);
            proof {
                assert(sources@[sources@.len() - 1] == c.from);
                assert(o.has_enabled_edge(c.from as int, h as int));
            }
        }
        if !c.disabled && c.from == h && c.to != h {
            targets.push(c.to);
            proof {
                assert(targets@[targets@.len() - 1] == c.to);
                assert(o.has_enabled_edge(h as int, c.to as int));
            }
        }
        proof {
            assert forall|k: int| #![trigger o.connection_genes@[k]] 0 <= k < i + 1 && o.enabled(k) && o.connection_genes@[k].to == h implies sources@.contains(o.connection_genes@[k].from) by {
                if k < i {
                    let b = choose|b: int| 0 <= b < s0.len() && s0[b] == o.connection_genes@[k].from;
                    assert(sources@[b] == s0[b]);
                } else {
                    assert(o.connection_wf(k));
                }
            }
            assert forall|k: int| #![trigger o.connection_genes@[k]] 0 <= k < i + 1 && o.enabled(k) && o.connection_genes@[k].from == h implies targets@.contains(o.connection_genes@[k].to) by {
                if k < i {
                    let b = choose|b: int| 0 <= b < t0.len() && t0[b] == o.connection_genes@[k].to;
                    assert(targets@[b] == t0[b]);
                } else {
                    assert(o.connection_wf(k));
                }
            }
        }
        i += 1;
    }
    let mut pairs: Vec<(usize, usize)> = Vec::new();
    let mut a: usize = 0;
    while a < sources.len()
        invariant
            a <= sources@.len(),
            n == g.node_count(),
            *g == o,
            forall|k: int| 0 <= k < sources@.len() ==> #[trigger] sources@[k] < n && sources@[k] != h && o.has_enabled_edge(sources@[k] as int, h as int),
            forall|k: int| 0 <= k < targets@.len() ==> #[trigger] targets@[k] < n && targets@[k] != h && o.has_enabled_edge(h as int, targets@[k] as int),
            forall|k: int| 0 <= k < pairs@.len() ==> #[trigger] pairs@[k].0 < n && pairs@[k].1 < n && pairs@[k].0 != h && pairs@[k].1 != h
                && bridge_pair(o, h as int, pairs@[k].0 as int, pairs@[k].1 as int),
            forall|x: int, y: int| 0 <= x < a && 0 <= y < targets@.len() ==> o.has_enabled_edge(#[trigger] sources@[x] as int, #[trigger] targets@[y] as int)
                || pair_listed(pairs@, sources@[x], targets@[y]),
        decreases sources@.len() - a,
    {
        let mut b: usize = 0;
        while b < targets.len()
            invariant
                a < sources@.len(),
                b <= targets@.len(),
                n == g.node_count(),
                *g == o,
                forall|k: int| 0 <= k < sources@.len() ==> #[trigger] sources@[k] < n && sources@[k] != h && o.has_enabled_edge(sources@[k] as int, h as int),
                forall|k: int| 0 <= k < targets@.len() ==> #[trigger] targets@[k] < n && targets@[k] != h && o.has_enabled_edge(h as int, targets@[k] as int),
                forall|k: int| 0 <= k < pairs@.len() ==> #[trigger] pairs@[k].0 < n && pairs@[k].1 < n && pairs@[k].0 != h && pairs@[k].1 != h
                    && bridge_pair(o, h as int, pairs@[k].0 as int, pairs@[k].1 as int),
                forall|x: int, y: int| (0 <= x < a && 0 <= y < targets@.len()) || (x == a && 0 <= y < b) ==> o.has_enabled_edge(#[trigger] sources@[x] as int, #[trigger] targets@[y] as int)
                    || pair_listed(pairs@, sources@[x], targets@[y]),
            decreases targets@.len() - b,
        {
            let ghost p0 = pairs@;
            if !g.is_projecting_directly(sources[a], targets[b]) {
                pairs.push((sources[a], targets[b]));
                proof {
                    assert(pairs@[pairs@.len() - 1] == (sources@[a as int], targets@[b as int]));
                }
            }
            proof {
                assert forall|x: int, y: int| (0 <= x < a && 0 <= y < targets@.len()) || (x == a && 0 <= y < b + 1) implies o.has_enabled_edge(#[trigger] sources@[x] as int, #[trigger] targets@[y] as int)
                    || pair_listed(pairs@, sources@[x], targets@[y]) by {
                    if !(x == a && y == b) && pair_listed(p0, sources@[x], targets@[y]) {
                        let j = choose|j: int| 0 <= j < p0.len() && #[trigger] p0[j] == (sources@[x], targets@[y]);
                        assert(pairs@[j] == p0[j]);
                    }
                }
            }
            b += 1;
        }
        a += 1;
    }
    let mut incident: Vec<usize> = Vec::new();
    let mut i: usize = 0;
    while i < g.connection_genes.len()
        invariant
            i <= g.connection_genes@.len(),
            forall|a: int| 0 <= a < incident@.len() ==> #[trigger] incident@[a] < g.connection_genes@.len() && touches(g.connection_genes@[incident@[a] as int], h as int),
            forall|k: int|
                0 <= k < i && touches(#[trigger] g.connection_genes@[k], h as int)
                    ==> incident@.contains(k as usize),
        decreases g.connection_genes@.len() - i,
    {
        let c = g.connection_genes[i];
        let ghost earlier = incident@;
        if c.from == h || c.to == h {
            incident.push(i);
            proof {
                assert(incident@[incident@.len() - 1] == i);
            }
        }
        proof {
            assert forall|k: int|
                0 <= k < i + 1 && touches(#[trigger] g.connection_genes@[k], h as int)
                    implies incident@.contains(k as usize) by {
                if k < i {
                    let b = choose|b: int| 0 <= b < earlier.len() && earlier[b] == k as usize;
                    assert(incident@[b] == k as usize);
                }
            }
        }
        i += 1;
    }
    g.disable_many_connections(&incident);
    let ghost stripped = *g;
    proof {
        assert forall|k: int|
            0 <= k < g.connection_genes@.len() && touches(#[trigger] g.connection_genes@[k], h as int) implies g.connection_genes@[k].disabled by {
            assert(o.connection_genes@[k].from == g.connection_genes@[k].from);
            assert(incident@.contains(k as usize));
        }
        assert forall|u: int, v: int| u != h && v != h && #[trigger] o.has_enabled_edge(u, v) implies stripped.has_enabled_edge(u, v) by {
            let k = choose|k: int| #![trigger o.connection_genes@[k]] o.enabled(k) && o.connection_genes@[k].from == u && o.connection_genes@[k].to == v;
            if incident@.contains(k as usize) {
                let b = choose|b: int| 0 <= b < incident@.len() && incident@[b] == k as usize;
                assert(touches(o.connection_genes@[k], h as int));
            }
            assert(stripped.connection_genes@[k] == o.connection_genes@[k]);
        }
        assert forall|k: int| 0 <= k < o.connection_genes@.len() implies {
            let c = o.connection_genes@[k];
            let d = #[trigger] g.connection_genes@[k];
            ||| d == c
            ||| touches(c, h as int) && d == ConnectionGene { disabled: true, ..c }
            ||| bridge_pair(o, h as int, c.from as int, c.to as int) && d == ConnectionGene { disabled: false, ..c }
        } by {
            if incident@.contains(k as usize) {
                let b = choose|b: int| 0 <= b < incident@.len() && incident@[b] == k as usize;
            }
        }
    }
    let mut j: usize = 0;
    while j < pairs.len()
        invariant
            j <= pairs@.len(),
            n == g.node_count(),
            fresh.requires(()),
            g.wf(),
            o.wf(),
            g.node_genes@ == o.node_genes@,
            g.inputs == o.inputs,
            g.outputs == o.outputs,
            keeps_genes(o, *g),
            forall|k: int| 0 <= k < pairs@.len() ==> #[trigger] pairs@[k].0 < n && pairs@[k].1 < n && pairs@[k].0 != h && pairs@[k].1 != h
                && bridge_pair(o, h as int, pairs@[k].0 as int, pairs@[k].1 as int),
            forall|u: int, v: int| u != h && v != h && #[trigger] o.has_enabled_edge(u, v) ==> g.has_enabled_edge(u, v),
            forall|k: int|
                0 <= k < g.connection_genes@.len() && touches(#[trigger] g.connection_genes@[k], h as int) ==> g.connection_genes@[k].disabled,
            forall|x: int| 0 <= x < j ==> g.has_enabled_edge((#[trigger] pairs@[x]).0 as int, pairs@[x].1 as int)
                || refused_bridge(o, *g, h as int, pairs@[x].0 as int, pairs@[x].1 as int),
            forall|k: int| 0 <= k < o.connection_genes@.len() ==> {
                let c = o.connection_genes@[k];
                let d = #[trigger] g.connection_genes@[k];
                ||| d == c
                ||| touches(c, h as int) && d == ConnectionGene { disabled: true, ..c }
                ||| bridge_pair(o, h as int, c.from as int, c.to as int) && d == ConnectionGene { disabled: false, ..c }
            },
            forall|k: int|
                o.connection_genes@.len() <= k < g.connection_genes@.len() ==> bridge_pair(
                    o,
                    h as int,
                    (#[trigger] g.connection_genes@[k]).from as int,
                    g.connection_genes@[k].to as int,
                ) && !g.connection_genes@[k].disabled,
        decreases pairs@.len() - j,
    {
        let (p, t) = pairs[j];
        let ghost before = *g;
        let added = g.add_connection(p, t, fresh);
        proof {
            assert(bridge_pair(o, h as int, p as int, t as int));
            if added is Ok {
                let idx = added->Ok_0 as int;
                lemma_added_edges_within(before, *g, idx, p, t);
                assert(g.has_enabled_edge(p as int, t as int)) by {
                    assert(g.enabled(idx));
                }
                assert forall|k: int| 0 <= k < g.connection_genes@.len() && touches(#[trigger] g.connection_genes@[k], h as int) implies g.connection_genes@[k].disabled by {
                    if k != idx {
                        if has_pair(before.connection_genes@, p as int, t as int) {
                            assert(g.connection_genes@[k] == before.connection_genes@[k]);
                        } else {
                            assert(k < before.connection_genes@.len());
                            assert(g.connection_genes@[k] == before.connection_genes@[k]);
                        }
                    }
                }
                assert forall|k: int| 0 <= k < o.connection_genes@.len() implies {
                    let c = o.connection_genes@[k];
                    let d = #[trigger] g.connection_genes@[k];
                    ||| d == c
                    ||| touches(c, h as int) && d == ConnectionGene { disabled: true, ..c }
                    ||| bridge_pair(o, h as int, c.from as int, c.to as int) && d == ConnectionGene { disabled: false, ..c }
                } by {
                    if has_pair(before.connection_genes@, p as int, t as int) {
                        if k == idx {
                            let c = o.connection_genes@[k];
                            let e = before.connection_genes@[k];
                            assert(e.from == c.from && e.to == c.to);
                            assert(e == c || e == ConnectionGene { disabled: true, ..c } || e == ConnectionGene { disabled: false, ..c });
                        } else {
                            assert(g.connection_genes@[k] == before.connection_genes@[k]);
                        }
                    } else {
                        assert(g.connection_genes@[k] == before.connection_genes@[k]);
                    }
                }
                assert forall|k: int|
                    o.connection_genes@.len() <= k < g.connection_genes@.len() implies bridge_pair(
                        o,
                        h as int,
                        (#[trigger] g.connection_genes@[k]).from as int,
                        g.connection_genes@[k].to as int,
                    ) && !g.connection_genes@[k].disabled by {
                    if k != idx {
                        if has_pair(before.connection_genes@, p as int, t as int) {
                            assert(g.connection_genes@[k] == before.connection_genes@[k]);
                        } else {
                            assert(k < before.connection_genes@.len());
                            assert(g.connection_genes@[k] == before.connection_genes@[k]);
                        }
                    }
                }
                assert forall|x: int| 0 <= x < j + 1 implies g.has_enabled_edge((#[trigger] pairs@[x]).0 as int, pairs@[x].1 as int)
                    || refused_bridge(o, *g, h as int, pairs@[x].0 as int, pairs@[x].1 as int) by {
                    if x < j {
                        if before.has_enabled_edge(pairs@[x].0 as int, pairs@[x].1 as int) {
                        } else {
                            let mid = choose|mid: Genome<W>| #[trigger] refusal(mid, o, before, h as int, pairs@[x].0 as int, pairs@[x].1 as int);
                            assert(refusal(mid, o, *g, h as int, pairs@[x].0 as int, pairs@[x].1 as int));
                        }
                    }
                }
            } else {
                assert(refusal(before, o, *g, h as int, p as int, t as int));
            }
        }
        j += 1;
    }
    proof {
        assert forall|x: int, y: int| #[trigger] bridge_pair(o, h as int, x, y) implies g.has_enabled_edge(x, y) || refused_bridge(o, *g, h as int, x, y) by {
            let k1 = choose|k: int| #![trigger o.connection_genes@[k]] o.enabled(k) && o.connection_genes@[k].from == x && o.connection_genes@[k].to == h;
            let k2 = choose|k: int| #![trigger o.connection_genes@[k]] o.enabled(k) && o.connection_genes@[k].from == h && o.connection_genes@[k].to == y;
            assert(o.connection_wf(k1));
            assert(o.connection_wf(k2));
            let a1 = choose|b: int| 0 <= b < sources@.len() && sources@[b] == o.connection_genes@[k1].from;
            let b1 = choose|b: int| 0 <= b < targets@.len() && targets@[b] == o.connection_genes@[k2].to;
            assert(o.has_enabled_edge(sources@[a1] as int, targets@[b1] as int) || pair_listed(pairs@, sources@[a1], targets@[b1]));
            if pair_listed(pairs@, sources@[a1], targets@[b1]) {
                let jj = choose|jj: int| 0 <= jj < pairs@.len() && #[trigger] pairs@[jj] == (sources@[a1], targets@[b1]);
                assert(pairs@[jj].0 == x && pairs@[jj].1 == y);
            }
        }
    }
    Some(h)
}

/// Applies one mutation of the given kind to `g`, as `Genome::mutate` does.
pub fn mutate<W: Copy + Default, F: Fn() -> W, G: Fn(W) -> W>(
    kind: &MutationKind,
    g: &mut Genome<W>,
    fresh: &F,
    adjust: &G,
)
    requires
        old(g).wf(),
        fresh.requires(()),
        forall|w: W| adjust.requires((w,)),
    ensures
        final(g).wf(),
        final(g).inputs == old(g).inputs,
        final(g).outputs == old(g).outputs,
        final(g).node_count() >= old(g).node_count(),
        keeps_genes(*old(g), *final(g)),
        *kind == MutationKind::AddConnection ==> ({
            let idle = forall|u: int, v: int| !#[trigger] old(g).addable(u, v);
            &&& idle ==> *final(g) == *old(g)
            &&& !idle ==> exists|u: int, v: int| #[trigger] connection_added_between(*old(g), *final(g), u, v)
        }),
        *kind == MutationKind::RemoveConnection ==> ({
            let idle = forall|i: int| 0 <= i < old(g).connection_genes@.len() ==> !#[trigger] old(g).removable(i);
            &&& idle ==> *final(g) == *old(g)
            &&& !idle ==> exists|i: usize| #[trigger] connection_disabled_at(*old(g), *final(g), i)
        }),
        *kind == MutationKind::AddNode ==> ({
            let idle = forall|i: int| !#[trigger] old(g).enabled(i);
            &&& idle ==> *final(g) == *old(g)
            &&& !idle ==> exists|h: usize| #[trigger] connection_split_at(*old(g), *final(g), h)
        }),
        *kind == MutationKind::RemoveNode ==> ({
            let idle = forall|v: int| !#[trigger] old(g).bypassable(v);
            &&& idle ==> *final(g) == *old(g)
            &&& !idle ==> exists|h: usize| #[trigger] node_bypassed(*old(g), *final(g), h)
        }),
        *kind == MutationKind::ModifyWeight ==> ({
            let idle = old(g).connection_genes@.len() == 0;
            &&& idle ==> *final(g) == *old(g)
            &&& !idle ==> exists|i: usize| #[trigger] weight_adjusted_at(*old(g), *final(g), i, *adjust)
        }),
        *kind == MutationKind::ModifyBias ==> ({
            let idle = old(g).node_count() == old(g).inputs;
            &&& idle ==> *final(g) == *old(g)
            &&& !idle ==> exists|v: usize| #[trigger] bias_adjusted_at(*old(g), *final(g), v, *adjust)
        }),
        *kind == MutationKind::ModifyActivation ==> ({
            let idle = old(g).node_count() == old(g).inputs;
            &&& idle ==> *final(g) == *old(g)
            &&& !idle ==> exists|v: usize| #[trigger] activation_redrawn_at(*old(g), *final(g), v)
        }),
        *kind == MutationKind::ModifyAggregation ==> ({
            let idle = old(g).node_count() == old(g).inputs;
            &&& idle ==> *final(g) == *old(g)
            &&& !idle ==> exists|v: usize| #[trigger] aggregation_redrawn_at(*old(g), *final(g), v)
        }),
{
    g.mutate(kind, fresh, adjust);
}

} // verus!
